//! Time.

use crate::abi::{Errno, Syscall};
use vstd::prelude::*;

verus! {

/// The microseconds since the board was reset, from what asking for them came back with.
pub fn uptime(result: Result<u64, Errno>) -> (micros: u64)
    ensures
        micros == match result {
            Ok(micros) => micros,
            Err(_) => 0,
        },
{
    match result {
        Ok(micros) => micros,
        Err(_) => 0,
    }
}

/// The call that sleeps for at least `micros` microseconds, letting other tasks run: as long as
/// a call can ask for, if that is less.
pub fn sleep(micros: u128) -> (r: Syscall)
    ensures
        r == (Syscall::Sleep {
            micros: if micros <= u64::MAX {
                micros as u64
            } else {
                u64::MAX
            },
        }),
{
    Syscall::Sleep {
        micros: if micros <= u64::MAX as u128 {
            micros as u64
        } else {
            u64::MAX
        },
    }
}

} // verus!
