//! The program's environment: its current directory, which relative paths start from.

use crate::abi::Errno;
use crate::runtime::fs;
use vstd::prelude::*;

verus! {

/// The current directory, an absolute path like `/docs`: what the kernel put into `buf` when it
/// was asked, if the call came back with the path's length. `Invalid` if that isn't UTF-8.
pub fn current_dir(result: Result<u64, Errno>, buf: &[u8]) -> (r: Result<String, Errno>)
    requires
        result matches Ok(len) ==> len <= buf@.len(),
    ensures
        match result {
            Err(error) => r == Err::<String, Errno>(error),
            Ok(len) => fs::is_text_of(r, buf@.subrange(0, len as int)),
        },
{
    assert(buf.len() == buf@.len());
    match result {
        Ok(len) => fs::text_of(&buf[0..len as usize]),
        Err(error) => Err(error),
    }
}

/// Whether the current directory was changed, for this program and the programs it starts from
/// now on.
pub fn set_current_dir(result: Result<u64, Errno>) -> (r: Result<(), Errno>)
    ensures
        r == match result {
            Ok(_) => Ok::<(), Errno>(()),
            Err(error) => Err(error),
        },
{
    match result {
        Ok(_) => Ok(()),
        Err(error) => Err(error),
    }
}

} // verus!
