//! What user programs are linked with: what they make of the results of their system calls,
//! and which calls a request takes. The calls themselves are made by the program's glue, which
//! hands the results in.

use crate::abi::Syscall;
use crate::text::utf8_text;
use vstd::prelude::*;
use vstd::string::StringSliceAdditionalSpecFns;

pub mod env;
pub mod fs;
pub mod io;
pub mod memory;
pub mod process;
pub mod random;
pub mod screen;
pub mod time;

verus! {

/// What main may return.
pub trait Termination: Sized {
    /// The exit code that this stands for.
    open spec fn code(self) -> i32 {
        0
    }

    fn exit_code(self) -> (r: i32)
        ensures
            r == self.code(),
    ;
}

impl Termination for () {
    open spec fn code(self) -> i32 {
        0
    }

    fn exit_code(self) -> (r: i32) {
        0
    }
}

impl Termination for i32 {
    open spec fn code(self) -> i32 {
        self
    }

    fn exit_code(self) -> (r: i32) {
        self
    }
}

/// A failure is exit code 1.
impl<T: Termination, E> Termination for Result<T, E> {
    open spec fn code(self) -> i32 {
        match self {
            Ok(value) => value.code(),
            Err(_) => 1,
        }
    }

    fn exit_code(self) -> (r: i32) {
        match self {
            Ok(value) => value.exit_code(),
            Err(_) => 1,
        }
    }
}

/// The exit code of a program that panics.
pub const PANICKED: i32 = 101;

/// The rest of the command line the program was started with, from the bytes that the kernel
/// put at the top of its stack. Empty if they aren't UTF-8.
pub fn args(bytes: &[u8]) -> (r: &str)
    ensures
        vstd::utf8::valid_utf8(bytes@) ==> r.spec_bytes() == bytes@,
        !vstd::utf8::valid_utf8(bytes@) ==> r@ == ""@,
{
    match utf8_text(bytes) {
        Some(args) => args,
        None => "",
    }
}

/// The call that ends the program.
pub fn exit(code: i32) -> (r: Syscall)
    ensures
        r == (Syscall::Exit { code }),
{
    Syscall::Exit { code }
}

/// The call that lets other tasks run.
pub fn yield_now() -> (r: Syscall)
    ensures
        r == Syscall::Yield,
{
    Syscall::Yield
}

} // verus!
