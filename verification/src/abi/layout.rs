//! Where things are in a program's address space.

use vstd::prelude::*;

verus! {

pub const PAGE_SIZE: u64 = 4096;

/// All user memory lies in `USER_BASE..USER_END`. Programs are linked to start here.
pub const USER_BASE: u64 = 0x8000_0000;

pub const USER_END: u64 = 0xC000_0000;

/// The stack ends a page below the top of the user window.
pub const STACK_TOP: u64 = USER_END - PAGE_SIZE;

pub const STACK_SIZE: u64 = 64 * 1024;

/// A program's segments must end by here, leaving an unmapped page below the stack.
pub const PROGRAM_END: u64 = STACK_TOP - STACK_SIZE - PAGE_SIZE;

/// Most bytes of arguments a program is started with.
pub const MAX_ARGS: usize = 1024;

/// User memory is the gigabyte from 2GB on. Its last page is free, the 16 pages below are the
/// stack, and below that is another free page: a program has everything below.
pub proof fn programs_lie_below_their_stack()
    ensures
        USER_BASE == 2 * 0x4000_0000,
        USER_END == 3 * 0x4000_0000,
        STACK_TOP == USER_END - 4096,
        STACK_SIZE == 16 * 4096,
        PROGRAM_END == USER_END - 18 * 4096,
{
}

} // verus!
