//! Checks on memory that user programs hand to the kernel.

use vstd::prelude::*;

verus! {

/// A range of user addresses, `start..start + len`.
#[derive(Clone, Copy, Debug, PartialEq, Eq, Structural)]
pub struct Region {
    pub start: u64,
    pub len: u64,
}

impl Region {
    pub fn new(start: u64, len: u64) -> (r: Self)
        ensures
            r.start == start,
            r.len == len,
    {
        Region { start, len }
    }

    /// Whether `addr..addr + len` lies entirely inside this region. A range that wraps past
    /// the end of the address space never does.
    pub fn contains(&self, addr: u64, len: u64) -> (r: bool)
        ensures
            r == (addr + len <= u64::MAX && self.start <= addr && addr + len <= self.start
                + self.len),
    {
        match addr.checked_add(len) {
            Some(end) => addr >= self.start && end - self.start <= self.len,
            None => false,
        }
    }
}

} // verus!
