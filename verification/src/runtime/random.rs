//! Random numbers from the Pi's hardware generator.

use crate::abi::MAX_RANDOM;
use crate::bytes::{le32_at, le64_at};
use vstd::prelude::*;

verus! {

/// The pieces in which `len` bytes are filled, as where each starts and ends: the kernel fills
/// at most `MAX_RANDOM` bytes at a time.
pub fn fill(len: usize) -> (r: Vec<(usize, usize)>)
    ensures
        r@.len() == (len + MAX_RANDOM - 1) / MAX_RANDOM as int,
        forall|i: int|
            0 <= i < r@.len() ==> (#[trigger] r@[i]).0 == i * MAX_RANDOM && r@[i].1 == (if (i + 1)
                * MAX_RANDOM < len {
                (i + 1) * MAX_RANDOM
            } else {
                len as int
            }),
{
    let mut pieces: Vec<(usize, usize)> = Vec::new();
    let mut start: usize = 0;
    while start < len
        invariant
            start <= len,
            start == (if pieces@.len() * MAX_RANDOM < len {
                pieces@.len() * MAX_RANDOM
            } else {
                len as int
            }),
            pieces@.len() <= (len + MAX_RANDOM - 1) / MAX_RANDOM as int,
            forall|i: int|
                0 <= i < pieces@.len() ==> (#[trigger] pieces@[i]).0 == i * MAX_RANDOM
                    && pieces@[i].1 == (if (i + 1) * MAX_RANDOM < len {
                    (i + 1) * MAX_RANDOM
                } else {
                    len as int
                }),
        decreases len - start,
    {
        let end: usize = if len - start > MAX_RANDOM {
            start + MAX_RANDOM
        } else {
            len
        };
        pieces.push((start, end));
        start = end;
    }
    pieces
}

/// Every byte of a buffer is in exactly one of the pieces it is filled in.
pub proof fn every_byte_is_filled(len: usize, at: int, i: int)
    requires
        0 <= at < len,
        0 <= i < (len + MAX_RANDOM - 1) / MAX_RANDOM as int,
    ensures
        0 <= at / MAX_RANDOM as int,
        (at / MAX_RANDOM as int) < (len + MAX_RANDOM - 1) / MAX_RANDOM as int,
        (i * MAX_RANDOM <= at < (if (i + 1) * MAX_RANDOM < len {
            (i + 1) * MAX_RANDOM
        } else {
            len as int
        })) <==> i == at / MAX_RANDOM as int,
{
}

/// A random number, from four random bytes.
pub fn u32(bytes: [u8; 4]) -> (r: u32)
    ensures
        r == crate::bytes::le32(bytes@, 0),
{
    le32_at(&bytes, 0)
}

/// A random number, from eight random bytes.
pub fn u64(bytes: [u8; 8]) -> (r: u64)
    ensures
        r == crate::bytes::le64(bytes@, 0),
{
    le64_at(&bytes, 0)
}

/// The draws that a number in a range of `span` is made of: those below the last whole multiple
/// of `span`. Draws from there on would favour the low results.
pub open spec fn fair(span: u64) -> int {
    u64::MAX as int / span as int * span as int
}

/// The number in `start..end` that a random draw gives. `None` if another draw is needed.
pub fn range(start: u64, end: u64, draw: u64) -> (r: Option<u64>)
    requires
        start < end,
    ensures
        r == number_drawn(start, end, draw),
{
    let span: u64 = end - start;
    proof {
        vstd::arithmetic::div_mod::lemma_fundamental_div_mod(u64::MAX as int, span as int);
        assert(u64::MAX as int / span as int * span as int == span as int * (u64::MAX as int
            / span as int)) by (nonlinear_arith);
        assert(0 <= u64::MAX as int / span as int * span as int) by (nonlinear_arith)
            requires
                span > 0,
        ;
    }
    let fair: u64 = u64::MAX / span * span;
    if draw < fair {
        Some(start + draw % span)
    } else {
        None
    }
}

/// The number in `start..end` that a random draw gives.
pub open spec fn number_drawn(start: u64, end: u64, draw: u64) -> Option<u64> {
    let span = (end - start) as u64;
    if draw < fair(span) {
        Some((start + draw % span) as u64)
    } else {
        None
    }
}

/// Every number in the range is equally likely: each one comes of as many draws, which are
/// those a whole number of spans apart.
pub proof fn numbers_are_equally_likely(start: u64, end: u64, number: u64)
    requires
        start <= number < end,
    ensures
        ({
            let span = (end - start) as u64;
            let turns = u64::MAX as int / span as int;
            &&& turns > 0
            &&& forall|turn: int|
                0 <= turn < turns ==> {
                    let draw = #[trigger] (turn * span) + number - start;
                    &&& 0 <= draw <= u64::MAX
                    &&& number_drawn(start, end, draw as u64) == Some(number)
                }
            &&& forall|draw: u64|
                #[trigger] number_drawn(start, end, draw) == Some(number) ==> {
                    let turn = draw as int / span as int;
                    &&& 0 <= turn < turns
                    &&& draw == turn * span + number - start
                }
        }),
{
    let span = (end - start) as u64;
    let turns = u64::MAX as int / span as int;
    let rest = (number - start) as int;
    vstd::arithmetic::div_mod::lemma_div_non_zero(u64::MAX as int, span as int);
    vstd::arithmetic::div_mod::lemma_fundamental_div_mod(u64::MAX as int, span as int);
    assert(turns * span == span * turns) by (nonlinear_arith);
    assert forall|turn: int| 0 <= turn < turns implies ({
        let draw = #[trigger] (turn * span) + number - start;
        &&& 0 <= draw <= u64::MAX
        &&& number_drawn(start, end, draw as u64) == Some(number)
    }) by {
        let draw = turn * span + rest;
        assert(turn * span + span <= turns * span) by (nonlinear_arith)
            requires
                turn + 1 <= turns,
                span > 0,
        ;
        assert(0 <= turn * span) by (nonlinear_arith)
            requires
                0 <= turn,
        ;
        vstd::arithmetic::div_mod::lemma_fundamental_div_mod_converse(
            draw,
            span as int,
            turn,
            rest,
        );
    }
    assert forall|draw: u64|
        #[trigger] number_drawn(start, end, draw) == Some(number) implies ({
        let turn = draw as int / span as int;
        &&& 0 <= turn < turns
        &&& draw == turn * span + number - start
    }) by {
        let turn = draw as int / span as int;
        vstd::arithmetic::div_mod::lemma_fundamental_div_mod(draw as int, span as int);
        assert(turn * span == span * turn) by (nonlinear_arith);
        vstd::arithmetic::div_mod::lemma_div_pos_is_pos(draw as int, span as int);
        if turn >= turns {
            assert(turn * span >= turns * span) by (nonlinear_arith)
                requires
                    turn >= turns,
                    span > 0,
            ;
        }
    }
}

} // verus!
