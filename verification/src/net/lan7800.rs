//! How the LAN7800 (the Pi 3 B+'s Ethernet controller) wraps frames on its USB bulk
//! endpoints: an 8-byte command header on each frame sent; and on those received, a 10-byte
//! header, the frame with its FCS, and padding, several of them to a transfer.

use crate::bytes;
use vstd::prelude::*;

verus! {

/// TX command A: the frame's length (20 bits), and "add the FCS". Command B, 0, follows.
pub const TX_CMD_A_FCS: u32 = 0x40_0000;

/// RX command A: "receive error", and the frame's length with its FCS (14 bits). B and C
/// follow.
pub const RX_CMD_A_ERROR: u32 = 0x40_0000;

pub const RX_HEADER: usize = 10;

pub const FCS: usize = 4;

/// `frame` as the bulk OUT endpoint takes it.
pub open spec fn wrapped(frame: Seq<u8>) -> Seq<u8> {
    bytes::le32_bytes((frame.len() % 0x10_0000 + TX_CMD_A_FCS) as u32) + bytes::le32_bytes(0) + frame
}

/// `frame` as the bulk OUT endpoint takes it.
pub fn tx(frame: &[u8]) -> (r: Vec<u8>)
    ensures
        r@ == wrapped(frame@),
{
    let mut out: Vec<u8> = Vec::new();
    bytes::push_le32(&mut out, (frame.len() % 0x10_0000) as u32 + TX_CMD_A_FCS);
    bytes::push_le32(&mut out, 0);
    bytes::push_all(&mut out, frame);
    assert(out@ =~= wrapped(frame@));
    out
}

/// The length, with its FCS, that RX command A gives for the frame at `at`.
pub open spec fn size_at(transfer: Seq<u8>, at: int) -> int {
    bytes::le32(transfer, at) as int % 0x4000
}

/// Whether the controller marked the frame at `at` bad.
pub open spec fn bad_at(transfer: Seq<u8>, at: int) -> bool {
    bytes::le32(transfer, at) / RX_CMD_A_ERROR % 2 == 1
}

/// How much padding follows a frame of `size` bytes, FCS and all: the next one starts 4-byte
/// aligned, counting the header's 2-byte C word.
pub open spec fn padding(size: int) -> int {
    (4 - (size + 2) % 4) % 4
}

/// The frames in a transfer from `at` on, without their FCS. Frames the controller marks bad
/// are left out; a transfer cut short ends the list.
pub open spec fn frames_from(transfer: Seq<u8>, at: int) -> Seq<Seq<u8>>
    decreases transfer.len() + 4 - at,
{
    let start = at + RX_HEADER;
    let size = size_at(transfer, at);
    if start > transfer.len() || start + size > transfer.len() {
        Seq::empty()
    } else {
        let rest = frames_from(transfer, start + size + padding(size));
        if bad_at(transfer, at) || size <= FCS {
            rest
        } else {
            seq![transfer.subrange(start, start + size - FCS)] + rest
        }
    }
}

/// The bytes of a list of frames.
pub open spec fn frames_of(list: Seq<&[u8]>) -> Seq<Seq<u8>> {
    Seq::new(list.len(), |i: int| list[i]@)
}

/// The frames in what one bulk IN transfer brought, without their FCS. Frames the controller
/// marks bad are left out; a transfer cut short ends the list.
pub fn rx(transfer: &[u8]) -> (r: Vec<&[u8]>)
    ensures
        frames_of(r@) == frames_from(transfer@, 0),
{
    let mut frames: Vec<&[u8]> = Vec::new();
    let mut at: usize = 0;
    assert(frames_of(frames@) + frames_from(transfer@, 0) =~= frames_from(transfer@, 0));
    while at <= transfer.len() && transfer.len() - at >= RX_HEADER
        invariant
            frames_from(transfer@, 0) == frames_of(frames@) + frames_from(transfer@, at as int),
        decreases transfer@.len() - at,
    {
        let cmd_a = bytes::le32_at(transfer, at);
        let size: usize = (cmd_a % 0x4000) as usize;
        let start: usize = at + RX_HEADER;
        if size > transfer.len() - start {
            assert(frames_of(frames@) + Seq::<Seq<u8>>::empty() =~= frames_of(frames@));
            return frames;
        }
        let ghost before = frames_of(frames@);
        let pad: usize = (4 - (size + 2) % 4) % 4;
        let ghost rest = frames_from(transfer@, start + size + pad);
        if cmd_a / RX_CMD_A_ERROR % 2 == 0 && size > FCS {
            let frame = &transfer[start..start + size - FCS];
            frames.push(frame);
            assert(frames_of(frames@) =~= before.push(frame@));
            assert(before + (seq![frame@] + rest) =~= frames_of(frames@) + rest);
        }
        if transfer.len() - start - size < pad {
            assert(rest =~= Seq::<Seq<u8>>::empty());
            assert(frames_of(frames@) + rest =~= frames_of(frames@));
            return frames;
        }
        at = start + size + pad;
    }
    assert(frames_from(transfer@, at as int) =~= Seq::<Seq<u8>>::empty());
    assert(frames_of(frames@) + Seq::<Seq<u8>>::empty() =~= frames_of(frames@));
    frames
}

/// A frame as the controller hands it over: command A, the rest of the header, the frame, its
/// FCS and the padding.
pub open spec fn handed_over(
    frame: Seq<u8>,
    bad: bool,
    header: Seq<u8>,
    fcs: Seq<u8>,
    pad: Seq<u8>,
) -> Seq<u8> {
    let size = (frame.len() + 4) as u32;
    let error: u32 = if bad {
        0x40_0000
    } else {
        0
    };
    bytes::le32_bytes((size + error) as u32) + header + frame + fcs + pad
}

proof fn lemma_frames_shift(a: Seq<u8>, b: Seq<u8>, at: int)
    requires
        0 <= at,
    ensures
        frames_from(a + b, a.len() + at) == frames_from(b, at),
    decreases b.len() + 4 - at,
{
    let whole = a + b;
    let start = at + 10;
    if start <= b.len() {
        assert(bytes::le32(whole, a.len() + at) == bytes::le32(b, at));
        let size = size_at(b, at);
        if start + size <= b.len() {
            lemma_frames_shift(a, b, start + size + padding(size));
            if size > 4 {
                assert(whole.subrange(a.len() + start, a.len() + start + size - 4) =~= b.subrange(
                    start,
                    start + size - 4,
                ));
            }
        }
    }
}

/// The frames that the controller hands over one after another come apart again: the first is
/// taken off the transfer whole, unless it was bad, and the rest are those of the rest.
pub proof fn frames_come_apart(
    frame: Seq<u8>,
    bad: bool,
    header: Seq<u8>,
    fcs: Seq<u8>,
    pad: Seq<u8>,
    rest: Seq<u8>,
)
    requires
        0 < frame.len() < 0x4000 - 4,
        header.len() == 6,
        fcs.len() == 4,
        pad.len() < 4,
        (10 + frame.len() + 4 + pad.len()) % 4 == 0,
    ensures
        frames_from(handed_over(frame, bad, header, fcs, pad) + rest, 0) == (if bad {
            Seq::empty()
        } else {
            seq![frame]
        }) + frames_from(rest, 0),
{
    let first = handed_over(frame, bad, header, fcs, pad);
    let whole = first + rest;
    let size = frame.len() + 4;
    let cmd_a: u32 = if bad {
        (size + 0x40_0000) as u32
    } else {
        size as u32
    };
    bytes::lemma_words_round_trip(0, cmd_a);
    assert(whole.subrange(0, 4) =~= bytes::le32_bytes(cmd_a));
    bytes::lemma_words_in_subrange(whole, 0, 4, 0);
    assert(bytes::le32(whole, 0) == cmd_a);
    assert(size_at(whole, 0) == size);
    assert(first.len() == 10 + size + padding(size as int));
    lemma_frames_shift(first, rest, 0);
    assert(whole.subrange(10, 10 + size - 4) =~= frame);
    assert(Seq::<Seq<u8>>::empty() + frames_from(rest, 0) =~= frames_from(rest, 0));
}

/// A frame goes out behind 8 bytes: its length in the low 20 bits of the first word, the low byte
/// first, with bit 22 set for the controller to add the FCS; and a word of zeros.
pub proof fn frames_go_out_behind_their_length(frame: Seq<u8>)
    requires
        frame.len() < 0x1_0000,
    ensures
        wrapped(frame) == seq![
            (frame.len() % 256) as u8,
            (frame.len() / 256) as u8,
            0x40,
            0,
            0,
            0,
            0,
            0,
        ] + frame,
{
    let n = frame.len() as u32;
    let word = (n + 0x40_0000) as u32;
    assert(word % 0x100 == n % 0x100 && word / 0x100 % 0x100 == n / 0x100 && word / 0x1_0000 % 0x100
        == 0x40 && word / 0x100_0000 == 0) by (bit_vector)
        requires
            n < 0x1_0000,
            word == n + 0x40_0000,
    ;
    assert(wrapped(frame) =~= seq![
        (frame.len() % 256) as u8,
        (frame.len() / 256) as u8,
        0x40,
        0,
        0,
        0,
        0,
        0,
    ] + frame);
}

} // verus!
