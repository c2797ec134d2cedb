//! Ethernet II frames, without the FCS (the controller adds and checks it).

use super::{mac_at, Mac};
use crate::bytes;
use vstd::prelude::*;

verus! {

pub const ARP: u16 = 0x0806;

pub const IPV4: u16 = 0x0800;

pub const HEADER: usize = 14;

/// Shorter frames are padded to this (60 bytes, plus the controller's 4-byte FCS).
pub const MIN_FRAME: usize = 60;

#[derive(Debug, PartialEq, Eq)]
pub struct Frame<'a> {
    pub dst: Mac,
    pub src: Mac,
    pub ethertype: u16,
    /// With any padding still on: the protocol inside knows its own length.
    pub payload: &'a [u8],
}

/// What a frame says.
pub struct FrameModel {
    pub dst: Seq<u8>,
    pub src: Seq<u8>,
    pub ethertype: u16,
    pub payload: Seq<u8>,
}

impl Frame<'_> {
    pub open spec fn view(&self) -> FrameModel {
        FrameModel {
            dst: self.dst@,
            src: self.src@,
            ethertype: self.ethertype,
            payload: self.payload@,
        }
    }
}

/// What `data` says as a frame, if it is long enough for one.
pub open spec fn parsed(data: Seq<u8>) -> Option<FrameModel> {
    if data.len() < HEADER {
        None
    } else {
        Some(
            FrameModel {
                dst: data.subrange(0, 6),
                src: data.subrange(6, 12),
                ethertype: bytes::be16(data, 12),
                payload: data.subrange(HEADER as int, data.len() as int),
            },
        )
    }
}

pub fn parse(data: &[u8]) -> (r: Option<Frame<'_>>)
    ensures
        match r {
            Some(frame) => parsed(data@) == Some(frame@),
            None => parsed(data@) is None,
        },
{
    if data.len() < HEADER {
        return None;
    }
    Some(
        Frame {
            dst: mac_at(data, 0),
            src: mac_at(data, 6),
            ethertype: bytes::be16_at(data, 12),
            payload: &data[HEADER..data.len()],
        },
    )
}

/// A frame without its padding.
pub open spec fn unpadded(dst: Seq<u8>, src: Seq<u8>, ethertype: u16, payload: Seq<u8>) -> Seq<u8> {
    dst + src + bytes::be16_bytes(ethertype) + payload
}

/// A frame, padded with zeros.
pub open spec fn built(dst: Seq<u8>, src: Seq<u8>, ethertype: u16, payload: Seq<u8>) -> Seq<u8> {
    let frame = unpadded(dst, src, ethertype, payload);
    if frame.len() < MIN_FRAME {
        frame + bytes::zeros((MIN_FRAME - frame.len()) as nat)
    } else {
        frame
    }
}

pub fn build(dst: Mac, src: Mac, ethertype: u16, payload: &[u8]) -> (r: Vec<u8>)
    ensures
        r@ == built(dst@, src@, ethertype, payload@),
{
    let mut frame: Vec<u8> = Vec::new();
    bytes::push_all(&mut frame, &dst.0);
    bytes::push_all(&mut frame, &src.0);
    bytes::push_be16(&mut frame, ethertype);
    bytes::push_all(&mut frame, payload);
    assert(frame@ =~= unpadded(dst@, src@, ethertype, payload@));
    bytes::pad_to(&mut frame, MIN_FRAME, 0);
    assert(frame@ =~= built(dst@, src@, ethertype, payload@));
    frame
}

/// What is built is parsed: the payload comes back, perhaps with padding after it.
pub proof fn frames_round_trip(dst: Seq<u8>, src: Seq<u8>, ethertype: u16, payload: Seq<u8>)
    requires
        dst.len() == 6,
        src.len() == 6,
    ensures
        parsed(built(dst, src, ethertype, payload)) matches Some(frame) && {
            &&& frame.dst == dst
            &&& frame.src == src
            &&& frame.ethertype == ethertype
            &&& payload.len() <= frame.payload.len()
            &&& frame.payload.subrange(0, payload.len() as int) == payload
            &&& payload.len() >= MIN_FRAME - HEADER ==> frame.payload == payload
        },
{
    let data = built(dst, src, ethertype, payload);
    bytes::lemma_words_round_trip(ethertype, 0);
    let frame = parsed(data)->0;
    assert(frame.dst =~= dst);
    assert(frame.src =~= src);
    assert(data.subrange(12, 14) =~= bytes::be16_bytes(ethertype));
    bytes::lemma_words_in_subrange(data, 12, 14, 0);
    assert(frame.payload.subrange(0, payload.len() as int) =~= payload);
    if payload.len() >= MIN_FRAME - HEADER {
        assert(frame.payload =~= payload);
    }
}

} // verus!
