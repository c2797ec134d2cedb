//! UDP datagrams, with the checksum over the IPv4 pseudo-header.

use super::{sum, Ipv4};
use crate::bytes;
use vstd::prelude::*;

verus! {

pub const HEADER: usize = 8;

#[derive(Debug, PartialEq, Eq)]
pub struct Datagram<'a> {
    pub src_port: u16,
    pub dst_port: u16,
    pub payload: &'a [u8],
}

/// What a datagram says.
pub struct DatagramModel {
    pub src_port: u16,
    pub dst_port: u16,
    pub payload: Seq<u8>,
}

impl Datagram<'_> {
    pub open spec fn view(&self) -> DatagramModel {
        DatagramModel {
            src_port: self.src_port,
            dst_port: self.dst_port,
            payload: self.payload@,
        }
    }
}

/// What the pseudo-header adds to a datagram's sum: the addresses, the protocol, the length.
pub open spec fn pseudo_header(src: Seq<u8>, dst: Seq<u8>, length: nat) -> nat {
    super::word_sum(src, 0) + super::word_sum(dst, 0) + super::ipv4::UDP as nat + length
}

/// The checksum of `datagram` (with its own checksum field as it is) between `src` and `dst`.
fn datagram_checksum(src: Ipv4, dst: Ipv4, datagram: &[u8]) -> (r: u16)
    requires
        datagram@.len() <= 0xFFFF,
    ensures
        r == super::checksum_of(
            pseudo_header(src@, dst@, datagram@.len()) + super::word_sum(datagram@, 0),
        ),
{
    let a = sum(0, &src.0);
    let b = sum(a, &dst.0);
    let length: u32 = super::ipv4::UDP as u32 + datagram.len() as u32;
    let mut c: u32 = b as u32 + length;
    while c > 0xFFFF
        invariant
            c <= 0x3_0000,
            super::folded(c as nat) == super::folded(b as nat + length as nat),
        decreases c,
    {
        proof {
            super::lemma_folding(c as nat, 0);
        }
        c = c - 0xFFFF;
    }
    let d = sum(c as u16, datagram);
    proof {
        super::lemma_folded_sums(a as nat, super::word_sum(src@, 0), super::word_sum(dst@, 0));
        super::lemma_folded_sums(
            b as nat,
            super::word_sum(src@, 0) + super::word_sum(dst@, 0),
            length as nat,
        );
        super::lemma_folded_sums(
            c as nat,
            pseudo_header(src@, dst@, datagram@.len()),
            super::word_sum(datagram@, 0),
        );
    }
    0xFFFF - d
}

/// What `data` says as a datagram that arrived from `src` for `dst`. A checksum of 0 means
/// none was sent.
pub open spec fn parsed(data: Seq<u8>, src: Seq<u8>, dst: Seq<u8>) -> Option<DatagramModel> {
    if data.len() < HEADER {
        None
    } else {
        let length = bytes::be16(data, 4) as int;
        if length < HEADER || length > data.len() {
            None
        } else if bytes::be16(data, 6) != 0 && super::checksum_of(
            pseudo_header(src, dst, length as nat) + super::word_sum(data.subrange(0, length), 0),
        ) != 0 {
            None
        } else {
            Some(
                DatagramModel {
                    src_port: bytes::be16(data, 0),
                    dst_port: bytes::be16(data, 2),
                    payload: data.subrange(HEADER as int, length),
                },
            )
        }
    }
}

/// A datagram that arrived from `src` for `dst`. A checksum of 0 means none was sent.
pub fn parse(data: &[u8], src: Ipv4, dst: Ipv4) -> (r: Option<Datagram<'_>>)
    ensures
        match r {
            Some(datagram) => parsed(data@, src@, dst@) == Some(datagram@),
            None => parsed(data@, src@, dst@) is None,
        },
{
    if data.len() < HEADER {
        return None;
    }
    let length = bytes::be16_at(data, 4) as usize;
    if length < HEADER || length > data.len() {
        return None;
    }
    if bytes::be16_at(data, 6) != 0 && datagram_checksum(src, dst, &data[0..length]) != 0 {
        return None;
    }
    Some(
        Datagram {
            src_port: bytes::be16_at(data, 0),
            dst_port: bytes::be16_at(data, 2),
            payload: &data[HEADER..length],
        },
    )
}

/// A datagram with nothing for a checksum.
pub open spec fn bare(src_port: u16, dst_port: u16, payload: Seq<u8>) -> Seq<u8> {
    bytes::be16_bytes(src_port) + bytes::be16_bytes(dst_port) + bytes::be16_bytes(
        (HEADER + payload.len()) as u16,
    ) + seq![0u8, 0] + payload
}

/// The checksum to send. A computed 0 is sent as all ones: 0 means "no checksum".
pub open spec fn sent_checksum(src: Seq<u8>, dst: Seq<u8>, datagram: Seq<u8>) -> u16 {
    let sum = super::checksum_of(pseudo_header(src, dst, datagram.len()) + super::word_sum(datagram, 0));
    if sum == 0 {
        0xFFFF
    } else {
        sum
    }
}

pub open spec fn built(
    src: Seq<u8>,
    src_port: u16,
    dst: Seq<u8>,
    dst_port: u16,
    payload: Seq<u8>,
) -> Seq<u8> {
    let datagram = bare(src_port, dst_port, payload);
    bytes::splice(datagram, 6, bytes::be16_bytes(sent_checksum(src, dst, datagram)))
}

pub fn build(src: Ipv4, src_port: u16, dst: Ipv4, dst_port: u16, payload: &[u8]) -> (r: Vec<u8>)
    requires
        HEADER + payload@.len() <= 0xFFFF,
    ensures
        r@ == built(src@, src_port, dst@, dst_port, payload@),
{
    let length: usize = HEADER + payload.len();
    let mut datagram: Vec<u8> = Vec::new();
    bytes::push_be16(&mut datagram, src_port);
    bytes::push_be16(&mut datagram, dst_port);
    bytes::push_be16(&mut datagram, length as u16);
    datagram.push(0);
    datagram.push(0);
    bytes::push_all(&mut datagram, payload);
    assert(datagram@ =~= bare(src_port, dst_port, payload@));
    let computed = datagram_checksum(src, dst, &datagram);
    let sum: u16 = if computed == 0 {
        0xFFFF
    } else {
        computed
    };
    let mut word: Vec<u8> = Vec::new();
    bytes::push_be16(&mut word, sum);
    assert(word@ =~= bytes::be16_bytes(sum));
    bytes::overwrite(&mut datagram, 6, &word);
    datagram
}

/// What is built is parsed between the same addresses, with or without padding after it.
pub proof fn datagrams_round_trip(
    src: Seq<u8>,
    src_port: u16,
    dst: Seq<u8>,
    dst_port: u16,
    payload: Seq<u8>,
    padding: Seq<u8>,
)
    requires
        HEADER + payload.len() <= 0xFFFF,
    ensures
        parsed(built(src, src_port, dst, dst_port, payload) + padding, src, dst) == Some(
            DatagramModel { src_port, dst_port, payload },
        ),
{
    let length = (HEADER + payload.len()) as u16;
    let plain = bare(src_port, dst_port, payload);
    let whole = built(src, src_port, dst, dst_port, payload);
    let data = whole + padding;
    super::checksummed_data_sums_to_zero(plain, 6, pseudo_header(src, dst, plain.len()));
    bytes::lemma_words_round_trip(src_port, 0);
    bytes::lemma_words_round_trip(dst_port, 0);
    bytes::lemma_words_round_trip(length, 0);
    assert(data.subrange(0, 2) =~= bytes::be16_bytes(src_port));
    bytes::lemma_words_in_subrange(data, 0, 2, 0);
    assert(data.subrange(2, 4) =~= bytes::be16_bytes(dst_port));
    bytes::lemma_words_in_subrange(data, 2, 4, 0);
    assert(data.subrange(4, 6) =~= bytes::be16_bytes(length));
    bytes::lemma_words_in_subrange(data, 4, 6, 0);
    assert(data.subrange(0, length as int) =~= whole);
    assert(data.subrange(8, length as int) =~= payload);
}

} // verus!
