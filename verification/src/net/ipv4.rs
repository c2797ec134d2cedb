//! IPv4 packets. Fragments are refused: nothing here sends anything that big.

use super::{checksum, ipv4_at, Ipv4};
use crate::bytes;
use vstd::prelude::*;

verus! {

pub const ICMP: u8 = 1;

pub const UDP: u8 = 17;

pub const HEADER: usize = 20;

pub const TTL: u8 = 64;

/// Flags: don't fragment.
pub const DONT_FRAGMENT: u16 = 0x4000;

#[derive(Debug, PartialEq, Eq)]
pub struct Packet<'a> {
    pub src: Ipv4,
    pub dst: Ipv4,
    pub protocol: u8,
    pub payload: &'a [u8],
}

/// What a packet says.
pub struct PacketModel {
    pub src: Seq<u8>,
    pub dst: Seq<u8>,
    pub protocol: u8,
    pub payload: Seq<u8>,
}

impl Packet<'_> {
    pub open spec fn view(&self) -> PacketModel {
        PacketModel {
            src: self.src@,
            dst: self.dst@,
            protocol: self.protocol,
            payload: self.payload@,
        }
    }
}

/// What `data` says as a packet: one of version 4, as long as it says, with a correct header
/// checksum, and not a fragment (no more-fragments flag, no offset).
pub open spec fn parsed(data: Seq<u8>) -> Option<PacketModel> {
    if data.len() < HEADER || data[0] / 16 != 4 {
        None
    } else {
        let header = data[0] as int % 16 * 4;
        let total = bytes::be16(data, 2) as int;
        if header < HEADER || total < header || total > data.len() || super::checksum_of(
            super::word_sum(data.subrange(0, header), 0),
        ) != 0 {
            None
        } else if bytes::be16(data, 6) % 0x4000 != 0 {
            None
        } else {
            Some(
                PacketModel {
                    src: data.subrange(12, 16),
                    dst: data.subrange(16, 20),
                    protocol: data[9],
                    payload: data.subrange(header, total),
                },
            )
        }
    }
}

pub fn parse(data: &[u8]) -> (r: Option<Packet<'_>>)
    ensures
        match r {
            Some(packet) => parsed(data@) == Some(packet@),
            None => parsed(data@) is None,
        },
{
    if data.len() < HEADER || data[0] / 16 != 4 {
        return None;
    }
    let header: usize = (data[0] % 16) as usize * 4;
    let total: usize = bytes::be16_at(data, 2) as usize;
    if header < HEADER || total < header || total > data.len() || checksum(&data[0..header]) != 0 {
        return None;
    }
    if bytes::be16_at(data, 6) % 0x4000 != 0 {
        return None;
    }
    Some(
        Packet {
            src: ipv4_at(data, 12),
            dst: ipv4_at(data, 16),
            protocol: data[9],
            payload: &data[header..total],
        },
    )
}

/// A packet's header, with nothing for a checksum.
pub open spec fn bare_header(
    src: Seq<u8>,
    dst: Seq<u8>,
    protocol: u8,
    id: u16,
    length: u16,
) -> Seq<u8> {
    seq![0x45u8, 0] + bytes::be16_bytes(length) + bytes::be16_bytes(id) + bytes::be16_bytes(
        DONT_FRAGMENT,
    ) + seq![TTL, protocol, 0, 0] + src + dst
}

/// A packet's header, with its checksum.
pub open spec fn header_of(
    src: Seq<u8>,
    dst: Seq<u8>,
    protocol: u8,
    id: u16,
    length: u16,
) -> Seq<u8> {
    let bare = bare_header(src, dst, protocol, id, length);
    bytes::splice(bare, 10, bytes::be16_bytes(super::checksum_of(super::word_sum(bare, 0))))
}

/// A packet from `src` to `dst` carrying `payload`, with identification `id`.
pub open spec fn built(
    src: Seq<u8>,
    dst: Seq<u8>,
    protocol: u8,
    id: u16,
    payload: Seq<u8>,
) -> Seq<u8> {
    header_of(src, dst, protocol, id, (HEADER + payload.len()) as u16) + payload
}

/// A packet from `src` to `dst` carrying `payload`, with identification `id`.
pub fn build(src: Ipv4, dst: Ipv4, protocol: u8, id: u16, payload: &[u8]) -> (r: Vec<u8>)
    requires
        HEADER + payload@.len() <= 0xFFFF,
    ensures
        r@ == built(src@, dst@, protocol, id, payload@),
{
    let total: usize = HEADER + payload.len();
    let mut packet: Vec<u8> = Vec::new();
    packet.push(0x45);
    packet.push(0);
    bytes::push_be16(&mut packet, total as u16);
    bytes::push_be16(&mut packet, id);
    bytes::push_be16(&mut packet, DONT_FRAGMENT);
    packet.push(TTL);
    packet.push(protocol);
    packet.push(0);
    packet.push(0);
    bytes::push_all(&mut packet, &src.0);
    bytes::push_all(&mut packet, &dst.0);
    assert(packet@ =~= bare_header(src@, dst@, protocol, id, total as u16));
    let sum = checksum(&packet);
    let mut word: Vec<u8> = Vec::new();
    bytes::push_be16(&mut word, sum);
    assert(word@ =~= bytes::be16_bytes(sum));
    bytes::overwrite(&mut packet, 10, &word);
    bytes::push_all(&mut packet, payload);
    packet
}

/// What is built is parsed, with or without padding after it.
pub proof fn packets_round_trip(
    src: Seq<u8>,
    dst: Seq<u8>,
    protocol: u8,
    id: u16,
    payload: Seq<u8>,
    padding: Seq<u8>,
)
    requires
        src.len() == 4,
        dst.len() == 4,
        HEADER + payload.len() <= 0xFFFF,
    ensures
        parsed(built(src, dst, protocol, id, payload) + padding) == Some(
            PacketModel { src, dst, protocol, payload },
        ),
{
    let length = (HEADER + payload.len()) as u16;
    let bare = bare_header(src, dst, protocol, id, length);
    let header = header_of(src, dst, protocol, id, length);
    let data = built(src, dst, protocol, id, payload) + padding;
    super::checksummed_data_sums_to_zero(bare, 10, 0);
    assert(0 + super::word_sum(bare, 0) == super::word_sum(bare, 0));
    assert(data.subrange(0, 20) =~= header);
    bytes::lemma_words_round_trip(length, 0);
    bytes::lemma_words_round_trip(DONT_FRAGMENT, 0);
    assert(data.subrange(2, 4) =~= bytes::be16_bytes(length));
    bytes::lemma_words_in_subrange(data, 2, 4, 0);
    assert(data.subrange(6, 8) =~= bytes::be16_bytes(DONT_FRAGMENT));
    bytes::lemma_words_in_subrange(data, 6, 8, 0);
    assert(data[0] == 0x45);
    assert(data.subrange(12, 16) =~= src);
    assert(data.subrange(16, 20) =~= dst);
    assert(data.subrange(20, length as int) =~= payload);
}

} // verus!
