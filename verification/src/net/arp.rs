//! ARP for IPv4 over Ethernet: who has an IP address, and the answer.

use super::{ipv4_at, mac_at, Ipv4, Mac};
use crate::bytes;
use vstd::prelude::*;

verus! {

pub const REQUEST: u16 = 1;

pub const REPLY: u16 = 2;

pub const LENGTH: usize = 28;

#[derive(Clone, Copy, Debug, PartialEq, Eq)]
pub struct Arp {
    pub op: u16,
    pub sender_mac: Mac,
    pub sender_ip: Ipv4,
    pub target_mac: Mac,
    pub target_ip: Ipv4,
}

/// What an ARP packet says.
pub struct ArpModel {
    pub op: u16,
    pub sender_mac: Seq<u8>,
    pub sender_ip: Seq<u8>,
    pub target_mac: Seq<u8>,
    pub target_ip: Seq<u8>,
}

impl ArpModel {
    pub open spec fn wf(self) -> bool {
        &&& self.sender_mac.len() == 6
        &&& self.sender_ip.len() == 4
        &&& self.target_mac.len() == 6
        &&& self.target_ip.len() == 4
    }

    /// The packet: Ethernet hardware, IPv4 protocol, their address lengths, and the rest.
    pub open spec fn packet(self) -> Seq<u8> {
        seq![0u8, 1, 0x08, 0x00, 6, 4] + bytes::be16_bytes(self.op) + self.sender_mac
            + self.sender_ip + self.target_mac + self.target_ip
    }
}

/// What `data` says as an ARP packet, if it is one for IPv4 over Ethernet.
pub open spec fn parsed(data: Seq<u8>) -> Option<ArpModel> {
    if data.len() < LENGTH || bytes::be16(data, 0) != 1 || bytes::be16(data, 2) != 0x0800 || data[4]
        != 6 || data[5] != 4 {
        None
    } else {
        Some(
            ArpModel {
                op: bytes::be16(data, 6),
                sender_mac: data.subrange(8, 14),
                sender_ip: data.subrange(14, 18),
                target_mac: data.subrange(18, 24),
                target_ip: data.subrange(24, 28),
            },
        )
    }
}

impl Arp {
    pub open spec fn view(&self) -> ArpModel {
        ArpModel {
            op: self.op,
            sender_mac: self.sender_mac@,
            sender_ip: self.sender_ip@,
            target_mac: self.target_mac@,
            target_ip: self.target_ip@,
        }
    }

    pub fn parse(data: &[u8]) -> (r: Option<Arp>)
        ensures
            match r {
                Some(arp) => parsed(data@) == Some(arp@),
                None => parsed(data@) is None,
            },
    {
        // Ethernet hardware, IPv4 protocol, their address lengths.
        if data.len() < LENGTH || bytes::be16_at(data, 0) != 1 || bytes::be16_at(data, 2) != 0x0800
            || data[4] != 6 || data[5] != 4 {
            return None;
        }
        Some(
            Arp {
                op: bytes::be16_at(data, 6),
                sender_mac: mac_at(data, 8),
                sender_ip: ipv4_at(data, 14),
                target_mac: mac_at(data, 18),
                target_ip: ipv4_at(data, 24),
            },
        )
    }

    pub fn to_bytes(&self) -> (r: Vec<u8>)
        ensures
            r@ == self@.packet(),
            r@.len() == LENGTH,
    {
        let mut out: Vec<u8> = Vec::new();
        let start: [u8; 6] = [0, 1, 0x08, 0x00, 6, 4];
        bytes::push_all(&mut out, &start);
        bytes::push_be16(&mut out, self.op);
        bytes::push_all(&mut out, &self.sender_mac.0);
        bytes::push_all(&mut out, &self.sender_ip.0);
        bytes::push_all(&mut out, &self.target_mac.0);
        bytes::push_all(&mut out, &self.target_ip.0);
        assert(out@ =~= self@.packet());
        out
    }
}

/// What is built is parsed, with or without padding after it.
pub proof fn arp_round_trips(arp: ArpModel, padding: Seq<u8>)
    requires
        arp.wf(),
    ensures
        parsed(arp.packet() + padding) == Some(arp),
{
    let data = arp.packet() + padding;
    bytes::lemma_words_round_trip(arp.op, 0);
    assert(data.subrange(6, 8) =~= bytes::be16_bytes(arp.op));
    bytes::lemma_words_in_subrange(data, 6, 8, 0);
    assert(data.subrange(8, 14) =~= arp.sender_mac);
    assert(data.subrange(14, 18) =~= arp.sender_ip);
    assert(data.subrange(18, 24) =~= arp.target_mac);
    assert(data.subrange(24, 28) =~= arp.target_ip);
}

} // verus!
