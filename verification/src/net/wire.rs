//! Frames and packets as they go over the wire, byte by byte: what other hosts send, and what is
//! sent to them.

use super::arp;
use super::ethernet;
use super::icmp;
use super::interface;
use super::interface::{ConfigModel, InterfaceModel, WaitingModel};
use super::ipv4;
use super::sntp;
use super::udp;
use crate::bytes;
use vstd::prelude::*;

verus! {

/// The bytes of `data` counted as 16-bit words, the first byte of each as its high one.
pub open spec fn total(data: Seq<u8>) -> int
    decreases data.len(),
{
    if data.len() == 0 {
        0
    } else if data.len() % 2 == 1 {
        total(data.drop_last()) + 256 * data.last()
    } else {
        total(data.drop_last()) + data.last()
    }
}

proof fn lemma_total(data: Seq<u8>, from: int)
    requires
        0 <= from <= data.len(),
        from % 2 == 0,
    ensures
        super::word_sum(data, from) == total(data) - total(data.subrange(0, from)),
        total(data) >= 0,
    decreases data.len() - from,
{
    lemma_total_positive(data);
    if from >= data.len() {
        assert(data.subrange(0, from) =~= data);
    } else if from + 1 == data.len() {
        assert(data.drop_last() =~= data.subrange(0, from));
    } else {
        lemma_total(data, from + 2);
        let two = data.subrange(0, from + 2);
        let one = data.subrange(0, from + 1);
        assert(two.drop_last() =~= one);
        assert(one.drop_last() =~= data.subrange(0, from));
        assert(two.last() == data[from + 1] && one.last() == data[from]);
        assert(two.len() % 2 == 0 && one.len() % 2 == 1);
        assert(total(two) == total(one) + data[from + 1]);
        assert(total(one) == total(data.subrange(0, from)) + 256 * data[from]);
        assert(bytes::be16(data, from) == 256 * data[from] + data[from + 1]);
    }
}

proof fn lemma_total_positive(data: Seq<u8>)
    ensures
        total(data) >= 0,
        data.len() > 0 && data[0] > 0 ==> total(data) > 0,
    decreases data.len(),
{
    if data.len() > 0 {
        lemma_total_positive(data.drop_last());
    }
}

/// Checksums are right when all words, the checksum among them, add up to a multiple of 0xFFFF.
proof fn lemma_checks(data: Seq<u8>, extra: nat)
    requires
        extra + total(data) > 0,
    ensures
        (super::checksum_of((extra + super::word_sum(data, 0)) as nat) == 0) == ((extra + total(
            data,
        )) % 0xFFFF == 0),
{
    lemma_total(data, 0);
    assert(data.subrange(0, 0) =~= Seq::<u8>::empty());
    let s = extra + total(data);
    assert((s - 1) % 0xFFFF == 0xFFFE <==> s % 0xFFFF == 0);
}

/// A packet as any host may send it: with options or without, whatever its type of service,
/// identification and time to live, and possibly a fragment.
pub struct WirePacket {
    pub service: u8,
    pub id: u16,
    /// The flags (don't fragment is bit 14, more fragments bit 13) and the fragment's offset.
    pub fragment: u16,
    pub ttl: u8,
    pub protocol: u8,
    pub check: u16,
    pub src: Seq<u8>,
    pub dst: Seq<u8>,
    pub options: Seq<u8>,
    pub payload: Seq<u8>,
}

impl WirePacket {
    pub open spec fn valid(self) -> bool {
        &&& self.src.len() == 4
        &&& self.dst.len() == 4
        &&& self.options.len() <= 40
        &&& self.options.len() % 4 == 0
        &&& 20 + self.options.len() + self.payload.len() <= 0xFFFF
    }

    pub open spec fn header(self) -> Seq<u8> {
        seq![(69 + self.options.len() / 4) as u8, self.service] + bytes::be16_bytes(
            (20 + self.options.len() + self.payload.len()) as u16,
        ) + bytes::be16_bytes(self.id) + bytes::be16_bytes(self.fragment) + seq![
            self.ttl,
            self.protocol,
        ] + bytes::be16_bytes(self.check) + self.src + self.dst + self.options
    }

    pub open spec fn spelled(self) -> Seq<u8> {
        self.header() + self.payload
    }
}

/// A packet that any host sends is taken whole, options or not and padded or not, if its header
/// adds up; a fragment is not, be it the first, the last or between.
#[verifier::rlimit(40)]
#[verifier::spinoff_prover]
pub proof fn packets_arrive(packet: WirePacket, padding: Seq<u8>)
    requires
        packet.valid(),
    ensures
        ipv4::parsed(packet.spelled() + padding) == (if packet.fragment % 0x4000 == 0 && total(
            packet.header(),
        ) % 0xFFFF == 0 {
            Some(
                ipv4::PacketModel {
                    src: packet.src,
                    dst: packet.dst,
                    protocol: packet.protocol,
                    payload: packet.payload,
                },
            )
        } else {
            None
        }),
{
    let header = packet.header();
    let data = packet.spelled() + padding;
    let n = header.len() as int;
    let length = (20 + packet.options.len() + packet.payload.len()) as u16;
    let lengths = bytes::be16_bytes(length);
    let ids = bytes::be16_bytes(packet.id);
    let flags = bytes::be16_bytes(packet.fragment);
    let checks = bytes::be16_bytes(packet.check);
    let first = (69 + packet.options.len() / 4) as u8;
    let fixed = seq![
        first,
        packet.service,
        lengths[0],
        lengths[1],
        ids[0],
        ids[1],
        flags[0],
        flags[1],
        packet.ttl,
        packet.protocol,
        checks[0],
        checks[1],
    ];
    assert(header =~= fixed + (packet.src + packet.dst + packet.options));
    assert(data =~= fixed + (packet.src + packet.dst + packet.options + packet.payload + padding));
    assert(data.subrange(0, n) =~= header);
    lemma_total_positive(header);
    assert(header[0] == first);
    lemma_checks(header, 0);
    assert(0 + super::word_sum(header, 0) == super::word_sum(header, 0));
    assert(data.subrange(2, 4) =~= lengths);
    assert(data.subrange(6, 8) =~= flags);
    bytes::lemma_stands_words(data, 2, length, 0);
    bytes::lemma_stands_words(data, 6, packet.fragment, 0);
    assert(data[0] as int % 16 * 4 == n);
    assert(data[9] == packet.protocol);
    assert(data.subrange(12, 16) =~= packet.src);
    assert(data.subrange(16, 20) =~= packet.dst);
    assert(data.subrange(n, length as int) =~= packet.payload);
}

/// What is sent is an unfragmented packet without options, with a time to live of 64 and a
/// header that adds up.
#[verifier::rlimit(40)]
#[verifier::spinoff_prover]
pub proof fn packets_are_sent(
    src: Seq<u8>,
    dst: Seq<u8>,
    protocol: u8,
    id: u16,
    payload: Seq<u8>,
) -> (check: u16)
    requires
        src.len() == 4,
        dst.len() == 4,
        20 + payload.len() <= 0xFFFF,
    ensures
        ({
            let packet = WirePacket {
                service: 0,
                id,
                fragment: 0x4000,
                ttl: 64,
                protocol,
                check,
                src,
                dst,
                options: Seq::empty(),
                payload,
            };
            &&& ipv4::built(src, dst, protocol, id, payload) == packet.spelled()
            &&& total(packet.header()) % 0xFFFF == 0
        }),
{
    let length = (20 + payload.len()) as u16;
    let bare = ipv4::bare_header(src, dst, protocol, id, length);
    let check = super::checksum_of(super::word_sum(bare, 0));
    let packet = WirePacket {
        service: 0,
        id,
        fragment: 0x4000,
        ttl: 64,
        protocol,
        check,
        src,
        dst,
        options: Seq::empty(),
        payload,
    };
    let header = ipv4::header_of(src, dst, protocol, id, length);
    assert(header =~= packet.header());
    super::checksummed_data_sums_to_zero(bare, 10, 0);
    assert(0 + super::word_sum(bare, 0) == super::word_sum(bare, 0));
    lemma_total_positive(header);
    assert(header[0] == 69);
    lemma_checks(header, 0);
    check
}

/// A datagram as it stands in a packet.
pub open spec fn wire_datagram(
    src_port: u16,
    dst_port: u16,
    check: u16,
    payload: Seq<u8>,
) -> Seq<u8> {
    bytes::be16_bytes(src_port) + bytes::be16_bytes(dst_port) + bytes::be16_bytes(
        (8 + payload.len()) as u16,
    ) + bytes::be16_bytes(check) + payload
}

/// What a datagram's checksum is taken over adds up to: the addresses, the protocol's number
/// (17), the length, and the datagram.
pub open spec fn datagram_total(src: Seq<u8>, dst: Seq<u8>, datagram: Seq<u8>) -> int {
    total(src) + total(dst) + 17 + datagram.len() + total(datagram)
}

proof fn lemma_datagram_total(src: Seq<u8>, dst: Seq<u8>, datagram: Seq<u8>)
    ensures
        (super::checksum_of(
            (udp::pseudo_header(src, dst, datagram.len()) + super::word_sum(datagram, 0)) as nat,
        ) == 0) == (datagram_total(src, dst, datagram) % 0xFFFF == 0),
{
    lemma_total(src, 0);
    lemma_total(dst, 0);
    lemma_total(datagram, 0);
    assert(src.subrange(0, 0) =~= Seq::<u8>::empty());
    assert(dst.subrange(0, 0) =~= Seq::<u8>::empty());
    lemma_checks(datagram, udp::pseudo_header(src, dst, datagram.len()));
}

/// A datagram that any host sends is taken if it adds up, or has no checksum (0).
#[verifier::rlimit(40)]
#[verifier::spinoff_prover]
pub proof fn datagrams_arrive(
    src: Seq<u8>,
    dst: Seq<u8>,
    src_port: u16,
    dst_port: u16,
    check: u16,
    payload: Seq<u8>,
    padding: Seq<u8>,
)
    requires
        8 + payload.len() <= 0xFFFF,
    ensures
        ({
            let datagram = wire_datagram(src_port, dst_port, check, payload);
            udp::parsed(datagram + padding, src, dst) == (if check == 0 || datagram_total(
                src,
                dst,
                datagram,
            ) % 0xFFFF == 0 {
                Some(udp::DatagramModel { src_port, dst_port, payload })
            } else {
                None
            })
        }),
{
    let datagram = wire_datagram(src_port, dst_port, check, payload);
    let data = datagram + padding;
    let length = (8 + payload.len()) as u16;
    assert(data.subrange(0, 2) =~= bytes::be16_bytes(src_port));
    assert(data.subrange(2, 4) =~= bytes::be16_bytes(dst_port));
    assert(data.subrange(4, 6) =~= bytes::be16_bytes(length));
    assert(data.subrange(6, 8) =~= bytes::be16_bytes(check));
    bytes::lemma_stands_words(data, 0, src_port, 0);
    bytes::lemma_stands_words(data, 2, dst_port, 0);
    bytes::lemma_stands_words(data, 4, length, 0);
    bytes::lemma_stands_words(data, 6, check, 0);
    assert(data.subrange(0, length as int) =~= datagram);
    assert(data.subrange(8, length as int) =~= payload);
    lemma_datagram_total(src, dst, datagram);
}

/// A datagram is sent with a checksum, and adds up.
#[verifier::rlimit(40)]
#[verifier::spinoff_prover]
pub proof fn datagrams_are_sent(
    src: Seq<u8>,
    src_port: u16,
    dst: Seq<u8>,
    dst_port: u16,
    payload: Seq<u8>,
) -> (check: u16)
    requires
        8 + payload.len() <= 0xFFFF,
    ensures
        udp::built(src, src_port, dst, dst_port, payload) == wire_datagram(
            src_port,
            dst_port,
            check,
            payload,
        ),
        check != 0,
        datagram_total(src, dst, wire_datagram(src_port, dst_port, check, payload)) % 0xFFFF == 0,
{
    let plain = udp::bare(src_port, dst_port, payload);
    let check = udp::sent_checksum(src, dst, plain);
    let whole = udp::built(src, src_port, dst, dst_port, payload);
    assert(whole =~= wire_datagram(src_port, dst_port, check, payload));
    super::checksummed_data_sums_to_zero(plain, 6, udp::pseudo_header(src, dst, plain.len()));
    lemma_datagram_total(src, dst, whole);
    check
}

/// An echo message as it stands in a packet.
pub open spec fn wire_echo(
    kind: u8,
    code: u8,
    check: u16,
    id: u16,
    seq: u16,
    data: Seq<u8>,
) -> Seq<u8> {
    seq![kind, code] + bytes::be16_bytes(check) + bytes::be16_bytes(id) + bytes::be16_bytes(seq)
        + data
}

/// An echo request (type 8) or reply (type 0) that any host sends is taken if it adds up; other
/// messages are not.
#[verifier::rlimit(40)]
#[verifier::spinoff_prover]
pub proof fn echoes_arrive(kind: u8, code: u8, check: u16, id: u16, seq: u16, data: Seq<u8>)
    requires
        kind > 0 || check > 0,
    ensures
        ({
            let message = wire_echo(kind, code, check, id, seq, data);
            icmp::parsed(message) == (if (kind == 8 || kind == 0) && code == 0 && total(message)
                % 0xFFFF == 0 {
                Some(icmp::EchoModel { kind, id, seq, data })
            } else {
                None
            })
        }),
{
    let message = wire_echo(kind, code, check, id, seq, data);
    assert(message.subrange(2, 4) =~= bytes::be16_bytes(check));
    assert(message.subrange(4, 6) =~= bytes::be16_bytes(id));
    assert(message.subrange(6, 8) =~= bytes::be16_bytes(seq));
    bytes::lemma_stands_words(message, 2, check, 0);
    bytes::lemma_stands_words(message, 4, id, 0);
    bytes::lemma_stands_words(message, 6, seq, 0);
    assert(message.subrange(8, 0int + message.len()) =~= data);
    lemma_total_positive(message);
    assert(message[0] == kind && message[1] == code);
    if kind == 0 {
        lemma_total(message, 0);
        assert(message.subrange(0, 0) =~= Seq::<u8>::empty());
        assert(super::word_sum(message, 0) >= super::word_sum(message, 2)) by {
            reveal_with_fuel(super::word_sum, 2);
        }
        assert(super::word_sum(message, 2) >= check) by {
            reveal_with_fuel(super::word_sum, 2);
        }
    }
    lemma_checks(message, 0);
    assert(0 + super::word_sum(message, 0) == super::word_sum(message, 0));
}

/// An echo message is sent with code 0, and adds up.
#[verifier::rlimit(40)]
#[verifier::spinoff_prover]
pub proof fn echoes_are_sent(echo: icmp::EchoModel) -> (check: u16)
    requires
        echo.kind == 8 || echo.kind == 0,
    ensures
        ({
            let message = wire_echo(echo.kind, 0, check, echo.id, echo.seq, echo.data);
            &&& echo.message() == message
            &&& total(message) % 0xFFFF == 0
        }),
{
    let bare = echo.bare();
    let check = super::checksum_of(super::word_sum(bare, 0));
    let message = wire_echo(echo.kind, 0, check, echo.id, echo.seq, echo.data);
    assert(echo.message() =~= message);
    super::checksummed_data_sums_to_zero(bare, 2, 0);
    assert(0 + super::word_sum(bare, 0) == super::word_sum(bare, 0));
    assert(0 + super::word_sum(message, 0) == super::word_sum(message, 0));
    lemma_total_positive(message);
    if total(message) > 0 {
        lemma_checks(message, 0);
    }
    check
}

/// A frame as it goes over the wire: whom it is for, who sent it, what it carries (the high byte
/// first), and that, with zeros after it up to 60 bytes.
pub open spec fn wire_frame(to: Seq<u8>, from: Seq<u8>, carries: Seq<u8>, payload: Seq<u8>) -> Seq<
    u8,
> {
    let frame = to + from + carries + payload;
    frame + Seq::new(
        (if frame.len() < 60 {
            60 - frame.len()
        } else {
            0
        }) as nat,
        |i: int| 0u8,
    )
}

/// Frames are sent as they go over the wire.
pub proof fn frames_are_sent(to: Seq<u8>, from: Seq<u8>, kind: u16, payload: Seq<u8>)
    ensures
        ethernet::built(to, from, kind, payload) == wire_frame(
            to,
            from,
            seq![(kind / 256) as u8, (kind % 256) as u8],
            payload,
        ),
{
    assert(ethernet::built(to, from, kind, payload) =~= wire_frame(
        to,
        from,
        seq![(kind / 256) as u8, (kind % 256) as u8],
        payload,
    ));
}

/// Any frame is taken apart the same way.
pub proof fn frames_arrive(to: Seq<u8>, from: Seq<u8>, high: u8, low: u8, payload: Seq<u8>)
    requires
        to.len() == 6,
        from.len() == 6,
    ensures
        ethernet::parsed(to + from + seq![high, low] + payload) == Some(
            ethernet::FrameModel {
                dst: to,
                src: from,
                ethertype: (high * 256 + low) as u16,
                payload,
            },
        ),
{
    let data = to + from + seq![high, low] + payload;
    assert(data.subrange(0, 6) =~= to);
    assert(data.subrange(6, 12) =~= from);
    assert(data[12] == high && data[13] == low);
    assert(data.subrange(14, data.len() as int) =~= payload);
}

/// An ARP packet for IPv4 over Ethernet, as it goes over the wire: operation 1 asks, 2 answers.
pub open spec fn wire_arp(
    op: u8,
    sender_mac: Seq<u8>,
    sender_ip: Seq<u8>,
    target_mac: Seq<u8>,
    target_ip: Seq<u8>,
) -> Seq<u8> {
    seq![0u8, 1, 8, 0, 6, 4, 0, op] + sender_mac + sender_ip + target_mac + target_ip
}

/// ARP packets are taken apart as other hosts put them together.
pub proof fn arp_arrives(
    op: u8,
    sender_mac: Seq<u8>,
    sender_ip: Seq<u8>,
    target_mac: Seq<u8>,
    target_ip: Seq<u8>,
    padding: Seq<u8>,
)
    requires
        sender_mac.len() == 6,
        sender_ip.len() == 4,
        target_mac.len() == 6,
        target_ip.len() == 4,
    ensures
        ({
            let heard = arp::ArpModel {
                op: op as u16,
                sender_mac,
                sender_ip,
                target_mac,
                target_ip,
            };
            let packet = wire_arp(op, sender_mac, sender_ip, target_mac, target_ip);
            &&& arp::parsed(packet + padding) == Some(heard)
            &&& heard.packet() == packet
        }),
{
    let heard = arp::ArpModel { op: op as u16, sender_mac, sender_ip, target_mac, target_ip };
    let packet = wire_arp(op, sender_mac, sender_ip, target_mac, target_ip);
    assert(heard.packet() =~= packet);
    arp::arp_round_trips(heard, padding);
}

/// Whether two addresses have the same bits wherever the netmask has a one.
pub open spec fn same_network(a: Seq<u8>, b: Seq<u8>, netmask: Seq<u8>) -> bool {
    forall|i: int| 0 <= i < 4 ==> #[trigger] a[i] & netmask[i] == b[i] & netmask[i]
}

#[verifier::rlimit(40)]
#[verifier::spinoff_prover]
pub proof fn lemma_same_network(a: Seq<u8>, b: Seq<u8>, netmask: Seq<u8>)
    requires
        a.len() == 4,
        b.len() == 4,
        netmask.len() == 4,
    ensures
        super::on_same_network(a, b, netmask) == same_network(a, b, netmask),
{
    let (a0, a1, a2, a3) = (a[0], a[1], a[2], a[3]);
    let (b0, b1, b2, b3) = (b[0], b[1], b[2], b[3]);
    let (m0, m1, m2, m3) = (netmask[0], netmask[1], netmask[2], netmask[3]);
    let x = bytes::be32(a, 0);
    let y = bytes::be32(b, 0);
    let m = bytes::be32(netmask, 0);
    assert(a =~= seq![a0, a1, a2, a3]);
    assert(b =~= seq![b0, b1, b2, b3]);
    assert(netmask =~= seq![m0, m1, m2, m3]);
    bytes::first_byte_counts_least_or_most(a0, a1, a2, a3);
    bytes::first_byte_counts_least_or_most(b0, b1, b2, b3);
    bytes::first_byte_counts_least_or_most(m0, m1, m2, m3);
    assert((x & m == y & m) == (a0 & m0 == b0 & m0 && a1 & m1 == b1 & m1 && a2 & m2 == b2 & m2 && a3
        & m3 == b3 & m3)) by (bit_vector)
        requires
            x == a0 * 16777216 + a1 * 65536 + a2 * 256 + a3,
            y == b0 * 16777216 + b1 * 65536 + b2 * 256 + b3,
            m == m0 * 16777216 + m1 * 65536 + m2 * 256 + m3,
    ;
    if same_network(a, b, netmask) {
        assert(a[0] & netmask[0] == b[0] & netmask[0]);
        assert(a[1] & netmask[1] == b[1] & netmask[1]);
        assert(a[2] & netmask[2] == b[2] & netmask[2]);
        assert(a[3] & netmask[3] == b[3] & netmask[3]);
    }
}

/// A packet to a host on our network goes straight there, one to another host to the gateway; in
/// a frame to the MAC address that was last heard for that next hop, from ours. Where none was
/// heard, everyone is asked who has the next hop's address, and the packet waits, in
/// place of an older one.
#[verifier::rlimit(40)]
#[verifier::spinoff_prover]
pub proof fn packets_go_to_the_next_hop(
    m: InterfaceModel,
    config: ConfigModel,
    dst: Seq<u8>,
    protocol: u8,
    payload: Seq<u8>,
    now: u64,
    hop: Seq<u8>,
    i: int,
)
    requires
        m.config == Some(config),
        config.address.len() == 4,
        config.netmask.len() == 4,
        dst.len() == 4,
        same_network(dst, config.address, config.netmask) ==> hop == dst,
        !same_network(dst, config.address, config.netmask) ==> config.gateway == Some(hop),
    ensures
        ({
            let (after, sent) = m.sent_ip(dst, protocol, payload, now);
            let id = ((m.last_id + 1) % 65536) as u16;
            let packet = ipv4::built(config.address, dst, protocol, id, payload);
            &&& 0 <= i < m.arp.len() && m.arp[i].0 == hop && (forall|j: int|
                i < j < m.arp.len() ==> (#[trigger] m.arp[j]).0 != hop) ==> sent == seq![
                wire_frame(m.arp[i].1, m.mac, seq![8u8, 0], packet),
            ]
            &&& (forall|j: int| 0 <= j < m.arp.len() ==> (#[trigger] m.arp[j]).0 != hop) ==> {
                &&& sent == seq![
                    wire_frame(
                        seq![255u8, 255, 255, 255, 255, 255],
                        m.mac,
                        seq![8u8, 6],
                        wire_arp(1, m.mac, config.address, seq![0u8, 0, 0, 0, 0, 0], hop),
                    ),
                ]
                &&& after.waiting.len() > 0
                &&& after.waiting.last() == (WaitingModel {
                    next_hop: hop,
                    packet,
                    queued_at: now,
                    asked_at: now,
                })
                &&& forall|k: int|
                    0 <= k < after.waiting.len() - 1 ==> (#[trigger] after.waiting[k]).next_hop
                        != hop
            }
        }),
{
    lemma_same_network(dst, config.address, config.netmask);
    let id = ((m.last_id + 1) % 65536) as u16;
    let packet = ipv4::built(config.address, dst, protocol, id, payload);
    assert(m.next_hop(dst) == Some(hop));
    if 0 <= i < m.arp.len() && m.arp[i].0 == hop && (forall|j: int|
        i < j < m.arp.len() ==> (#[trigger] m.arp[j]).0 != hop) {
        lemma_known(m.arp, hop, i);
        frames_are_sent(m.arp[i].1, m.mac, 0x0800, packet);
    }
    if forall|j: int| 0 <= j < m.arp.len() ==> (#[trigger] m.arp[j]).0 != hop {
        lemma_unknown(m.arp, hop);
        let nobody = seq![0u8, 0, 0, 0, 0, 0];
        frames_are_sent(
            super::broadcast_mac(),
            m.mac,
            0x0806,
            wire_arp(1, m.mac, config.address, nobody, hop),
        );
        let request = arp::ArpModel {
            op: 1,
            sender_mac: m.mac,
            sender_ip: config.address,
            target_mac: nobody,
            target_ip: hop,
        };
        assert(request.packet() =~= wire_arp(1, m.mac, config.address, nobody, hop));
        broadcast use vstd::seq_lib::group_filter_ensures;

    }
}

pub proof fn lemma_known(neighbours: Seq<(Seq<u8>, Seq<u8>)>, ip: Seq<u8>, i: int)
    requires
        0 <= i < neighbours.len(),
        neighbours[i].0 == ip,
        forall|j: int| i < j < neighbours.len() ==> (#[trigger] neighbours[j]).0 != ip,
    ensures
        interface::known_mac(neighbours, ip) == Some(neighbours[i].1),
    decreases neighbours.len(),
{
    if i < neighbours.len() - 1 {
        assert(neighbours[neighbours.len() - 1].0 != ip);
        lemma_known(neighbours.drop_last(), ip, i);
    }
}

proof fn lemma_unknown(neighbours: Seq<(Seq<u8>, Seq<u8>)>, ip: Seq<u8>)
    requires
        forall|j: int| 0 <= j < neighbours.len() ==> (#[trigger] neighbours[j]).0 != ip,
    ensures
        interface::known_mac(neighbours, ip) is None,
    decreases neighbours.len(),
{
    if neighbours.len() > 0 {
        assert(neighbours[neighbours.len() - 1].0 != ip);
        lemma_unknown(neighbours.drop_last(), ip);
    }
}

/// A time server's answer: mode 4, a stratum other than 0, our cookie copied back, and its time
/// in seconds since 1900 and 2^32nds of a second. It gives the time in microseconds since 1970,
/// moved on by half the round trip. Other modes, a stratum of 0, another cookie or a time before
/// 1970 give nothing.
#[verifier::rlimit(40)]
#[verifier::spinoff_prover]
pub proof fn time_is_told(
    mode: u8,
    stratum: u8,
    unused: Seq<u8>,
    copied: u64,
    received: Seq<u8>,
    seconds: u32,
    fraction: u32,
    past: Seq<u8>,
    cookie: u64,
    round_trip_us: u64,
)
    requires
        unused.len() == 22,
        received.len() == 8,
    ensures
        ({
            let data = seq![mode, stratum] + unused + bytes::be64_bytes(copied) + received
                + bytes::be32_bytes(seconds) + bytes::be32_bytes(fraction) + past;
            let whole = (seconds - 2_208_988_800) * 1_000_000;
            sntp::parsed(data, cookie, round_trip_us) == (if mode % 8 == 4 && stratum != 0 && copied
                == cookie && seconds >= 2_208_988_800 {
                Some(
                    (whole + fraction * 1_000_000 / 0x1_0000_0000 + round_trip_us / 2) as u64,
                )
            } else {
                None
            })
        }),
{
    let data = seq![mode, stratum] + unused + bytes::be64_bytes(copied) + received
        + bytes::be32_bytes(seconds) + bytes::be32_bytes(fraction) + past;
    assert(data.subrange(24, 32) =~= bytes::be64_bytes(copied));
    assert(data.subrange(40, 44) =~= bytes::be32_bytes(seconds));
    assert(data.subrange(44, 48) =~= bytes::be32_bytes(fraction));
    bytes::lemma_stands_words(data, 40, 0, seconds);
    bytes::lemma_stands_words(data, 44, 0, fraction);
    assert(data[0] == mode && data[1] == stratum);
    if bytes::be64_bytes(copied) == bytes::be64_bytes(cookie) {
        lemma_long_words(copied, cookie);
    }
}

#[verifier::rlimit(40)]
#[verifier::spinoff_prover]
proof fn lemma_long_words(a: u64, b: u64)
    requires
        bytes::be64_bytes(a) == bytes::be64_bytes(b),
    ensures
        a == b,
{
    let (ah, al) = ((a / 0x1_0000_0000) as u32, (a % 0x1_0000_0000) as u32);
    let (bh, bl) = ((b / 0x1_0000_0000) as u32, (b % 0x1_0000_0000) as u32);
    bytes::lemma_words_round_trip(0, ah);
    bytes::lemma_words_round_trip(0, al);
    bytes::lemma_words_round_trip(0, bh);
    bytes::lemma_words_round_trip(0, bl);
    assert(bytes::be64_bytes(a).subrange(0, 4) =~= bytes::be32_bytes(ah));
    assert(bytes::be64_bytes(a).subrange(4, 8) =~= bytes::be32_bytes(al));
    assert(bytes::be64_bytes(b).subrange(0, 4) =~= bytes::be32_bytes(bh));
    assert(bytes::be64_bytes(b).subrange(4, 8) =~= bytes::be32_bytes(bl));
    assert(ah == bh && al == bl);
    assert(a == ah * 0x1_0000_0000 + al && b == bh * 0x1_0000_0000 + bl);
}

} // verus!
