use rustypi::net::ipv4::{build, parse, ICMP, UDP};
use rustypi::net::{checksum, Ipv4};

const A: Ipv4 = Ipv4([10, 0, 0, 1]);
const B: Ipv4 = Ipv4([10, 0, 0, 2]);

#[test]
fn packets_round_trip_and_ignore_trailing_padding() {
    let mut packet = build(A, B, UDP, 7, b"hi");
    packet.extend_from_slice(&[0; 10]); // Ethernet padding
    let parsed = parse(&packet).unwrap();
    assert_eq!((parsed.src, parsed.dst, parsed.protocol, parsed.payload), (A, B, UDP, &b"hi"[..]));
}

#[test]
fn broken_or_fragmented_packets_are_refused() {
    let packet = build(A, B, ICMP, 1, b"data");
    let mut corrupt = packet.clone();
    corrupt[15] ^= 1;
    assert_eq!(parse(&corrupt), None);
    assert_eq!(parse(&packet[..22]), None); // shorter than it says
    let mut fragment = packet.clone();
    fragment[6] = 0x20; // more fragments
    fragment[10..12].fill(0);
    let sum = checksum(&fragment[..20]).to_be_bytes();
    fragment[10..12].copy_from_slice(&sum);
    assert_eq!(parse(&fragment), None);
    let mut ipv6 = packet;
    ipv6[0] = 0x60;
    assert_eq!(parse(&ipv6), None);
}
