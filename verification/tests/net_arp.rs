use rustypi::net::arp::{Arp, REQUEST};
use rustypi::net::{Ipv4, Mac};

#[test]
fn arp_round_trips_and_other_kinds_are_refused() {
    let arp = Arp {
        op: REQUEST,
        sender_mac: Mac([2, 0, 0, 0, 0, 1]),
        sender_ip: Ipv4([10, 0, 0, 1]),
        target_mac: Mac::default(),
        target_ip: Ipv4([10, 0, 0, 2]),
    };
    let bytes = arp.to_bytes();
    assert_eq!(Arp::parse(&bytes), Some(arp));
    assert_eq!(Arp::parse(&bytes[..27]), None);
    let mut ipv6 = bytes;
    ipv6[2..4].copy_from_slice(&0x86DDu16.to_be_bytes());
    assert_eq!(Arp::parse(&ipv6), None);
}
