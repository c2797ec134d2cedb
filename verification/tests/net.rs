use rustypi::net::{checksum, Ipv4, Mac};

#[test]
fn addresses_parse_and_print() {
    assert_eq!(Ipv4::parse("192.168.1.10"), Some(Ipv4([192, 168, 1, 10])));
    for bad in ["", "1.2.3", "1.2.3.4.5", "256.1.1.1", "1..2.3", "a.b.c.d", "1.2.3.-4", "01234.1.1.1"] {
        assert_eq!(Ipv4::parse(bad), None, "{bad}");
    }
    assert_eq!(Ipv4([10, 0, 0, 1]).to_string(), "10.0.0.1");
    assert_eq!(Mac([0xB8, 0x27, 0xEB, 1, 2, 0xAB]).to_string(), "b8:27:eb:01:02:ab");
}

#[test]
fn networks_compare_under_the_netmask() {
    let mask = Ipv4([255, 255, 255, 0]);
    assert!(Ipv4([192, 168, 1, 10]).same_network(Ipv4([192, 168, 1, 200]), mask));
    assert!(!Ipv4([192, 168, 1, 10]).same_network(Ipv4([192, 168, 2, 10]), mask));
}

#[test]
fn checksums_match_rfc_1071() {
    // RFC 1071's example words sum to 0xDDF2, so the checksum is its complement.
    assert_eq!(checksum(&[0x00, 0x01, 0xF2, 0x03, 0xF4, 0xF5, 0xF6, 0xF7]), !0xDDF2);
    // An odd length pads with a zero byte.
    assert_eq!(checksum(&[0xAB]), !0xAB00);
    // Data including its correct checksum sums to 0.
    let mut header = [0x45, 0x00, 0x00, 0x1C, 0, 0, 0x40, 0, 64, 1, 0, 0, 10, 0, 0, 1, 10, 0, 0, 2];
    let sum = checksum(&header).to_be_bytes();
    header[10..12].copy_from_slice(&sum);
    assert_eq!(checksum(&header), 0);
}
