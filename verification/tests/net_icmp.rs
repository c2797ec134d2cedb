use rustypi::net::icmp::{Echo, ECHO_REQUEST};

#[test]
fn echoes_round_trip_with_their_checksum() {
    let echo = Echo { kind: ECHO_REQUEST, id: 0x1234, seq: 7, data: b"abc" };
    let bytes = echo.to_bytes();
    assert_eq!(Echo::parse(&bytes), Some(echo));
    let mut corrupt = bytes.clone();
    corrupt[9] ^= 0xFF;
    assert_eq!(Echo::parse(&corrupt), None);
    let mut unreachable = bytes;
    unreachable[0] = 3;
    assert_eq!(Echo::parse(&unreachable), None);
}
