use rustypi::net::ethernet::{build, parse, ARP};
use rustypi::net::Mac;

#[test]
fn frames_round_trip_and_short_ones_are_padded() {
    let frame = build(Mac::broadcast(), Mac([2, 0, 0, 0, 0, 1]), ARP, &[1, 2, 3]);
    assert_eq!(frame.len(), 60);
    let parsed = parse(&frame).unwrap();
    assert_eq!((parsed.dst, parsed.src, parsed.ethertype), (Mac::broadcast(), Mac([2, 0, 0, 0, 0, 1]), ARP));
    assert_eq!(&parsed.payload[..3], &[1, 2, 3]);
    assert_eq!(parse(&frame[..13]), None);
}
