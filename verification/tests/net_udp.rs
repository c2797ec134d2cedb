use rustypi::net::udp::{build, parse, Datagram};
use rustypi::net::Ipv4;

const A: Ipv4 = Ipv4([192, 168, 1, 2]);
const B: Ipv4 = Ipv4([192, 168, 1, 3]);

#[test]
fn datagrams_round_trip_and_bad_checksums_are_refused() {
    let datagram = build(A, 68, B, 67, b"payload");
    assert_eq!(parse(&datagram, A, B), Some(Datagram { src_port: 68, dst_port: 67, payload: b"payload" }));
    // The pseudo-header counts: the same bytes between other addresses don't check out.
    assert_eq!(parse(&datagram, A, Ipv4([192, 168, 1, 4])), None);
    let mut unchecked = datagram.clone();
    unchecked[6..8].fill(0);
    unchecked[8] ^= 1;
    assert!(parse(&unchecked, A, B).is_some());
    assert_eq!(parse(&datagram[..7], A, B), None);
}
