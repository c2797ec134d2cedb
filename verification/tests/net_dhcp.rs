use rustypi::net::dhcp::{
    discover, parse_reply, request, Kind, DNS, END, FIXED, LEASE_TIME, MESSAGE_TYPE, MIN_LENGTH, PAD,
    REQUESTED_IP, ROUTER, SERVER_ID, SUBNET_MASK,
};
use rustypi::net::{Ipv4, Mac};

const MAGIC: [u8; 4] = [99, 130, 83, 99];

const CLIENT: Mac = Mac([0xB8, 0x27, 0xEB, 1, 2, 3]);

/// A server's answer, as a router would send it.
fn server_reply(kind: u8, xid: u32, mac: Mac, address: Ipv4) -> Vec<u8> {
    let mut bytes = vec![2, 1, 6, 0];
    bytes.extend_from_slice(&xid.to_be_bytes());
    bytes.extend_from_slice(&[0; 8]);
    bytes.extend_from_slice(&address.0);
    bytes.extend_from_slice(&[192, 168, 1, 1, 0, 0, 0, 0]);
    bytes.extend_from_slice(&mac.0);
    bytes.resize(FIXED, 0);
    bytes.extend_from_slice(&MAGIC);
    bytes.extend_from_slice(&[MESSAGE_TYPE, 1, kind, PAD]);
    bytes.extend_from_slice(&[SERVER_ID, 4, 192, 168, 1, 1]);
    bytes.extend_from_slice(&[SUBNET_MASK, 4, 255, 255, 255, 0]);
    bytes.extend_from_slice(&[ROUTER, 4, 192, 168, 1, 1]);
    bytes.extend_from_slice(&[DNS, 8, 1, 1, 1, 1, 8, 8, 8, 8]);
    bytes.extend_from_slice(&[LEASE_TIME, 4, 0, 1, 0x51, 0x80]); // a day
    bytes.push(END);
    bytes
}

#[test]
fn client_messages_carry_their_options() {
    let discover = discover(CLIENT, 0xDEADBEEF);
    assert!(discover.len() >= MIN_LENGTH);
    assert_eq!(&discover[4..8], &[0xDE, 0xAD, 0xBE, 0xEF]);
    assert_eq!(&discover[28..34], &CLIENT.0);
    assert_eq!(&discover[FIXED..FIXED + 7], &[99, 130, 83, 99, MESSAGE_TYPE, 1, 1]);
    let request = request(CLIENT, 1, Ipv4([192, 168, 1, 50]), Ipv4([192, 168, 1, 1]));
    let options = &request[FIXED + 7..];
    assert_eq!(&options[..12], &[REQUESTED_IP, 4, 192, 168, 1, 50, SERVER_ID, 4, 192, 168, 1, 1]);
}

#[test]
fn server_replies_parse() {
    let bytes = server_reply(5, 7, CLIENT, Ipv4([192, 168, 1, 50]));
    let reply = parse_reply(&bytes, 7, CLIENT).unwrap();
    assert_eq!(reply.kind, Kind::Ack);
    assert_eq!(reply.address, Ipv4([192, 168, 1, 50]));
    assert_eq!(reply.server, Some(Ipv4([192, 168, 1, 1])));
    assert_eq!(reply.netmask, Some(Ipv4([255, 255, 255, 0])));
    assert_eq!(reply.dns, Some(Ipv4([1, 1, 1, 1])));
    assert_eq!(reply.lease_secs, Some(86_400));
}

#[test]
fn replies_to_others_or_broken_ones_are_ignored() {
    let bytes = server_reply(2, 7, CLIENT, Ipv4([192, 168, 1, 50]));
    assert!(parse_reply(&bytes, 8, CLIENT).is_none()); // another transaction
    assert!(parse_reply(&bytes, 7, Mac([2; 6])).is_none()); // another client
    assert!(parse_reply(&bytes[..FIXED], 7, CLIENT).is_none());
    let mut cut = bytes.clone();
    cut.truncate(bytes.len() - 6); // an option runs off the end
    assert!(parse_reply(&cut, 7, CLIENT).is_none());
    let untyped = discover(CLIENT, 7); // a request, not a reply
    assert!(parse_reply(&untyped, 7, CLIENT).is_none());
}
