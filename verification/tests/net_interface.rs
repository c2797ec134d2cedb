use rustypi::net::arp::{self, Arp};
use rustypi::net::icmp::{self, Echo};
use rustypi::net::interface::{Event, Interface, ARP_GIVE_UP_US, ARP_RETRY_US, DHCP_RETRY_US};
use rustypi::net::{dhcp, ethernet, ipv4, udp, Ipv4, Mac};

const CLIENT: Mac = Mac([0xB8, 0x27, 0xEB, 1, 2, 3]);

/// A server's answer, as a router would send it.
fn server_reply(kind: u8, xid: u32, mac: Mac, address: Ipv4) -> Vec<u8> {
    let mut bytes = vec![2, 1, 6, 0];
    bytes.extend_from_slice(&xid.to_be_bytes());
    bytes.extend_from_slice(&[0; 8]);
    bytes.extend_from_slice(&address.0);
    bytes.extend_from_slice(&[192, 168, 1, 1, 0, 0, 0, 0]);
    bytes.extend_from_slice(&mac.0);
    bytes.resize(dhcp::FIXED, 0);
    bytes.extend_from_slice(&[99, 130, 83, 99]);
    bytes.extend_from_slice(&[dhcp::MESSAGE_TYPE, 1, kind, dhcp::PAD]);
    bytes.extend_from_slice(&[dhcp::SERVER_ID, 4, 192, 168, 1, 1]);
    bytes.extend_from_slice(&[dhcp::SUBNET_MASK, 4, 255, 255, 255, 0]);
    bytes.extend_from_slice(&[dhcp::ROUTER, 4, 192, 168, 1, 1]);
    bytes.extend_from_slice(&[dhcp::DNS, 8, 1, 1, 1, 1, 8, 8, 8, 8]);
    bytes.extend_from_slice(&[dhcp::LEASE_TIME, 4, 0, 1, 0x51, 0x80]); // a day
    bytes.push(dhcp::END);
    bytes
}

const ROUTER_MAC: Mac = Mac([0x02, 0x11, 0x22, 0x33, 0x44, 0x55]);
const ROUTER: Ipv4 = Ipv4([192, 168, 1, 1]);
const MAC_MAC: Mac = Mac([0x02, 0xAA, 0xBB, 0xCC, 0xDD, 0xEE]);
const THE_MAC: Ipv4 = Ipv4([192, 168, 1, 20]);
const OURS: Ipv4 = Ipv4([192, 168, 1, 50]);

/// The DHCP message inside a frame we sent, with its transaction ID.
fn dhcp_sent(frame: &[u8]) -> (u8, u32, Vec<u8>) {
    let frame = ethernet::parse(frame).unwrap();
    assert_eq!(frame.dst, Mac::broadcast());
    let packet = ipv4::parse(frame.payload).unwrap();
    assert_eq!((packet.src, packet.dst), (Ipv4::unspecified(), Ipv4::broadcast()));
    let datagram = udp::parse(packet.payload, packet.src, packet.dst).unwrap();
    assert_eq!((datagram.src_port, datagram.dst_port), (68, 67));
    let message = datagram.payload.to_vec();
    let xid = u32::from_be_bytes(message[4..8].try_into().unwrap());
    (message[242], xid, message)
}

/// A frame from the router carrying a DHCP answer.
fn from_router_dhcp(kind: u8, xid: u32) -> Vec<u8> {
    let message = server_reply(kind, xid, CLIENT, OURS);
    let datagram = udp::build(ROUTER, 67, Ipv4::broadcast(), 68, &message);
    let packet = ipv4::build(ROUTER, Ipv4::broadcast(), ipv4::UDP, 1, &datagram);
    ethernet::build(Mac::broadcast(), ROUTER_MAC, ethernet::IPV4, &packet)
}

/// An interface that has gone through DHCP and has `OURS`.
fn configured() -> Interface {
    let mut interface = Interface::new(CLIENT, 0x1234_5678);
    let (_, xid, _) = dhcp_sent(&interface.poll(0)[0]);
    interface.receive(&from_router_dhcp(2, xid), 10);
    interface.receive(&from_router_dhcp(5, xid), 20);
    interface.take_events();
    interface
}

#[test]
fn dhcp_discovers_requests_and_binds() {
    let mut interface = Interface::new(CLIENT, 0x1234_5678);
    let out = interface.poll(0);
    let (kind, xid, _) = dhcp_sent(&out[0]);
    assert_eq!(kind, 1); // DISCOVER
    // Nothing again until the retry is due.
    assert!(interface.poll(1_000_000).is_empty());
    assert_eq!(dhcp_sent(&interface.poll(DHCP_RETRY_US)[0]).0, 1);

    let out = interface.receive(&from_router_dhcp(2, xid), 5_000_000);
    let (kind, request_xid, message) = dhcp_sent(&out[0]);
    assert_eq!((kind, request_xid), (3, xid)); // REQUEST, same transaction
    assert!(message.windows(6).any(|w| w == [50, 4, 192, 168, 1, 50]));

    assert!(interface.receive(&from_router_dhcp(5, xid), 5_100_000).is_empty());
    let config = interface.config().unwrap();
    assert_eq!((config.address, config.gateway, config.netmask), (OURS, Some(ROUTER), Ipv4([255, 255, 255, 0])));
    assert_eq!(interface.take_events(), [Event::Configured(config)]);
}

#[test]
fn a_lease_is_renewed_halfway_and_lost_on_a_nak() {
    let mut interface = configured();
    // A day's lease: nothing until half of it.
    assert!(interface.poll(40_000_000_000).is_empty());
    let out = interface.poll(43_200_000_020);
    let (kind, xid, _) = dhcp_sent(&out[0]);
    assert_eq!(kind, 3);
    interface.receive(&from_router_dhcp(6, xid), 43_200_000_100);
    assert_eq!(interface.config(), None);
    assert_eq!(interface.take_events(), [Event::Unconfigured]);
    assert_eq!(dhcp_sent(&interface.poll(43_200_000_200)[0]).0, 1); // DISCOVER again
}

#[test]
fn unanswered_requests_start_over_with_a_discover() {
    let mut interface = Interface::new(CLIENT, 99);
    let (_, xid, _) = dhcp_sent(&interface.poll(0)[0]);
    interface.receive(&from_router_dhcp(2, xid), 0);
    let mut now = 0;
    let mut kinds = Vec::new();
    for _ in 0..4 {
        now += DHCP_RETRY_US;
        kinds.extend(interface.poll(now).iter().map(|frame| dhcp_sent(frame).0));
    }
    assert_eq!(kinds, [3, 3, 1, 1]);
}

#[test]
fn arp_requests_for_our_address_are_answered() {
    let mut interface = configured();
    let request = Arp { op: arp::REQUEST, sender_mac: MAC_MAC, sender_ip: THE_MAC, target_mac: Mac::default(), target_ip: OURS };
    let out = interface.receive(&ethernet::build(Mac::broadcast(), MAC_MAC, ethernet::ARP, &request.to_bytes()), 0);
    let frame = ethernet::parse(&out[0]).unwrap();
    assert_eq!((frame.dst, frame.ethertype), (MAC_MAC, ethernet::ARP));
    let reply = Arp::parse(frame.payload).unwrap();
    assert_eq!((reply.op, reply.sender_mac, reply.sender_ip, reply.target_ip), (arp::REPLY, CLIENT, OURS, THE_MAC));
    // For someone else's address, silence.
    let other = Arp { target_ip: Ipv4([192, 168, 1, 99]), ..request };
    assert!(interface.receive(&ethernet::build(Mac::broadcast(), MAC_MAC, ethernet::ARP, &other.to_bytes()), 0).is_empty());
}

#[test]
fn pings_to_us_are_answered() {
    let mut interface = configured();
    let echo = Echo { kind: icmp::ECHO_REQUEST, id: 7, seq: 3, data: b"hello" }.to_bytes();
    let packet = ipv4::build(THE_MAC, OURS, ipv4::ICMP, 1, &echo);
    let out = interface.receive(&ethernet::build(CLIENT, MAC_MAC, ethernet::IPV4, &packet), 0);
    let frame = ethernet::parse(&out[0]).unwrap();
    assert_eq!(frame.dst, MAC_MAC);
    let reply = ipv4::parse(frame.payload).unwrap();
    assert_eq!((reply.src, reply.dst), (OURS, THE_MAC));
    assert_eq!(Echo::parse(reply.payload), Some(Echo { kind: icmp::ECHO_REPLY, id: 7, seq: 3, data: b"hello" }));
    // Frames for another MAC are none of our business.
    assert!(interface.receive(&ethernet::build(MAC_MAC, ROUTER_MAC, ethernet::IPV4, &packet), 0).is_empty());
}

#[test]
fn our_pings_resolve_the_neighbour_first_and_report_the_reply() {
    let mut interface = configured();
    let out = interface.ping(THE_MAC, 1, 1_000);
    let arp = Arp::parse(ethernet::parse(&out[0]).unwrap().payload).unwrap();
    assert_eq!((arp.op, arp.target_ip), (arp::REQUEST, THE_MAC));

    // The answer lets the waiting ping go.
    let answer = Arp { op: arp::REPLY, sender_mac: MAC_MAC, sender_ip: THE_MAC, target_mac: CLIENT, target_ip: OURS };
    let out = interface.receive(&ethernet::build(CLIENT, MAC_MAC, ethernet::ARP, &answer.to_bytes()), 2_000);
    let frame = ethernet::parse(&out[0]).unwrap();
    assert_eq!(frame.dst, MAC_MAC);
    let packet = ipv4::parse(frame.payload).unwrap();
    let echo = Echo::parse(packet.payload).unwrap();
    assert_eq!((echo.kind, echo.seq), (icmp::ECHO_REQUEST, 1));

    // The reply comes back: an event with the round trip.
    let reply = Echo { kind: icmp::ECHO_REPLY, ..echo }.to_bytes();
    let reply = ipv4::build(THE_MAC, OURS, ipv4::ICMP, 9, &reply);
    interface.receive(&ethernet::build(CLIENT, MAC_MAC, ethernet::IPV4, &reply), 5_000);
    assert_eq!(interface.take_events(), [Event::PingReply { from: THE_MAC, seq: 1, rtt_us: 4_000 }]);
    // A second ping goes straight out: the neighbour is known now.
    let out = interface.ping(THE_MAC, 2, 6_000);
    assert_eq!(ethernet::parse(&out[0]).unwrap().ethertype, ethernet::IPV4);
}

#[test]
fn far_away_hosts_are_reached_through_the_gateway() {
    let mut interface = configured();
    let out = interface.ping(Ipv4([1, 1, 1, 1]), 1, 0);
    let arp = Arp::parse(ethernet::parse(&out[0]).unwrap().payload).unwrap();
    assert_eq!(arp.target_ip, ROUTER);
}

#[test]
fn unanswered_arp_is_asked_again_then_given_up() {
    let mut interface = configured();
    interface.ping(THE_MAC, 1, 0);
    assert!(interface.poll(500_000).is_empty());
    assert_eq!(interface.poll(ARP_RETRY_US).len(), 1);
    assert!(interface.poll(ARP_GIVE_UP_US).is_empty());
    // Given up: an answer now finds nothing waiting.
    let answer = Arp { op: arp::REPLY, sender_mac: MAC_MAC, sender_ip: THE_MAC, target_mac: CLIENT, target_ip: OURS };
    assert!(interface.receive(&ethernet::build(CLIENT, MAC_MAC, ethernet::ARP, &answer.to_bytes()), ARP_GIVE_UP_US + 1).is_empty());
}

#[test]
fn nothing_is_sent_or_answered_without_an_address() {
    let mut interface = Interface::new(CLIENT, 5);
    assert!(interface.ping(THE_MAC, 1, 0).is_empty());
    let echo = Echo { kind: icmp::ECHO_REQUEST, id: 7, seq: 3, data: b"" }.to_bytes();
    let packet = ipv4::build(THE_MAC, OURS, ipv4::ICMP, 1, &echo);
    assert!(interface.receive(&ethernet::build(CLIENT, MAC_MAC, ethernet::IPV4, &packet), 0).is_empty());
}
