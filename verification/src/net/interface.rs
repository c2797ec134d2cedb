//! One network interface: its addresses, and what it does with the frames it receives. It
//! answers ARP and pings, resolves neighbours with ARP before sending to them, sends pings of
//! its own, and gets its address by DHCP. Frames go in through `receive` and out as the
//! return values; `poll` runs its timers. Times are microseconds, from whatever clock the
//! caller keeps.

use super::arp;
use super::arp::Arp;
use super::dhcp;
use super::ethernet;
use super::icmp;
use super::icmp::Echo;
use super::ipv4;
use super::udp;
use super::{Ipv4, Mac};
use vstd::prelude::*;

verus! {

/// How often a DHCP message goes again without an answer, and how many REQUESTs go before
/// starting over with a DISCOVER.
pub const DHCP_RETRY_US: u64 = 4_000_000;

pub const DHCP_REQUEST_TRIES: u32 = 3;

/// A lease is renewed halfway through, but not more often than this.
pub const MIN_RENEW_US: u64 = 60_000_000;

/// ARP requests go again this often while a packet waits, until it is given up on.
pub const ARP_RETRY_US: u64 = 1_000_000;

pub const ARP_GIVE_UP_US: u64 = 3_000_000;

/// Neighbours remembered.
pub const ARP_CACHE: usize = 16;

/// Our pings older than this are forgotten.
pub const PING_TIMEOUT_US: u64 = 10_000_000;

/// The latest time it can be told: later ones leave no room for its timers.
pub const LATEST: u64 = 0xFFF0_0000_0000_0000;

/// What DHCP gave: the interface's address and how to reach the rest of the world.
#[derive(Clone, Copy, Debug, PartialEq, Eq)]
pub struct Config {
    pub address: Ipv4,
    pub netmask: Ipv4,
    pub gateway: Option<Ipv4>,
    pub dns: Option<Ipv4>,
    pub lease_secs: u32,
}

/// What DHCP gave.
pub struct ConfigModel {
    pub address: Seq<u8>,
    pub netmask: Seq<u8>,
    pub gateway: Option<Seq<u8>>,
    pub dns: Option<Seq<u8>>,
    pub lease_secs: u32,
}

impl Config {
    pub open spec fn view(&self) -> ConfigModel {
        ConfigModel {
            address: self.address@,
            netmask: self.netmask@,
            gateway: super::address_of(self.gateway),
            dns: super::address_of(self.dns),
            lease_secs: self.lease_secs,
        }
    }
}

/// The configuration there may be.
pub open spec fn config_of(config: Option<Config>) -> Option<ConfigModel> {
    match config {
        Some(config) => Some(config@),
        None => None,
    }
}

/// Something worth telling the kernel about.
#[derive(Clone, Copy, Debug, PartialEq, Eq)]
pub enum Event {
    /// DHCP gave the interface an address (or a new one).
    Configured(Config),
    /// DHCP took it back (the server said no to renewing it).
    Unconfigured,
    /// An answer to one of our pings.
    PingReply { from: Ipv4, seq: u16, rtt_us: u64 },
}

/// What happened.
pub enum EventModel {
    Configured(ConfigModel),
    Unconfigured,
    PingReply { from: Seq<u8>, seq: u16, rtt_us: u64 },
}

impl Event {
    pub open spec fn view(&self) -> EventModel {
        match *self {
            Event::Configured(config) => EventModel::Configured(config@),
            Event::Unconfigured => EventModel::Unconfigured,
            Event::PingReply { from, seq, rtt_us } => EventModel::PingReply {
                from: from@,
                seq,
                rtt_us,
            },
        }
    }
}

/// What a list of events says.
pub open spec fn events_of(list: Seq<Event>) -> Seq<EventModel> {
    Seq::new(list.len(), |i: int| list[i]@)
}

#[derive(Clone, Copy)]
enum Dhcp {
    Discovering { xid: u32, next_try: u64 },
    Requesting { xid: u32, offered: Ipv4, server: Ipv4, next_try: u64, tries: u32 },
    Bound { server: Ipv4, renew_at: u64 },
}

/// How far DHCP has come.
pub enum DhcpModel {
    Discovering { xid: u32, next_try: u64 },
    Requesting { xid: u32, offered: Seq<u8>, server: Seq<u8>, next_try: u64, tries: u32 },
    Bound { server: Seq<u8>, renew_at: u64 },
}

impl Dhcp {
    spec fn view(&self) -> DhcpModel {
        match *self {
            Dhcp::Discovering { xid, next_try } => DhcpModel::Discovering { xid, next_try },
            Dhcp::Requesting { xid, offered, server, next_try, tries } => DhcpModel::Requesting {
                xid,
                offered: offered@,
                server: server@,
                next_try,
                tries,
            },
            Dhcp::Bound { server, renew_at } => DhcpModel::Bound { server: server@, renew_at },
        }
    }
}

/// A packet waiting for its next hop's MAC address.
struct Waiting {
    next_hop: Ipv4,
    packet: Vec<u8>,
    queued_at: u64,
    asked_at: u64,
}

/// A packet waiting for its next hop's MAC address.
pub struct WaitingModel {
    pub next_hop: Seq<u8>,
    pub packet: Seq<u8>,
    pub queued_at: u64,
    pub asked_at: u64,
}

impl Waiting {
    spec fn view(&self) -> WaitingModel {
        WaitingModel {
            next_hop: self.next_hop@,
            packet: self.packet@,
            queued_at: self.queued_at,
            asked_at: self.asked_at,
        }
    }
}

/// The packets in a list of them.
spec fn queue_of(list: Seq<Waiting>) -> Seq<WaitingModel> {
    Seq::new(list.len(), |i: int| list[i]@)
}

/// The neighbours in a list of them: each one's IP and MAC address.
pub open spec fn neighbours_of(list: Seq<(Ipv4, Mac)>) -> Seq<(Seq<u8>, Seq<u8>)> {
    Seq::new(list.len(), |i: int| (list[i].0@, list[i].1@))
}

/// The frames in a list of them.
pub open spec fn frames_of(list: Seq<Vec<u8>>) -> Seq<Seq<u8>> {
    Seq::new(list.len(), |i: int| list[i]@)
}

/// All there is to say about an interface.
pub struct InterfaceModel {
    pub mac: Seq<u8>,
    pub config: Option<ConfigModel>,
    pub dhcp: DhcpModel,
    /// Neighbours' IP and MAC addresses, newest last.
    pub arp: Seq<(Seq<u8>, Seq<u8>)>,
    pub waiting: Seq<WaitingModel>,
    /// IPv4 identification of the last packet sent.
    pub last_id: u16,
    /// Identifies our pings; each has its sequence number and when it went.
    pub ping_id: u16,
    pub pings: Seq<(u16, u64)>,
    pub events: Seq<EventModel>,
    /// The last transaction ID that was made up.
    pub random: u32,
}

/// What comes after `random` in the made-up transaction IDs (xorshift32).
pub open spec fn next_random(random: u32) -> u32 {
    let a = random ^ (random << 13u32);
    let b = a ^ (a >> 17u32);
    b ^ (b << 5u32)
}

/// The IPv4 identification after `id`.
pub open spec fn next_id(id: u16) -> u16 {
    ((id + 1) % 0x1_0000) as u16
}

/// A DHCP message from `mac` as it is sent, broadcast: there may not be an address yet.
pub open spec fn dhcp_frame(mac: Seq<u8>, id: u16, message: Seq<u8>) -> Seq<u8> {
    let datagram = udp::built(
        super::no_address(),
        dhcp::CLIENT_PORT,
        super::broadcast_address(),
        dhcp::SERVER_PORT,
        message,
    );
    let packet = ipv4::built(
        super::no_address(),
        super::broadcast_address(),
        ipv4::UDP,
        id,
        datagram,
    );
    ethernet::built(super::broadcast_mac(), mac, ethernet::IPV4, packet)
}

/// Asking, from `mac` at `address`, who has `ip`.
pub open spec fn arp_request_frame(mac: Seq<u8>, address: Seq<u8>, ip: Seq<u8>) -> Seq<u8> {
    let request = arp::ArpModel {
        op: arp::REQUEST,
        sender_mac: mac,
        sender_ip: address,
        target_mac: seq![0u8, 0, 0, 0, 0, 0],
        target_ip: ip,
    };
    ethernet::built(super::broadcast_mac(), mac, ethernet::ARP, request.packet())
}

/// The MAC address last learned for `ip`.
pub open spec fn known_mac(arp: Seq<(Seq<u8>, Seq<u8>)>, ip: Seq<u8>) -> Option<Seq<u8>>
    decreases arp.len(),
{
    if arp.len() == 0 {
        None
    } else if arp.last().0 == ip {
        Some(arp.last().1)
    } else {
        known_mac(arp.drop_last(), ip)
    }
}

/// Which neighbours are at other addresses than `ip`.
pub open spec fn not_at(ip: Seq<u8>) -> spec_fn((Seq<u8>, Seq<u8>)) -> bool {
    |n: (Seq<u8>, Seq<u8>)| n.0 != ip
}

/// Which packets wait for `ip`.
pub open spec fn hop_is(ip: Seq<u8>) -> spec_fn(WaitingModel) -> bool {
    |w: WaitingModel| w.next_hop == ip
}

/// Which packets wait for others than `ip`.
pub open spec fn hop_is_not(ip: Seq<u8>) -> spec_fn(WaitingModel) -> bool {
    |w: WaitingModel| w.next_hop != ip
}

/// Which packets still wait at `now`, not given up on.
pub open spec fn in_time(now: u64) -> spec_fn(WaitingModel) -> bool {
    |w: WaitingModel| now < w.queued_at + ARP_GIVE_UP_US
}

/// Which packets' next hops are to be asked for again at `now`.
pub open spec fn due(now: u64) -> spec_fn(WaitingModel) -> bool {
    |w: WaitingModel| now >= w.asked_at + ARP_RETRY_US
}

/// Which pings have another number than `seq`.
pub open spec fn not_numbered(seq: u16) -> spec_fn((u16, u64)) -> bool {
    |p: (u16, u64)| p.0 != seq
}

/// Which pings are not forgotten at `now`.
pub open spec fn recent(now: u64) -> spec_fn((u16, u64)) -> bool {
    |p: (u16, u64)| now < p.1 + PING_TIMEOUT_US
}

/// The neighbours after learning that `ip` is at `mac`: the newest last, and the oldest
/// forgotten if there are too many.
pub open spec fn learned(
    arp: Seq<(Seq<u8>, Seq<u8>)>,
    ip: Seq<u8>,
    mac: Seq<u8>,
) -> Seq<(Seq<u8>, Seq<u8>)> {
    let others = arp.filter(not_at(ip));
    let room = if others.len() == ARP_CACHE {
        others.remove(0)
    } else {
        others
    };
    room.push((ip, mac))
}

/// The place of the first ping numbered `seq`; the number of pings if there is none.
pub open spec fn ping_place(pings: Seq<(u16, u64)>, seq: u16, from: int) -> int
    decreases pings.len() - from,
{
    if from >= pings.len() {
        pings.len() as int
    } else if pings[from].0 == seq {
        from
    } else {
        ping_place(pings, seq, from + 1)
    }
}

/// How long `then` is ago at `now`.
pub open spec fn time_since(then: u64, now: u64) -> u64 {
    if now >= then {
        (now - then) as u64
    } else {
        0
    }
}

/// What a ping carries: the numbers from 0 to 31.
pub open spec fn ping_data() -> Seq<u8> {
    Seq::new(32, |i: int| i as u8)
}

/// When to renew a lease of `lease_secs` that starts at `now`: halfway, but not too soon.
pub open spec fn renewal(lease_secs: u32, now: u64) -> u64 {
    let half = lease_secs * 500_000;
    (now + (if half > MIN_RENEW_US {
        half
    } else {
        MIN_RENEW_US as int
    })) as u64
}

/// No neighbour is remembered twice, nor more than there is room for.
pub open spec fn valid_neighbours(arp: Seq<(Seq<u8>, Seq<u8>)>) -> bool {
    &&& arp.len() <= ARP_CACHE
    &&& forall|i: int, j: int| 0 <= i < j < arp.len() ==> #[trigger] arp[i].0 != #[trigger] arp[j].0
}

/// One packet waits per next hop, since times that are not too late.
pub open spec fn valid_waiting(waiting: Seq<WaitingModel>) -> bool {
    &&& forall|i: int, j: int|
        0 <= i < j < waiting.len() ==> #[trigger] waiting[i].next_hop
            != #[trigger] waiting[j].next_hop
    &&& forall|i: int|
        0 <= i < waiting.len() ==> (#[trigger] waiting[i]).queued_at <= LATEST
            && waiting[i].asked_at <= LATEST
}

/// Pings went at times that are not too late.
pub open spec fn valid_pings(pings: Seq<(u16, u64)>) -> bool {
    forall|i: int| 0 <= i < pings.len() ==> (#[trigger] pings[i]).1 <= LATEST
}

impl InterfaceModel {
    /// What holds of every interface: what it remembers of times is not too late, no neighbour
    /// is remembered twice, nor more than there is room for, and one packet waits per next hop.
    pub open spec fn wf(self) -> bool {
        &&& self.mac.len() == 6
        &&& valid_neighbours(self.arp)
        &&& valid_waiting(self.waiting)
        &&& valid_pings(self.pings)
    }

    /// A DISCOVER in transaction `xid` is sent, and goes again if nothing answers.
    pub open spec fn discovering(self, xid: u32, now: u64) -> (InterfaceModel, Seq<Seq<u8>>) {
        let id = next_id(self.last_id);
        (
            InterfaceModel {
                dhcp: DhcpModel::Discovering { xid, next_try: (now + DHCP_RETRY_US) as u64 },
                last_id: id,
                ..self
            },
            seq![
                dhcp_frame(
                    self.mac,
                    id,
                    dhcp::message(self.mac, xid, dhcp::Kind::Discover, Seq::empty()),
                ),
            ],
        )
    }

    /// A REQUEST in transaction `xid`, number `tries`, is sent, and goes again if nothing
    /// answers.
    pub open spec fn requesting(
        self,
        xid: u32,
        offered: Seq<u8>,
        server: Seq<u8>,
        tries: u32,
        now: u64,
    ) -> (InterfaceModel, Seq<Seq<u8>>) {
        let id = next_id(self.last_id);
        (
            InterfaceModel {
                dhcp: DhcpModel::Requesting {
                    xid,
                    offered,
                    server,
                    next_try: (now + DHCP_RETRY_US) as u64,
                    tries,
                },
                last_id: id,
                ..self
            },
            seq![
                dhcp_frame(
                    self.mac,
                    id,
                    dhcp::message(
                        self.mac,
                        xid,
                        dhcp::Kind::Request,
                        dhcp::request_options(offered, server),
                    ),
                ),
            ],
        )
    }

    /// With a new transaction ID.
    pub open spec fn stirred(self) -> InterfaceModel {
        InterfaceModel { random: next_random(self.random), ..self }
    }

    /// What DHCP sends when its timer is run: what is due again; a DISCOVER, when enough
    /// REQUESTs went unanswered; a REQUEST for the address there is, when the lease is to be
    /// renewed.
    pub open spec fn dhcp_polled(self, now: u64) -> (InterfaceModel, Seq<Seq<u8>>) {
        match self.dhcp {
            DhcpModel::Discovering { xid, next_try } => if now >= next_try {
                self.discovering(xid, now)
            } else {
                (self, Seq::empty())
            },
            DhcpModel::Requesting { xid, offered, server, next_try, tries } => if now < next_try {
                (self, Seq::empty())
            } else if tries >= DHCP_REQUEST_TRIES {
                self.stirred().discovering(next_random(self.random), now)
            } else {
                self.requesting(xid, offered, server, (tries + 1) as u32, now)
            },
            DhcpModel::Bound { server, renew_at } => if now >= renew_at {
                let offered = match self.config {
                    Some(config) => config.address,
                    None => super::no_address(),
                };
                self.stirred().requesting(next_random(self.random), offered, server, 1, now)
            } else {
                (self, Seq::empty())
            },
        }
    }

    /// The ARP requests that are due again at `now`, for packets that wait.
    pub open spec fn asked_again(self, waiting: Seq<WaitingModel>, now: u64) -> Seq<Seq<u8>> {
        match self.config {
            Some(config) => {
                let asked = waiting.filter(due(now));
                Seq::new(
                    asked.len(),
                    |i: int| arp_request_frame(self.mac, config.address, asked[i].next_hop),
                )
            },
            None => Seq::empty(),
        }
    }

    /// Runs the timers: DHCP messages and ARP requests that are due again, packets given up
    /// on, pings forgotten. Also says what is sent.
    pub open spec fn polled(self, now: u64) -> (InterfaceModel, Seq<Seq<u8>>) {
        let (m, sent) = self.dhcp_polled(now);
        let waiting = m.waiting.filter(in_time(now));
        (
            InterfaceModel {
                waiting: Seq::new(
                    waiting.len(),
                    |i: int|
                        if now >= waiting[i].asked_at + ARP_RETRY_US {
                            WaitingModel { asked_at: now, ..waiting[i] }
                        } else {
                            waiting[i]
                        },
                ),
                pings: m.pings.filter(recent(now)),
                ..m
            },
            sent + m.asked_again(waiting, now),
        )
    }

    /// Where a packet for `dst` goes first: straight to a neighbour, else to the gateway.
    pub open spec fn next_hop(self, dst: Seq<u8>) -> Option<Seq<u8>> {
        match self.config {
            Some(config) => if super::on_same_network(dst, config.address, config.netmask) {
                Some(dst)
            } else {
                config.gateway
            },
            None => None,
        }
    }

    /// Sends an IPv4 packet: straight to a neighbour, else through the gateway, once ARP says
    /// where. One packet waits per next hop: a newer one replaces it.
    pub open spec fn sent_ip(
        self,
        dst: Seq<u8>,
        protocol: u8,
        payload: Seq<u8>,
        now: u64,
    ) -> (InterfaceModel, Seq<Seq<u8>>) {
        match self.next_hop(dst) {
            None => (self, Seq::empty()),
            Some(next_hop) => {
                let address = self.config->0.address;
                let id = next_id(self.last_id);
                let packet = ipv4::built(address, dst, protocol, id, payload);
                let m = InterfaceModel { last_id: id, ..self };
                match known_mac(self.arp, next_hop) {
                    Some(mac) => (
                        m,
                        seq![ethernet::built(mac, self.mac, ethernet::IPV4, packet)],
                    ),
                    None => (
                        InterfaceModel {
                            waiting: self.waiting.filter(hop_is_not(next_hop)).push(
                                WaitingModel { next_hop, packet, queued_at: now, asked_at: now },
                            ),
                            ..m
                        },
                        seq![arp_request_frame(self.mac, address, next_hop)],
                    ),
                }
            },
        }
    }

    /// Sends a ping to `target`, number `seq`: the ping, or an ARP request first. Nothing
    /// without an address of our own, or a way to `target`.
    pub open spec fn pinged(
        self,
        target: Seq<u8>,
        seq: u16,
        now: u64,
    ) -> (InterfaceModel, Seq<Seq<u8>>) {
        let echo = icmp::EchoModel {
            kind: icmp::ECHO_REQUEST,
            id: self.ping_id,
            seq,
            data: ping_data(),
        };
        InterfaceModel {
            pings: self.pings.filter(not_numbered(seq)).push((seq, now)),
            ..self
        }.sent_ip(target, ipv4::ICMP, echo.message(), now)
    }

    /// Remembers where `ip` is, and sends what was waiting for it.
    pub open spec fn learning(self, ip: Seq<u8>, mac: Seq<u8>) -> (InterfaceModel, Seq<Seq<u8>>) {
        let ready = self.waiting.filter(hop_is(ip));
        (
            InterfaceModel {
                arp: learned(self.arp, ip, mac),
                waiting: self.waiting.filter(hop_is_not(ip)),
                ..self
            },
            Seq::new(
                ready.len(),
                |i: int| ethernet::built(mac, self.mac, ethernet::IPV4, ready[i].packet),
            ),
        )
    }

    /// Hears an ARP packet: remembers who sent it, and answers if it asks for our address.
    pub open spec fn heard_arp(self, heard: arp::ArpModel) -> (InterfaceModel, Seq<Seq<u8>>) {
        match self.config {
            None => (self, Seq::empty()),
            Some(config) => {
                let (m, sent) = if heard.sender_ip != super::no_address() {
                    self.learning(heard.sender_ip, heard.sender_mac)
                } else {
                    (self, Seq::empty())
                };
                if heard.op == arp::REQUEST && heard.target_ip == config.address {
                    let reply = arp::ArpModel {
                        op: arp::REPLY,
                        sender_mac: self.mac,
                        sender_ip: config.address,
                        target_mac: heard.sender_mac,
                        target_ip: heard.sender_ip,
                    };
                    let frame = ethernet::built(
                        heard.sender_mac,
                        self.mac,
                        ethernet::ARP,
                        reply.packet(),
                    );
                    (m, sent.push(frame))
                } else {
                    (m, sent)
                }
            },
        }
    }

    /// Gets an echo from `src`, which came in a frame from `from`: a request is answered to
    /// the MAC it came from (the asker is a neighbour, or behind the router it came through),
    /// and the answer to one of our pings is reported.
    pub open spec fn got_echo(
        self,
        from: Seq<u8>,
        src: Seq<u8>,
        echo: icmp::EchoModel,
        now: u64,
    ) -> (InterfaceModel, Seq<Seq<u8>>) {
        let config = self.config->0;
        if echo.kind == icmp::ECHO_REQUEST {
            let (m, sent) = if super::on_same_network(config.address, src, config.netmask) {
                self.learning(src, from)
            } else {
                (self, Seq::empty())
            };
            let id = next_id(m.last_id);
            let reply = icmp::EchoModel { kind: icmp::ECHO_REPLY, ..echo };
            let answer = ipv4::built(config.address, src, ipv4::ICMP, id, reply.message());
            (
                InterfaceModel { last_id: id, ..m },
                sent.push(ethernet::built(from, self.mac, ethernet::IPV4, answer)),
            )
        } else {
            let place = ping_place(self.pings, echo.seq, 0);
            if echo.id == self.ping_id && place < self.pings.len() {
                let rtt_us = time_since(self.pings[place].1, now);
                (
                    InterfaceModel {
                        pings: self.pings.remove(place),
                        events: self.events.push(
                            EventModel::PingReply { from: src, seq: echo.seq, rtt_us },
                        ),
                        ..self
                    },
                    Seq::empty(),
                )
            } else {
                (self, Seq::empty())
            }
        }
    }

    /// Gets a DHCP message: takes the first offer; takes what a request was answered with, and
    /// says so if it is news; gives the address up and starts over if the answer was no.
    pub open spec fn got_dhcp(self, payload: Seq<u8>, now: u64) -> (InterfaceModel, Seq<Seq<u8>>) {
        match self.dhcp {
            DhcpModel::Bound { .. } => (self, Seq::empty()),
            DhcpModel::Discovering { xid, .. } => match dhcp::parsed_reply(payload, xid, self.mac) {
                Some(reply) => if reply.kind == dhcp::Kind::Offer && reply.server is Some {
                    self.requesting(xid, reply.address, reply.server->0, 1, now)
                } else {
                    (self, Seq::empty())
                },
                None => (self, Seq::empty()),
            },
            DhcpModel::Requesting { xid, server, .. } => match dhcp::parsed_reply(
                payload,
                xid,
                self.mac,
            ) {
                Some(reply) => if reply.kind == dhcp::Kind::Ack {
                    (self.bound(reply, server, now), Seq::empty())
                } else if reply.kind == dhcp::Kind::Nak {
                    (self.refused(now), Seq::empty())
                } else {
                    (self, Seq::empty())
                },
                None => (self, Seq::empty()),
            },
        }
    }

    /// Takes the address that `reply` gives.
    pub open spec fn bound(
        self,
        reply: dhcp::ReplyModel,
        server: Seq<u8>,
        now: u64,
    ) -> InterfaceModel {
        let lease_secs = match reply.lease_secs {
            Some(secs) => secs,
            None => 3600,
        };
        let config = ConfigModel {
            address: reply.address,
            netmask: (match reply.netmask {
                Some(netmask) => netmask,
                None => seq![255u8, 255, 255, 0],
            }),
            gateway: reply.router,
            dns: reply.dns,
            lease_secs,
        };
        InterfaceModel {
            dhcp: DhcpModel::Bound {
                server: (match reply.server {
                    Some(server) => server,
                    None => server,
                }),
                renew_at: renewal(lease_secs, now),
            },
            config: Some(config),
            events: (if self.config == Some(config) {
                self.events
            } else {
                self.events.push(EventModel::Configured(config))
            }),
            ..self
        }
    }

    /// Gives the address up, if there was one, and is about to start over.
    pub open spec fn refused(self, now: u64) -> InterfaceModel {
        InterfaceModel {
            config: None,
            events: (if self.config is Some {
                self.events.push(EventModel::Unconfigured)
            } else {
                self.events
            }),
            dhcp: DhcpModel::Discovering { xid: next_random(self.random), next_try: now },
            ..self.stirred()
        }
    }

    /// Gets an IPv4 packet, which came in a frame from `from`. DHCP answers come before there
    /// is an address, to it or broadcast.
    pub open spec fn got_packet(
        self,
        from: Seq<u8>,
        packet: ipv4::PacketModel,
        now: u64,
    ) -> (InterfaceModel, Seq<Seq<u8>>) {
        if packet.protocol == ipv4::UDP {
            match udp::parsed(packet.payload, packet.src, packet.dst) {
                Some(datagram) => if datagram.dst_port == dhcp::CLIENT_PORT && datagram.src_port
                    == dhcp::SERVER_PORT {
                    self.got_dhcp(datagram.payload, now)
                } else {
                    (self, Seq::empty())
                },
                None => (self, Seq::empty()),
            }
        } else if packet.protocol == ipv4::ICMP && self.config is Some && packet.dst
            == self.config->0.address {
            match icmp::parsed(packet.payload) {
                Some(echo) => self.got_echo(from, packet.src, echo, now),
                None => (self, Seq::empty()),
            }
        } else {
            (self, Seq::empty())
        }
    }

    /// Takes a frame that arrived, and says what is sent in answer. Frames for others are none
    /// of its business.
    pub open spec fn received(self, data: Seq<u8>, now: u64) -> (InterfaceModel, Seq<Seq<u8>>) {
        match ethernet::parsed(data) {
            None => (self, Seq::empty()),
            Some(frame) => if frame.dst != self.mac && frame.dst != super::broadcast_mac() {
                (self, Seq::empty())
            } else if frame.ethertype == ethernet::ARP {
                match arp::parsed(frame.payload) {
                    Some(heard) => self.heard_arp(heard),
                    None => (self, Seq::empty()),
                }
            } else if frame.ethertype == ethernet::IPV4 {
                match ipv4::parsed(frame.payload) {
                    Some(packet) => self.got_packet(frame.src, packet, now),
                    None => (self, Seq::empty()),
                }
            } else {
                (self, Seq::empty())
            },
        }
    }
}

/// One step further through a list that is filtered.
proof fn lemma_filter_step<A>(s: Seq<A>, n: int, keep: spec_fn(A) -> bool)
    requires
        0 <= n < s.len(),
    ensures
        s.subrange(0, n + 1).filter(keep) == (if keep(s[n]) {
            s.subrange(0, n).filter(keep).push(s[n])
        } else {
            s.subrange(0, n).filter(keep)
        }),
{
    reveal(Seq::filter);
    let more = s.subrange(0, n + 1);
    assert(more.drop_last() =~= s.subrange(0, n));
    assert(more.last() == s[n]);
}

/// Nothing filtered is nothing.
proof fn lemma_filter_none<A>(s: Seq<A>, keep: spec_fn(A) -> bool)
    ensures
        s.subrange(0, 0).filter(keep) == Seq::<A>::empty(),
{
    reveal(Seq::filter);
    assert(s.subrange(0, 0) =~= Seq::<A>::empty());
}

/// What is left of a list comes from it, in its order.
proof fn lemma_filter_order<A>(s: Seq<A>, keep: spec_fn(A) -> bool, i: int, j: int) -> (r: (
    int,
    int,
))
    requires
        0 <= i < j < s.filter(keep).len(),
    ensures
        0 <= r.0 < r.1 < s.len(),
        s[r.0] == s.filter(keep)[i],
        s[r.1] == s.filter(keep)[j],
    decreases s.len(),
{
    reveal(Seq::filter);
    let front = s.drop_last();
    let kept = front.filter(keep);
    if j < kept.len() {
        lemma_filter_order(front, keep, i, j)
    } else {
        let at = lemma_filter_member(front, keep, i);
        (at, s.len() - 1)
    }
}

/// What is left of a list comes from it, and was to be kept.
pub proof fn lemma_filter_member<A>(s: Seq<A>, keep: spec_fn(A) -> bool, i: int) -> (r: int)
    requires
        0 <= i < s.filter(keep).len(),
    ensures
        0 <= r < s.len(),
        s[r] == s.filter(keep)[i],
        keep(s[r]),
    decreases s.len(),
{
    reveal(Seq::filter);
    let front = s.drop_last();
    let kept = front.filter(keep);
    if i < kept.len() {
        lemma_filter_member(front, keep, i)
    } else {
        s.len() - 1
    }
}

/// Forgets the neighbour with address `ip`.
fn forget_neighbour(list: &mut Vec<(Ipv4, Mac)>, ip: Ipv4)
    ensures
        neighbours_of(final(list)@) == neighbours_of(old(list)@).filter(not_at(ip@)),
{
    let ghost keep = not_at(ip@);
    let ghost all = neighbours_of(list@);
    let ghost mut n: int = 0;
    let mut i: usize = 0;
    proof {
        lemma_filter_none(all, keep);
    }
    assert(neighbours_of(list@) =~= all.subrange(0, 0).filter(keep) + all.subrange(
        0,
        all.len() as int,
    ));
    while i < list.len()
        invariant
            0 <= n <= all.len(),
            i == all.subrange(0, n).filter(keep).len(),
            list@.len() == i + all.len() - n,
            keep == not_at(ip@),
            neighbours_of(list@) == all.subrange(0, n).filter(keep) + all.subrange(
                n,
                all.len() as int,
            ),
        decreases all.len() - n,
    {
        let ghost before = neighbours_of(list@);
        proof {
            lemma_filter_step(all, n, keep);
            assert(before[i as int] == all[n]);
        }
        if list[i].0 == ip {
            let _ = list.remove(i);
            assert(neighbours_of(list@) =~= before.remove(i as int));
        } else {
            i += 1;
        }
        proof {
            n = n + 1;
        }
        assert(neighbours_of(list@) =~= all.subrange(0, n).filter(keep) + all.subrange(
            n,
            all.len() as int,
        ));
    }
    assert(all.subrange(0, n) =~= all);
    assert(neighbours_of(list@) =~= all.filter(keep));
}

/// Drops what waits for `next_hop`.
fn drop_waiting_for(list: &mut Vec<Waiting>, next_hop: Ipv4)
    ensures
        queue_of(final(list)@) == queue_of(old(list)@).filter(hop_is_not(next_hop@)),
{
    let ghost keep = hop_is_not(next_hop@);
    let ghost all = queue_of(list@);
    let ghost mut n: int = 0;
    let mut i: usize = 0;
    proof {
        lemma_filter_none(all, keep);
    }
    assert(queue_of(list@) =~= all.subrange(0, 0).filter(keep) + all.subrange(0, all.len() as int));
    while i < list.len()
        invariant
            0 <= n <= all.len(),
            i == all.subrange(0, n).filter(keep).len(),
            list@.len() == i + all.len() - n,
            keep == hop_is_not(next_hop@),
            queue_of(list@) == all.subrange(0, n).filter(keep) + all.subrange(n, all.len() as int),
        decreases all.len() - n,
    {
        let ghost before = queue_of(list@);
        proof {
            lemma_filter_step(all, n, keep);
            assert(before[i as int] == all[n]);
        }
        if list[i].next_hop == next_hop {
            let _ = list.remove(i);
            assert(queue_of(list@) =~= before.remove(i as int));
        } else {
            i += 1;
        }
        proof {
            n = n + 1;
        }
        assert(queue_of(list@) =~= all.subrange(0, n).filter(keep) + all.subrange(
            n,
            all.len() as int,
        ));
    }
    assert(all.subrange(0, n) =~= all);
    assert(queue_of(list@) =~= all.filter(keep));
}

/// Drops what has waited too long.
fn drop_late_waiting(list: &mut Vec<Waiting>, now: u64)
    requires
        forall|i: int| 0 <= i < old(list)@.len() ==> (#[trigger] old(list)@[i]).queued_at <= LATEST,
    ensures
        queue_of(final(list)@) == queue_of(old(list)@).filter(in_time(now)),
{
    let ghost keep = in_time(now);
    let ghost all = queue_of(list@);
    let ghost mut n: int = 0;
    let mut i: usize = 0;
    proof {
        lemma_filter_none(all, keep);
        assert forall|i: int| 0 <= i < all.len() implies (#[trigger] all[i]).queued_at <= LATEST by {
            assert(all[i] == list@[i]@);
        }
    }
    assert(queue_of(list@) =~= all.subrange(0, 0).filter(keep) + all.subrange(0, all.len() as int));
    while i < list.len()
        invariant
            0 <= n <= all.len(),
            i == all.subrange(0, n).filter(keep).len(),
            list@.len() == i + all.len() - n,
            keep == in_time(now),
            forall|i: int| 0 <= i < all.len() ==> (#[trigger] all[i]).queued_at <= LATEST,
            queue_of(list@) == all.subrange(0, n).filter(keep) + all.subrange(n, all.len() as int),
        decreases all.len() - n,
    {
        let ghost before = queue_of(list@);
        proof {
            lemma_filter_step(all, n, keep);
            assert(before[i as int] == all[n]);
            assert(before[i as int] == list@[i as int]@);
        }
        if now >= list[i].queued_at + ARP_GIVE_UP_US {
            let _ = list.remove(i);
            assert(queue_of(list@) =~= before.remove(i as int));
        } else {
            i += 1;
        }
        proof {
            n = n + 1;
        }
        assert(queue_of(list@) =~= all.subrange(0, n).filter(keep) + all.subrange(
            n,
            all.len() as int,
        ));
    }
    assert(all.subrange(0, n) =~= all);
    assert(queue_of(list@) =~= all.filter(keep));
}

/// Forgets the ping numbered `seq`.
fn forget_ping(list: &mut Vec<(u16, u64)>, seq: u16)
    ensures
        final(list)@ == old(list)@.filter(not_numbered(seq)),
{
    let ghost keep = not_numbered(seq);
    let ghost all = list@;
    let ghost mut n: int = 0;
    let mut i: usize = 0;
    proof {
        lemma_filter_none(all, keep);
    }
    assert(list@ =~= all.subrange(0, 0).filter(keep) + all.subrange(0, all.len() as int));
    while i < list.len()
        invariant
            0 <= n <= all.len(),
            i == all.subrange(0, n).filter(keep).len(),
            list@.len() == i + all.len() - n,
            keep == not_numbered(seq),
            list@ == all.subrange(0, n).filter(keep) + all.subrange(n, all.len() as int),
        decreases all.len() - n,
    {
        proof {
            lemma_filter_step(all, n, keep);
            assert(list@[i as int] == all[n]);
        }
        if list[i].0 == seq {
            let _ = list.remove(i);
        } else {
            i += 1;
        }
        proof {
            n = n + 1;
        }
        assert(list@ =~= all.subrange(0, n).filter(keep) + all.subrange(n, all.len() as int));
    }
    assert(all.subrange(0, n) =~= all);
    assert(list@ =~= all.filter(keep));
}

/// Forgets pings that are too old.
fn forget_old_pings(list: &mut Vec<(u16, u64)>, now: u64)
    requires
        forall|i: int| 0 <= i < old(list)@.len() ==> (#[trigger] old(list)@[i]).1 <= LATEST,
    ensures
        final(list)@ == old(list)@.filter(recent(now)),
{
    let ghost keep = recent(now);
    let ghost all = list@;
    let ghost mut n: int = 0;
    let mut i: usize = 0;
    proof {
        lemma_filter_none(all, keep);
    }
    assert(list@ =~= all.subrange(0, 0).filter(keep) + all.subrange(0, all.len() as int));
    while i < list.len()
        invariant
            0 <= n <= all.len(),
            i == all.subrange(0, n).filter(keep).len(),
            list@.len() == i + all.len() - n,
            keep == recent(now),
            forall|i: int| 0 <= i < all.len() ==> (#[trigger] all[i]).1 <= LATEST,
            list@ == all.subrange(0, n).filter(keep) + all.subrange(n, all.len() as int),
        decreases all.len() - n,
    {
        proof {
            lemma_filter_step(all, n, keep);
            assert(list@[i as int] == all[n]);
        }
        if now >= list[i].1 + PING_TIMEOUT_US {
            let _ = list.remove(i);
        } else {
            i += 1;
        }
        proof {
            n = n + 1;
        }
        assert(list@ =~= all.subrange(0, n).filter(keep) + all.subrange(n, all.len() as int));
    }
    assert(all.subrange(0, n) =~= all);
    assert(list@ =~= all.filter(keep));
}

/// The place of the first ping numbered `seq`; the number of pings if there is none.
fn find_ping(list: &Vec<(u16, u64)>, seq: u16) -> (r: usize)
    ensures
        r == ping_place(list@, seq, 0),
        r <= list@.len(),
        r < list@.len() ==> list@[r as int].0 == seq,
{
    let mut i: usize = 0;
    while i < list.len() && list[i].0 != seq
        invariant
            i <= list@.len(),
            ping_place(list@, seq, 0) == ping_place(list@, seq, i as int),
        decreases list@.len() - i,
    {
        i += 1;
    }
    i
}

/// What is left of what waits is as it was: one packet per next hop, at known times.
proof fn lemma_filtered_waiting(waiting: Seq<WaitingModel>, keep: spec_fn(WaitingModel) -> bool)
    requires
        valid_waiting(waiting),
    ensures
        valid_waiting(waiting.filter(keep)),
        forall|i: int|
            0 <= i < waiting.filter(keep).len() ==> keep(#[trigger] waiting.filter(keep)[i]),
{
    let kept = waiting.filter(keep);
    assert forall|i: int, j: int| 0 <= i < j < kept.len() implies #[trigger] kept[i].next_hop
        != #[trigger] kept[j].next_hop by {
        let r = lemma_filter_order(waiting, keep, i, j);
    }
    assert forall|i: int| 0 <= i < kept.len() implies (#[trigger] kept[i]).queued_at <= LATEST
        && kept[i].asked_at <= LATEST && keep(kept[i]) by {
        let r = lemma_filter_member(waiting, keep, i);
    }
}

proof fn lemma_filtered_pings(pings: Seq<(u16, u64)>, keep: spec_fn((u16, u64)) -> bool)
    requires
        valid_pings(pings),
    ensures
        valid_pings(pings.filter(keep)),
{
    let kept = pings.filter(keep);
    assert forall|i: int| 0 <= i < kept.len() implies (#[trigger] kept[i]).1 <= LATEST by {
        let r = lemma_filter_member(pings, keep, i);
    }
}

proof fn lemma_learned(arp: Seq<(Seq<u8>, Seq<u8>)>, ip: Seq<u8>, mac: Seq<u8>)
    requires
        valid_neighbours(arp),
    ensures
        valid_neighbours(learned(arp, ip, mac)),
{
    let keep = not_at(ip);
    let others = arp.filter(keep);
    arp.lemma_filter_len(keep);
    assert forall|i: int, j: int| 0 <= i < j < others.len() implies #[trigger] others[i].0
        != #[trigger] others[j].0 by {
        let r = lemma_filter_order(arp, keep, i, j);
    }
    assert forall|i: int| 0 <= i < others.len() implies (#[trigger] others[i]).0 != ip by {
        let r = lemma_filter_member(arp, keep, i);
    }
}

proof fn lemma_learning(m: InterfaceModel, ip: Seq<u8>, mac: Seq<u8>)
    requires
        m.wf(),
    ensures
        m.learning(ip, mac).0.wf(),
{
    lemma_learned(m.arp, ip, mac);
    lemma_filtered_waiting(m.waiting, hop_is_not(ip));
}

proof fn lemma_sent_ip(m: InterfaceModel, dst: Seq<u8>, protocol: u8, payload: Seq<u8>, now: u64)
    requires
        m.wf(),
        now <= LATEST,
    ensures
        m.sent_ip(dst, protocol, payload, now).0.wf(),
{
    if let Some(next_hop) = m.next_hop(dst) {
        lemma_filtered_waiting(m.waiting, hop_is_not(next_hop));
        let others = m.waiting.filter(hop_is_not(next_hop));
        assert forall|i: int| 0 <= i < others.len() implies (#[trigger] others[i]).next_hop
            != next_hop by {
            assert(hop_is_not(next_hop)(others[i]));
        }
    }
}

/// Running the timers keeps what holds of every interface.
pub proof fn polling_keeps_it_valid(m: InterfaceModel, now: u64)
    requires
        m.wf(),
        now <= LATEST,
    ensures
        m.polled(now).0.wf(),
{
    let d = m.dhcp_polled(now).0;
    assert(d.wf());
    lemma_filtered_waiting(d.waiting, in_time(now));
    lemma_filtered_pings(d.pings, recent(now));
}

/// So does pinging.
pub proof fn pinging_keeps_it_valid(m: InterfaceModel, target: Seq<u8>, seq: u16, now: u64)
    requires
        m.wf(),
        now <= LATEST,
    ensures
        m.pinged(target, seq, now).0.wf(),
{
    let keep = not_numbered(seq);
    lemma_filtered_pings(m.pings, keep);
    let p = InterfaceModel { pings: m.pings.filter(keep).push((seq, now)), ..m };
    assert(p.wf());
    let echo = icmp::EchoModel {
        kind: icmp::ECHO_REQUEST,
        id: m.ping_id,
        seq,
        data: ping_data(),
    };
    lemma_sent_ip(p, target, ipv4::ICMP, echo.message(), now);
}

proof fn lemma_got_packet(m: InterfaceModel, from: Seq<u8>, packet: ipv4::PacketModel, now: u64)
    requires
        m.wf(),
        now <= LATEST,
    ensures
        m.got_packet(from, packet, now).0.wf(),
{
    lemma_learning(m, packet.src, from);
    if let Some(echo) = icmp::parsed(packet.payload) {
        let place = ping_place(m.pings, echo.seq, 0);
        lemma_ping_place(m.pings, echo.seq, 0);
        if place < m.pings.len() {
            let rest = m.pings.remove(place);
            assert forall|i: int| 0 <= i < rest.len() implies (#[trigger] rest[i]).1 <= LATEST by {
                if i < place {
                    assert(rest[i] == m.pings[i]);
                } else {
                    assert(rest[i] == m.pings[i + 1]);
                }
            }
        }
    }
}

proof fn lemma_ping_place(pings: Seq<(u16, u64)>, seq: u16, from: int)
    requires
        0 <= from <= pings.len(),
    ensures
        from <= ping_place(pings, seq, from) <= pings.len(),
    decreases pings.len() - from,
{
    if from < pings.len() {
        lemma_ping_place(pings, seq, from + 1);
    }
}

/// So does taking a frame, whatever it is.
pub proof fn receiving_keeps_it_valid(m: InterfaceModel, data: Seq<u8>, now: u64)
    requires
        m.wf(),
        now <= LATEST,
    ensures
        m.received(data, now).0.wf(),
{
    if let Some(frame) = ethernet::parsed(data) {
        if let Some(heard) = arp::parsed(frame.payload) {
            lemma_learning(m, heard.sender_ip, heard.sender_mac);
        }
        if let Some(packet) = ipv4::parsed(frame.payload) {
            lemma_got_packet(m, frame.src, packet, now);
        }
    }
}

pub struct Interface {
    mac: Mac,
    config: Option<Config>,
    dhcp: Dhcp,
    /// Neighbours, newest last.
    arp: Vec<(Ipv4, Mac)>,
    waiting: Vec<Waiting>,
    /// IPv4 identification of the last packet sent.
    last_id: u16,
    /// Identifies our pings; each has its sequence number and when it went.
    ping_id: u16,
    pings: Vec<(u16, u64)>,
    events: Vec<Event>,
    /// For DHCP transaction IDs: a simple generator seeded by the caller.
    random: u32,
}

/// An interface that has done nothing yet.
pub open spec fn initial(mac: Seq<u8>, seed: u32) -> InterfaceModel {
    InterfaceModel {
        mac,
        config: None,
        dhcp: DhcpModel::Discovering { xid: seed, next_try: 0 },
        arp: Seq::empty(),
        waiting: Seq::empty(),
        last_id: (seed % 0x1_0000) as u16,
        ping_id: (seed / 0x1_0000) as u16,
        pings: Seq::empty(),
        events: Seq::empty(),
        random: seed | 1,
    }
}

/// Whether two addresses are the same, or neither is known.
fn same_address(a: Option<Ipv4>, b: Option<Ipv4>) -> (r: bool)
    ensures
        r == (super::address_of(a) == super::address_of(b)),
{
    match (a, b) {
        (Some(a), Some(b)) => a == b,
        (None, None) => true,
        _ => false,
    }
}

/// Whether two configurations are the same.
fn same_config(a: &Config, b: &Config) -> (r: bool)
    ensures
        r == (a@ == b@),
{
    a.address == b.address && a.netmask == b.netmask && same_address(a.gateway, b.gateway)
        && same_address(a.dns, b.dns) && a.lease_secs == b.lease_secs
}

/// What a ping carries.
fn make_ping_data() -> (r: Vec<u8>)
    ensures
        r@ == ping_data(),
{
    let mut data: Vec<u8> = Vec::new();
    let mut i: u8 = 0;
    while i < 32
        invariant
            i <= 32,
            data@ == Seq::new(i as nat, |k: int| k as u8),
        decreases 32 - i,
    {
        data.push(i);
        i += 1;
        assert(data@ =~= Seq::new(i as nat, |k: int| k as u8));
    }
    data
}

/// Adds `frame` to those to send.
fn push_frame(out: &mut Vec<Vec<u8>>, frame: Vec<u8>)
    ensures
        frames_of(final(out)@) == frames_of(old(out)@).push(frame@),
{
    let ghost sent = frames_of(out@);
    out.push(frame);
    assert(frames_of(out@) =~= sent.push(frame@));
}

impl Interface {
    pub closed spec fn view(&self) -> InterfaceModel {
        InterfaceModel {
            mac: self.mac@,
            config: config_of(self.config),
            dhcp: self.dhcp@,
            arp: neighbours_of(self.arp@),
            waiting: queue_of(self.waiting@),
            last_id: self.last_id,
            ping_id: self.ping_id,
            pings: self.pings@,
            events: events_of(self.events@),
            random: self.random,
        }
    }

    /// What holds of every interface.
    pub open spec fn wf(&self) -> bool {
        self@.wf()
    }

    /// An interface with MAC address `mac`, which starts asking DHCP for an address at its
    /// first `poll`. `seed` makes its DHCP transactions and pings its own.
    pub fn new(mac: Mac, seed: u32) -> (r: Self)
        ensures
            r.wf(),
            r@ == initial(mac@, seed),
    {
        let r = Interface {
            mac,
            config: None,
            dhcp: Dhcp::Discovering { xid: seed, next_try: 0 },
            arp: Vec::new(),
            waiting: Vec::new(),
            last_id: (seed % 0x1_0000) as u16,
            ping_id: (seed / 0x1_0000) as u16,
            pings: Vec::new(),
            events: Vec::new(),
            random: seed | 1,
        };
        assert(r@.arp =~= Seq::empty());
        assert(r@.waiting =~= Seq::empty());
        assert(r@.pings =~= Seq::empty());
        assert(r@.events =~= Seq::empty());
        r
    }

    pub fn mac(&self) -> (r: Mac)
        ensures
            r@ == self@.mac,
    {
        self.mac
    }

    pub fn config(&self) -> (r: Option<Config>)
        ensures
            config_of(r) == self@.config,
    {
        self.config
    }

    /// What happened since the last call.
    pub fn take_events(&mut self) -> (r: Vec<Event>)
        requires
            old(self).wf(),
        ensures
            final(self).wf(),
            events_of(r@) == old(self)@.events,
            final(self)@ == (InterfaceModel { events: Seq::empty(), ..old(self)@ }),
    {
        let mut out: Vec<Event> = Vec::new();
        std::mem::swap(&mut out, &mut self.events);
        assert(self@.events =~= Seq::empty());
        out
    }

    fn next_xid(&mut self) -> (r: u32)
        ensures
            final(self)@ == old(self)@.stirred(),
            r == next_random(old(self)@.random),
    {
        let a = self.random ^ (self.random << 13u32);
        let b = a ^ (a >> 17u32);
        self.random = b ^ (b << 5u32);
        self.random
    }

    fn take_id(&mut self) -> (r: u16)
        ensures
            r == next_id(old(self)@.last_id),
            final(self)@ == (InterfaceModel { last_id: r, ..old(self)@ }),
    {
        self.last_id = if self.last_id == 0xFFFF {
            0
        } else {
            self.last_id + 1
        };
        self.last_id
    }

    /// A DHCP message from us, broadcast: we may not have an address yet.
    fn dhcp_frame(&mut self, message: &Vec<u8>) -> (r: Vec<u8>)
        requires
            message@.len() == dhcp::MIN_LENGTH,
        ensures
            ({
                let id = next_id(old(self)@.last_id);
                &&& final(self)@ == (InterfaceModel { last_id: id, ..old(self)@ })
                &&& r@ == dhcp_frame(old(self)@.mac, id, message@)
            }),
    {
        let datagram = udp::build(
            Ipv4::unspecified(),
            dhcp::CLIENT_PORT,
            Ipv4::broadcast(),
            dhcp::SERVER_PORT,
            message,
        );
        let id = self.take_id();
        let packet = ipv4::build(
            Ipv4::unspecified(),
            Ipv4::broadcast(),
            ipv4::UDP,
            id,
            &datagram,
        );
        ethernet::build(Mac::broadcast(), self.mac, ethernet::IPV4, &packet)
    }

    fn send_discover(&mut self, xid: u32, now: u64, out: &mut Vec<Vec<u8>>)
        requires
            now <= LATEST,
        ensures
            final(self)@ == old(self)@.discovering(xid, now).0,
            frames_of(final(out)@) == frames_of(old(out)@) + old(self)@.discovering(xid, now).1,
    {
        self.dhcp = Dhcp::Discovering { xid, next_try: now + DHCP_RETRY_US };
        let message = dhcp::discover(self.mac, xid);
        let frame = self.dhcp_frame(&message);
        push_frame(out, frame);
        assert(frames_of(out@) =~= frames_of(old(out)@) + old(self)@.discovering(xid, now).1);
    }

    fn send_request(
        &mut self,
        xid: u32,
        offered: Ipv4,
        server: Ipv4,
        tries: u32,
        now: u64,
        out: &mut Vec<Vec<u8>>,
    )
        requires
            now <= LATEST,
        ensures
            final(self)@ == old(self)@.requesting(xid, offered@, server@, tries, now).0,
            frames_of(final(out)@) == frames_of(old(out)@) + old(self)@.requesting(
                xid,
                offered@,
                server@,
                tries,
                now,
            ).1,
    {
        self.dhcp =
        Dhcp::Requesting { xid, offered, server, next_try: now + DHCP_RETRY_US, tries };
        let message = dhcp::request(self.mac, xid, offered, server);
        let frame = self.dhcp_frame(&message);
        push_frame(out, frame);
        assert(frames_of(out@) =~= frames_of(old(out)@) + old(self)@.requesting(
            xid,
            offered@,
            server@,
            tries,
            now,
        ).1);
    }

    fn poll_dhcp(&mut self, now: u64, out: &mut Vec<Vec<u8>>)
        requires
            now <= LATEST,
        ensures
            final(self)@ == old(self)@.dhcp_polled(now).0,
            frames_of(final(out)@) == frames_of(old(out)@) + old(self)@.dhcp_polled(now).1,
    {
        assert(frames_of(out@) + Seq::<Seq<u8>>::empty() =~= frames_of(out@));
        match self.dhcp {
            Dhcp::Discovering { xid, next_try } => {
                if now >= next_try {
                    self.send_discover(xid, now, out);
                }
            },
            Dhcp::Requesting { xid, offered, server, next_try, tries } => {
                if now >= next_try {
                    if tries >= DHCP_REQUEST_TRIES {
                        let xid = self.next_xid();
                        self.send_discover(xid, now, out);
                    } else {
                        self.send_request(xid, offered, server, tries + 1, now, out);
                    }
                }
            },
            Dhcp::Bound { server, renew_at } => {
                if now >= renew_at {
                    let offered = match self.config {
                        Some(config) => config.address,
                        None => Ipv4::unspecified(),
                    };
                    let xid = self.next_xid();
                    self.send_request(xid, offered, server, 1, now, out);
                }
            },
        }
    }

    /// Asks again for the next hops that are due.
    fn ask_again(&mut self, now: u64, out: &mut Vec<Vec<u8>>)
        requires
            now <= LATEST,
            old(self).wf(),
        ensures
            final(self)@ == (InterfaceModel {
                waiting: Seq::new(
                    old(self)@.waiting.len(),
                    |i: int|
                        if now >= old(self)@.waiting[i].asked_at + ARP_RETRY_US {
                            WaitingModel { asked_at: now, ..old(self)@.waiting[i] }
                        } else {
                            old(self)@.waiting[i]
                        },
                ),
                ..old(self)@
            }),
            frames_of(final(out)@) == frames_of(old(out)@) + old(self)@.asked_again(
                old(self)@.waiting,
                now,
            ),
    {
        let ghost m = self@;
        let ghost all = m.waiting;
        let ghost again = due(now);
        let ghost sent = frames_of(out@);
        proof {
            lemma_filter_none(all, again);
            assert(frames_of(out@) =~= sent + m.asked_again(all.subrange(0, 0), now));
        }
        let mut i: usize = 0;
        while i < self.waiting.len()
            invariant
                i <= self.waiting@.len(),
                m == old(self)@,
                m.wf(),
                all == m.waiting,
                self.waiting@.len() == all.len(),
                again == due(now),
                self@ == (InterfaceModel { waiting: self@.waiting, ..m }),
                forall|k: int|
                    0 <= k < all.len() ==> (#[trigger] self.waiting@[k])@ == (if k < i && again(all[k]) {
                        WaitingModel { asked_at: now, ..all[k] }
                    } else {
                        all[k]
                    }),
                frames_of(out@) == sent + m.asked_again(all.subrange(0, i as int), now),
            decreases all.len() - i,
        {
            assert(self@.waiting[i as int] == self.waiting@[i as int]@);
            assert(all[i as int].asked_at <= LATEST);
            let ghost before = self.waiting@;
            let ghost asked = m.asked_again(all.subrange(0, i as int), now);
            proof {
                lemma_filter_step(all, i as int, again);
            }
            if now >= self.waiting[i].asked_at + ARP_RETRY_US {
                let next_hop = self.waiting[i].next_hop;
                self.waiting[i].asked_at = now;
                match self.arp_request(next_hop) {
                    Some(frame) => {
                        push_frame(out, frame);
                        assert(m.asked_again(all.subrange(0, i + 1), now) =~= asked.push(frame@));
                        assert(frames_of(out@) =~= sent + asked.push(frame@));
                    },
                    None => {},
                }
            }
            assert(m.asked_again(all.subrange(0, i + 1), now).len() >= asked.len());
            assert(frames_of(out@) =~= sent + m.asked_again(all.subrange(0, i + 1), now));
            i += 1;
        }
        assert(all.subrange(0, i as int) =~= all);
        assert(self@.waiting =~= Seq::new(
            all.len(),
            |i: int|
                if now >= all[i].asked_at + ARP_RETRY_US {
                    WaitingModel { asked_at: now, ..all[i] }
                } else {
                    all[i]
                },
        ));
    }

    /// Runs the timers: DHCP messages and ARP requests that are due again, packets given up
    /// on, pings forgotten. Returns frames to send.
    pub fn poll(&mut self, now: u64) -> (r: Vec<Vec<u8>>)
        requires
            old(self).wf(),
            now <= LATEST,
        ensures
            final(self).wf(),
            final(self)@ == old(self)@.polled(now).0,
            frames_of(r@) == old(self)@.polled(now).1,
    {
        let ghost m = self@.dhcp_polled(now).0;
        let mut out: Vec<Vec<u8>> = Vec::new();
        assert(frames_of(out@) + self@.dhcp_polled(now).1 =~= self@.dhcp_polled(now).1);
        self.poll_dhcp(now, &mut out);
        proof {
            polling_keeps_it_valid(old(self)@, now);
            lemma_filtered_waiting(m.waiting, in_time(now));
            assert forall|i: int| 0 <= i < self.waiting@.len() implies (
            #[trigger] self.waiting@[i]).queued_at <= LATEST by {
                assert(self@.waiting[i] == self.waiting@[i]@);
            }
        }
        drop_late_waiting(&mut self.waiting, now);
        self.ask_again(now, &mut out);
        forget_old_pings(&mut self.pings, now);
        out
    }

    fn arp_request(&self, ip: Ipv4) -> (r: Option<Vec<u8>>)
        ensures
            match (r, self@.config) {
                (Some(frame), Some(config)) => frame@ == arp_request_frame(
                    self@.mac,
                    config.address,
                    ip@,
                ),
                (None, None) => true,
                _ => false,
            },
    {
        match self.config {
            Some(config) => {
                let request = Arp {
                    op: arp::REQUEST,
                    sender_mac: self.mac,
                    sender_ip: config.address,
                    target_mac: Mac::default(),
                    target_ip: ip,
                };
                let packet = request.to_bytes();
                Some(ethernet::build(Mac::broadcast(), self.mac, ethernet::ARP, &packet))
            },
            None => None,
        }
    }

    fn lookup(&self, ip: Ipv4) -> (r: Option<Mac>)
        ensures
            match (r, known_mac(self@.arp, ip@)) {
                (Some(mac), Some(known)) => mac@ == known,
                (None, None) => true,
                _ => false,
            },
    {
        let ghost all = self@.arp;
        let mut i: usize = self.arp.len();
        assert(all.subrange(0, i as int) =~= all);
        while i > 0
            invariant
                i <= self.arp@.len(),
                all == neighbours_of(self.arp@),
                known_mac(all, ip@) == known_mac(all.subrange(0, i as int), ip@),
            decreases i,
        {
            let ghost front = all.subrange(0, i as int);
            assert(front.last() == (self.arp@[i - 1].0@, self.arp@[i - 1].1@));
            assert(front.drop_last() =~= all.subrange(0, i - 1));
            let (known, mac) = self.arp[i - 1];
            if known == ip {
                return Some(mac);
            }
            i -= 1;
        }
        assert(all.subrange(0, 0).len() == 0);
        None
    }

    /// Sends an IPv4 packet: straight to a neighbour, else through the gateway, once ARP says
    /// where.
    fn send_ip(
        &mut self,
        dst: Ipv4,
        protocol: u8,
        payload: &[u8],
        now: u64,
        out: &mut Vec<Vec<u8>>,
    )
        requires
            ipv4::HEADER + payload@.len() <= 0xFFFF,
        ensures
            final(self)@ == old(self)@.sent_ip(dst@, protocol, payload@, now).0,
            frames_of(final(out)@) == frames_of(old(out)@) + old(self)@.sent_ip(
                dst@,
                protocol,
                payload@,
                now,
            ).1,
    {
        assert(frames_of(out@) + Seq::<Seq<u8>>::empty() =~= frames_of(out@));
        let config = match self.config {
            Some(config) => config,
            None => {
                return;
            },
        };
        let next_hop = if dst.same_network(config.address, config.netmask) {
            dst
        } else {
            match config.gateway {
                Some(gateway) => gateway,
                None => {
                    return;
                },
            }
        };
        let id = self.take_id();
        let packet = ipv4::build(config.address, dst, protocol, id, payload);
        match self.lookup(next_hop) {
            Some(mac) => {
                let frame = ethernet::build(mac, self.mac, ethernet::IPV4, &packet);
                push_frame(out, frame);
                assert(frames_of(out@) =~= frames_of(old(out)@) + seq![frame@]);
                return;
            },
            None => {},
        }
        // One packet waits per next hop: a newer one replaces it.
        drop_waiting_for(&mut self.waiting, next_hop);
        let ghost others = queue_of(self.waiting@);
        let waiting = Waiting { next_hop, packet, queued_at: now, asked_at: now };
        let ghost model = waiting@;
        self.waiting.push(waiting);
        assert(queue_of(self.waiting@) =~= others.push(model));
        match self.arp_request(next_hop) {
            Some(frame) => {
                push_frame(out, frame);
                assert(frames_of(out@) =~= frames_of(old(out)@) + seq![frame@]);
            },
            None => {},
        }
    }

    /// Sends a ping to `target`, number `seq`. Returns frames to send: the ping, or an ARP
    /// request first. Nothing without an address of our own, or a way to `target`.
    pub fn ping(&mut self, target: Ipv4, seq: u16, now: u64) -> (r: Vec<Vec<u8>>)
        requires
            old(self).wf(),
            now <= LATEST,
        ensures
            final(self).wf(),
            final(self)@ == old(self)@.pinged(target@, seq, now).0,
            frames_of(r@) == old(self)@.pinged(target@, seq, now).1,
    {
        proof {
            pinging_keeps_it_valid(old(self)@, target@, seq, now);
        }
        let data = make_ping_data();
        let request = Echo { kind: icmp::ECHO_REQUEST, id: self.ping_id, seq, data: &data };
        let echo = request.to_bytes();
        forget_ping(&mut self.pings, seq);
        self.pings.push((seq, now));
        let mut out: Vec<Vec<u8>> = Vec::new();
        self.send_ip(target, ipv4::ICMP, &echo, now, &mut out);
        assert(frames_of(out@) =~= old(self)@.pinged(target@, seq, now).1);
        out
    }

    /// Remembers where `ip` is, and sends what was waiting for it.
    fn learn(&mut self, ip: Ipv4, mac: Mac, out: &mut Vec<Vec<u8>>)
        ensures
            final(self)@ == old(self)@.learning(ip@, mac@).0,
            frames_of(final(out)@) == frames_of(old(out)@) + old(self)@.learning(ip@, mac@).1,
    {
        forget_neighbour(&mut self.arp, ip);
        let ghost others = neighbours_of(self.arp@);
        if self.arp.len() == ARP_CACHE {
            let _ = self.arp.remove(0);
            assert(neighbours_of(self.arp@) =~= others.remove(0));
        }
        let ghost room = neighbours_of(self.arp@);
        self.arp.push((ip, mac));
        assert(neighbours_of(self.arp@) =~= room.push((ip@, mac@)));
        let ghost all = queue_of(self.waiting@);
        let ghost ready = hop_is(ip@);
        let ghost sent = frames_of(out@);
        let ghost ours = self.mac@;
        proof {
            lemma_filter_none(all, ready);
        }
        assert(frames_of(out@) =~= sent + going(all.subrange(0, 0).filter(ready), mac@, ours));
        let mut i: usize = 0;
        while i < self.waiting.len()
            invariant
                i <= self.waiting@.len(),
                all == queue_of(self.waiting@),
                ours == self.mac@,
                ready == hop_is(ip@),
                frames_of(out@) == sent + going(
                    all.subrange(0, i as int).filter(ready),
                    mac@,
                    ours,
                ),
            decreases self.waiting@.len() - i,
        {
            let ghost so_far = all.subrange(0, i as int).filter(ready);
            proof {
                lemma_filter_step(all, i as int, ready);
                assert(all[i as int] == self.waiting@[i as int]@);
            }
            if self.waiting[i].next_hop == ip {
                let frame = ethernet::build(
                    mac,
                    self.mac,
                    ethernet::IPV4,
                    &self.waiting[i].packet,
                );
                push_frame(out, frame);
                assert(going(so_far.push(all[i as int]), mac@, ours) =~= going(
                    so_far,
                    mac@,
                    ours,
                ).push(frame@));
                assert(frames_of(out@) =~= sent + going(so_far.push(all[i as int]), mac@, ours));
            }
            i += 1;
        }
        assert(all.subrange(0, i as int) =~= all);
        drop_waiting_for(&mut self.waiting, ip);
        assert(going(all.filter(ready), mac@, ours) =~= old(self)@.learning(ip@, mac@).1);
    }

    fn receive_arp(&mut self, heard: Arp, out: &mut Vec<Vec<u8>>)
        ensures
            final(self)@ == old(self)@.heard_arp(heard@).0,
            frames_of(final(out)@) == frames_of(old(out)@) + old(self)@.heard_arp(heard@).1,
    {
        assert(frames_of(out@) + Seq::<Seq<u8>>::empty() =~= frames_of(out@));
        let config = match self.config {
            Some(config) => config,
            None => {
                return;
            },
        };
        if heard.sender_ip != Ipv4::unspecified() {
            self.learn(heard.sender_ip, heard.sender_mac, out);
        }
        if heard.op == arp::REQUEST && heard.target_ip == config.address {
            let reply = Arp {
                op: arp::REPLY,
                sender_mac: self.mac,
                sender_ip: config.address,
                target_mac: heard.sender_mac,
                target_ip: heard.sender_ip,
            };
            let packet = reply.to_bytes();
            let frame = ethernet::build(heard.sender_mac, self.mac, ethernet::ARP, &packet);
            push_frame(out, frame);
            assert(frames_of(out@) =~= frames_of(old(out)@) + old(self)@.heard_arp(heard@).1);
        }
    }

    fn receive_echo(
        &mut self,
        from: Mac,
        src: Ipv4,
        config: Config,
        echo: Echo<'_>,
        now: u64,
        out: &mut Vec<Vec<u8>>,
    )
        requires
            old(self)@.config == Some(config@),
            echo.kind == icmp::ECHO_REQUEST || echo.kind == icmp::ECHO_REPLY,
            ipv4::HEADER + 8 + echo.data@.len() <= 0xFFFF,
        ensures
            final(self)@ == old(self)@.got_echo(from@, src@, echo@, now).0,
            frames_of(final(out)@) == frames_of(old(out)@) + old(self)@.got_echo(
                from@,
                src@,
                echo@,
                now,
            ).1,
    {
        assert(frames_of(out@) + Seq::<Seq<u8>>::empty() =~= frames_of(out@));
        if echo.kind == icmp::ECHO_REQUEST {
            // The asker is a neighbour, or behind the router it came through: either way
            // the answer goes back to the MAC it came from.
            if config.address.same_network(src, config.netmask) {
                self.learn(src, from, out);
            }
            let reply = Echo { kind: icmp::ECHO_REPLY, id: echo.id, seq: echo.seq, data: echo.data };
            let message = reply.to_bytes();
            let id = self.take_id();
            let answer = ipv4::build(config.address, src, ipv4::ICMP, id, &message);
            let frame = ethernet::build(from, self.mac, ethernet::IPV4, &answer);
            push_frame(out, frame);
            assert(frames_of(out@) =~= frames_of(old(out)@) + old(self)@.got_echo(
                from@,
                src@,
                echo@,
                now,
            ).1);
        } else if echo.id == self.ping_id {
            let place = find_ping(&self.pings, echo.seq);
            if place < self.pings.len() {
                let (seq, went) = self.pings.remove(place);
                let rtt_us = if now >= went {
                    now - went
                } else {
                    0
                };
                let event = Event::PingReply { from: src, seq, rtt_us };
                self.events.push(event);
                assert(self@.events =~= old(self)@.events.push(event@));
            }
        }
    }

    fn receive_ipv4(
        &mut self,
        from: Mac,
        packet: ipv4::Packet<'_>,
        now: u64,
        out: &mut Vec<Vec<u8>>,
    )
        requires
            now <= LATEST,
            packet.payload@.len() <= 0xFFFF - ipv4::HEADER,
        ensures
            final(self)@ == old(self)@.got_packet(from@, packet@, now).0,
            frames_of(final(out)@) == frames_of(old(out)@) + old(self)@.got_packet(
                from@,
                packet@,
                now,
            ).1,
    {
        assert(frames_of(out@) + Seq::<Seq<u8>>::empty() =~= frames_of(out@));
        // DHCP answers come before we have an address, to it or broadcast.
        if packet.protocol == ipv4::UDP {
            match udp::parse(packet.payload, packet.src, packet.dst) {
                Some(datagram) => {
                    if datagram.dst_port == dhcp::CLIENT_PORT && datagram.src_port
                        == dhcp::SERVER_PORT {
                        self.receive_dhcp(datagram.payload, now, out);
                    }
                },
                None => {},
            }
            return;
        }
        let config = match self.config {
            Some(config) => config,
            None => {
                return;
            },
        };
        if packet.dst != config.address || packet.protocol != ipv4::ICMP {
            return;
        }
        match Echo::parse(packet.payload) {
            Some(echo) => {
                self.receive_echo(from, packet.src, config, echo, now, out);
            },
            None => {},
        }
    }

    fn receive_dhcp(&mut self, payload: &[u8], now: u64, out: &mut Vec<Vec<u8>>)
        requires
            now <= LATEST,
        ensures
            final(self)@ == old(self)@.got_dhcp(payload@, now).0,
            frames_of(final(out)@) == frames_of(old(out)@) + old(self)@.got_dhcp(payload@, now).1,
    {
        assert(frames_of(out@) + Seq::<Seq<u8>>::empty() =~= frames_of(out@));
        match self.dhcp {
            Dhcp::Bound { .. } => {},
            Dhcp::Discovering { xid, .. } => {
                let reply = match dhcp::parse_reply(payload, xid, self.mac) {
                    Some(reply) => reply,
                    None => {
                        return;
                    },
                };
                match (reply.kind, reply.server) {
                    (dhcp::Kind::Offer, Some(server)) => {
                        self.send_request(xid, reply.address, server, 1, now, out);
                    },
                    _ => {},
                }
            },
            Dhcp::Requesting { xid, server, .. } => {
                let reply = match dhcp::parse_reply(payload, xid, self.mac) {
                    Some(reply) => reply,
                    None => {
                        return;
                    },
                };
                match reply.kind {
                    dhcp::Kind::Ack => {
                        self.bind(reply, server, now);
                    },
                    dhcp::Kind::Nak => {
                        if self.config.is_some() {
                            self.events.push(Event::Unconfigured);
                            assert(self@.events =~= old(self)@.events.push(
                                EventModel::Unconfigured,
                            ));
                        }
                        self.config = None;
                        let xid = self.next_xid();
                        self.dhcp = Dhcp::Discovering { xid, next_try: now };
                    },
                    _ => {},
                }
            },
        }
    }

    /// Takes the address that `reply` gives.
    fn bind(&mut self, reply: dhcp::Reply, server: Ipv4, now: u64)
        requires
            now <= LATEST,
        ensures
            final(self)@ == old(self)@.bound(reply@, server@, now),
    {
        let lease_secs: u32 = match reply.lease_secs {
            Some(secs) => secs,
            None => 3600,
        };
        let netmask = match reply.netmask {
            Some(netmask) => netmask,
            None => {
                let class_c = Ipv4([255, 255, 255, 0]);
                assert(class_c@ =~= seq![255u8, 255, 255, 0]);
                class_c
            },
        };
        let config = Config {
            address: reply.address,
            netmask,
            gateway: reply.router,
            dns: reply.dns,
            lease_secs,
        };
        let half: u64 = lease_secs as u64 * 500_000;
        let renew_in: u64 = if half > MIN_RENEW_US {
            half
        } else {
            MIN_RENEW_US
        };
        let server = match reply.server {
            Some(server) => server,
            None => server,
        };
        self.dhcp = Dhcp::Bound { server, renew_at: now + renew_in };
        let news = match self.config {
            Some(old) => !same_config(&old, &config),
            None => true,
        };
        if news {
            self.config = Some(config);
            let event = Event::Configured(config);
            self.events.push(event);
            assert(self@.events =~= old(self)@.events.push(event@));
        }
    }

    /// Takes a frame that arrived. Returns frames to send in answer.
    pub fn receive(&mut self, data: &[u8], now: u64) -> (r: Vec<Vec<u8>>)
        requires
            old(self).wf(),
            now <= LATEST,
        ensures
            final(self).wf(),
            final(self)@ == old(self)@.received(data@, now).0,
            frames_of(r@) == old(self)@.received(data@, now).1,
    {
        proof {
            receiving_keeps_it_valid(old(self)@, data@, now);
        }
        let mut out: Vec<Vec<u8>> = Vec::new();
        assert(frames_of(out@) =~= Seq::<Seq<u8>>::empty());
        assert(forall|s: Seq<Seq<u8>>| #[trigger] (frames_of(out@) + s) =~= s);
        let frame = match ethernet::parse(data) {
            Some(frame) => frame,
            None => {
                return out;
            },
        };
        if frame.dst != self.mac && frame.dst != Mac::broadcast() {
            return out;
        }
        if frame.ethertype == ethernet::ARP {
            match Arp::parse(frame.payload) {
                Some(heard) => {
                    self.receive_arp(heard, &mut out);
                },
                None => {},
            }
        } else if frame.ethertype == ethernet::IPV4 {
            match ipv4::parse(frame.payload) {
                Some(packet) => {
                    self.receive_ipv4(frame.src, packet, now, &mut out);
                },
                None => {},
            }
        }
        out
    }
}

/// The frames that packets that waited go in, to `to` from `from`.
spec fn going(ready: Seq<WaitingModel>, to: Seq<u8>, from: Seq<u8>) -> Seq<Seq<u8>> {
    Seq::new(ready.len(), |i: int| ethernet::built(to, from, 0x0800, ready[i].packet))
}

/// Frames for another MAC address change nothing, and nothing is sent in answer.
pub proof fn frames_for_others_are_ignored(m: InterfaceModel, data: Seq<u8>, now: u64)
    requires
        ethernet::parsed(data) matches Some(frame) ==> frame.dst != m.mac && frame.dst
            != super::broadcast_mac(),
    ensures
        m.received(data, now) == (m, Seq::<Seq<u8>>::empty()),
{
}

/// Without an address, no ping is sent, and neither ARP nor pings are heard or answered.
pub proof fn nothing_is_sent_or_answered_without_an_address(
    m: InterfaceModel,
    target: Seq<u8>,
    seq: u16,
    data: Seq<u8>,
    now: u64,
)
    requires
        m.config is None,
        ethernet::parsed(data) matches Some(frame) && (frame.ethertype == 0x0800 ==> (
        ipv4::parsed(frame.payload) matches Some(packet) ==> packet.protocol != 17)),
    ensures
        m.pinged(target, seq, now).1 == Seq::<Seq<u8>>::empty(),
        m.received(data, now) == (m, Seq::<Seq<u8>>::empty()),
{
}

/// What ARP packet arrives in a frame is the one that was put in it.
proof fn lemma_arp_arrives(
    m: InterfaceModel,
    dst: Seq<u8>,
    src: Seq<u8>,
    heard: arp::ArpModel,
    now: u64,
)
    requires
        dst == m.mac || dst == super::broadcast_mac(),
        dst.len() == 6,
        src.len() == 6,
        heard.wf(),
    ensures
        m.received(ethernet::built(dst, src, 0x0806, heard.packet()), now) == m.heard_arp(
            heard,
        ),
{
    ethernet::frames_round_trip(dst, src, 0x0806, heard.packet());
    let frame = ethernet::parsed(ethernet::built(dst, src, 0x0806, heard.packet()))->0;
    let n = heard.packet().len();
    let padding = frame.payload.subrange(n as int, frame.payload.len() as int);
    assert(frame.payload =~= heard.packet() + padding);
    arp::arp_round_trips(heard, padding);
}

/// What packet arrives in a frame is the one that was put in it.
proof fn lemma_packet_arrives(
    m: InterfaceModel,
    to: Seq<u8>,
    from: Seq<u8>,
    packet: ipv4::PacketModel,
    id: u16,
    now: u64,
)
    requires
        to == m.mac || to == super::broadcast_mac(),
        to.len() == 6,
        from.len() == 6,
        packet.src.len() == 4,
        packet.dst.len() == 4,
        20 + packet.payload.len() <= 0xFFFF,
    ensures
        m.received(
            ethernet::built(
                to,
                from,
                0x0800,
                ipv4::built(packet.src, packet.dst, packet.protocol, id, packet.payload),
            ),
            now,
        ) == m.got_packet(from, packet, now),
{
    let bytes = ipv4::built(packet.src, packet.dst, packet.protocol, id, packet.payload);
    ethernet::frames_round_trip(to, from, 0x0800, bytes);
    let frame = ethernet::parsed(ethernet::built(to, from, 0x0800, bytes))->0;
    let padding = frame.payload.subrange(bytes.len() as int, frame.payload.len() as int);
    assert(frame.payload =~= bytes + padding);
    ipv4::packets_round_trip(
        packet.src,
        packet.dst,
        packet.protocol,
        id,
        packet.payload,
        padding,
    );
}

/// An ARP request for our address is answered, to the one who asked.
pub proof fn arp_requests_for_our_address_are_answered(
    m: InterfaceModel,
    config: ConfigModel,
    dst: Seq<u8>,
    asker_mac: Seq<u8>,
    asker_ip: Seq<u8>,
    now: u64,
)
    requires
        m.mac.len() == 6,
        m.config == Some(config),
        config.address.len() == 4,
        dst == m.mac || dst == super::broadcast_mac(),
        asker_mac.len() == 6,
        asker_ip.len() == 4,
    ensures
        ({
            let request = arp::ArpModel {
                op: 1,
                sender_mac: asker_mac,
                sender_ip: asker_ip,
                target_mac: seq![0u8, 0, 0, 0, 0, 0],
                target_ip: config.address,
            };
            let reply = arp::ArpModel {
                op: 2,
                sender_mac: m.mac,
                sender_ip: config.address,
                target_mac: asker_mac,
                target_ip: asker_ip,
            };
            m.received(
                ethernet::built(dst, asker_mac, 0x0806, request.packet()),
                now,
            ).1.last() == ethernet::built(asker_mac, m.mac, 0x0806, reply.packet())
        }),
{
    let request = arp::ArpModel {
        op: 1,
        sender_mac: asker_mac,
        sender_ip: asker_ip,
        target_mac: seq![0u8, 0, 0, 0, 0, 0],
        target_ip: config.address,
    };
    lemma_arp_arrives(m, dst, asker_mac, request, now);
}

/// A ping to us is answered, to the MAC it came from, with what it carried.
pub proof fn pings_to_us_are_answered(
    m: InterfaceModel,
    config: ConfigModel,
    from: Seq<u8>,
    src: Seq<u8>,
    id: u16,
    echo: icmp::EchoModel,
    now: u64,
)
    requires
        m.mac.len() == 6,
        m.config == Some(config),
        config.address.len() == 4,
        from.len() == 6,
        src.len() == 4,
        echo.kind == 8,
        20 + 8 + echo.data.len() <= 0xFFFF,
    ensures
        ({
            let reply = icmp::EchoModel { kind: 0, ..echo };
            m.received(
                ethernet::built(
                    m.mac,
                    from,
                    0x0800,
                    ipv4::built(src, config.address, 1, id, echo.message()),
                ),
                now,
            ).1.last() == ethernet::built(
                from,
                m.mac,
                0x0800,
                ipv4::built(
                    config.address,
                    src,
                    1,
                    next_id(m.last_id),
                    reply.message(),
                ),
            )
        }),
{
    let packet = ipv4::PacketModel {
        src,
        dst: config.address,
        protocol: 1,
        payload: echo.message(),
    };
    lemma_packet_arrives(m, m.mac, from, packet, id, now);
    icmp::echoes_round_trip(echo);
}

/// A ping that waits goes when its next hop says where it is, and from then on its MAC address
/// is known.
pub proof fn waiting_packets_go_once_the_next_hop_is_known(
    m: InterfaceModel,
    i: int,
    heard: arp::ArpModel,
    dst: Seq<u8>,
    now: u64,
)
    requires
        m.config is Some,
        0 <= i < m.waiting.len(),
        heard.wf(),
        heard.sender_ip == m.waiting[i].next_hop,
        heard.sender_ip != super::no_address(),
        dst == m.mac || dst == super::broadcast_mac(),
        dst.len() == 6,
    ensures
        ({
            let (after, sent) = m.received(
                ethernet::built(dst, heard.sender_mac, 0x0806, heard.packet()),
                now,
            );
            &&& sent.contains(
                ethernet::built(heard.sender_mac, m.mac, 0x0800, m.waiting[i].packet),
            )
            &&& known_mac(after.arp, heard.sender_ip) == Some(heard.sender_mac)
        }),
{
    lemma_arp_arrives(m, dst, heard.sender_mac, heard, now);
    let ip = heard.sender_ip;
    let ready = m.waiting.filter(hop_is(ip));
    assert(hop_is(ip)(m.waiting[i]));
    m.waiting.lemma_filter_contains(hop_is(ip), i);
    let k = choose|k: int| 0 <= k < ready.len() && ready[k] == m.waiting[i];
    let frame = ethernet::built(heard.sender_mac, m.mac, 0x0800, m.waiting[i].packet);
    assert(m.learning(ip, heard.sender_mac).1[k] == frame);
    assert(m.heard_arp(heard).1[k] == frame);
}

/// The answer to a ping is reported with the time it took.
pub proof fn replies_report_the_round_trip(
    m: InterfaceModel,
    config: ConfigModel,
    target: Seq<u8>,
    seq: u16,
    sent_at: u64,
    from: Seq<u8>,
    id: u16,
    data: Seq<u8>,
    now: u64,
)
    requires
        m.mac.len() == 6,
        m.config == Some(config),
        config.address.len() == 4,
        target.len() == 4,
        from.len() == 6,
        20 + 8 + data.len() <= 0xFFFF,
    ensures
        ({
            let pinged = m.pinged(target, seq, sent_at).0;
            let reply = icmp::EchoModel { kind: 0, id: m.ping_id, seq, data };
            pinged.received(
                ethernet::built(
                    m.mac,
                    from,
                    0x0800,
                    ipv4::built(target, config.address, 1, id, reply.message()),
                ),
                now,
            ).0.events == m.events.push(
                EventModel::PingReply { from: target, seq, rtt_us: time_since(sent_at, now) },
            )
        }),
{
    let pinged = m.pinged(target, seq, sent_at).0;
    let reply = icmp::EchoModel { kind: 0, id: m.ping_id, seq, data };
    let packet = ipv4::PacketModel {
        src: target,
        dst: config.address,
        protocol: 1,
        payload: reply.message(),
    };
    lemma_packet_arrives(pinged, m.mac, from, packet, id, now);
    icmp::echoes_round_trip(reply);
    let others = m.pings.filter(not_numbered(seq));
    assert forall|i: int| 0 <= i < others.len() implies (#[trigger] others[i]).0 != seq by {
        let r = lemma_filter_member(m.pings, not_numbered(seq), i);
    }
    lemma_only_last_ping(others.push((seq, sent_at)), seq, 0);
    assert(pinged.pings == others.push((seq, sent_at)));
}

/// A ping that no other shares its number with is found where it is.
proof fn lemma_only_last_ping(pings: Seq<(u16, u64)>, seq: u16, from: int)
    requires
        0 <= from < pings.len(),
        pings.last().0 == seq,
        forall|i: int| 0 <= i < pings.len() - 1 ==> (#[trigger] pings[i]).0 != seq,
    ensures
        ping_place(pings, seq, from) == pings.len() - 1,
    decreases pings.len() - from,
{
    if from < pings.len() - 1 {
        lemma_only_last_ping(pings, seq, from + 1);
    }
}

/// Each packet has the identification after the last one's, from 0 again after 65535; a time
/// since another is how much later it is, if it is later.
pub proof fn identifications_count_up(id: u16, before: u64, after: u64)
    ensures
        id < 65535 ==> next_id(id) == id + 1,
        id == 65535 ==> next_id(id) == 0,
        before <= after ==> before + time_since(before, after) == after,
        after < before ==> time_since(before, after) == 0,
{
}

/// A frame with a DHCP server's message for us.
pub open spec fn from_server(
    to: Seq<u8>,
    server_mac: Seq<u8>,
    src: Seq<u8>,
    dst: Seq<u8>,
    id: u16,
    message: Seq<u8>,
) -> Seq<u8> {
    ethernet::built(
        to,
        server_mac,
        0x0800,
        ipv4::built(
            src,
            dst,
            17,
            id,
            udp::built(src, 67, dst, 68, message),
        ),
    )
}

/// What a DHCP server's message does is up to what it says, not how it got here.
pub proof fn server_messages_arrive(
    m: InterfaceModel,
    to: Seq<u8>,
    server_mac: Seq<u8>,
    src: Seq<u8>,
    dst: Seq<u8>,
    id: u16,
    message: Seq<u8>,
    now: u64,
)
    requires
        m.mac.len() == 6,
        to == m.mac || to == super::broadcast_mac(),
        server_mac.len() == 6,
        src.len() == 4,
        dst.len() == 4,
        20 + 8 + message.len() <= 0xFFFF,
    ensures
        m.received(from_server(to, server_mac, src, dst, id, message), now) == m.got_dhcp(
            message,
            now,
        ),
{
    let datagram = udp::built(src, 67, dst, 68, message);
    let packet = ipv4::PacketModel { src, dst, protocol: 17, payload: datagram };
    lemma_packet_arrives(m, to, server_mac, packet, id, now);
    udp::datagrams_round_trip(
        src,
        67,
        dst,
        68,
        message,
        Seq::empty(),
    );
    assert(datagram + Seq::<u8>::empty() =~= datagram);
}

/// An interface that asks for an address, is offered one and then given it, has it: it asks
/// for what was offered, in the same transaction, and once that is acknowledged it is
/// configured as the server said, and says so if that is news.
pub proof fn dhcp_gives_the_address(
    m: InterfaceModel,
    xid: u32,
    next_try: u64,
    offer: Seq<u8>,
    offered_at: u64,
    ack: Seq<u8>,
    now: u64,
)
    requires
        m.dhcp == (DhcpModel::Discovering { xid, next_try }),
        dhcp::parsed_reply(offer, xid, m.mac) matches Some(reply) && reply.kind
            == dhcp::Kind::Offer && reply.server is Some,
        dhcp::parsed_reply(ack, xid, m.mac) matches Some(reply) && reply.kind == dhcp::Kind::Ack,
    ensures
        ({
            let offered = dhcp::parsed_reply(offer, xid, m.mac)->0;
            let given = dhcp::parsed_reply(ack, xid, m.mac)->0;
            let (requesting, sent) = m.got_dhcp(offer, offered_at);
            let bound = requesting.got_dhcp(ack, now).0;
            &&& sent == seq![
                dhcp_frame(
                    m.mac,
                    next_id(m.last_id),
                    dhcp::message(
                        m.mac,
                        xid,
                        dhcp::Kind::Request,
                        dhcp::request_options(offered.address, offered.server->0),
                    ),
                ),
            ]
            &&& bound.config matches Some(config) && config.address == given.address
                && config.gateway == given.router
            &&& bound.dhcp is Bound
            &&& m.config != bound.config ==> bound.events == m.events.push(
                EventModel::Configured(bound.config->0),
            )
        }),
{
}

/// A refused address is given up, and asked for anew.
pub proof fn a_refused_address_is_given_up(
    m: InterfaceModel,
    nak: Seq<u8>,
    now: u64,
)
    requires
        m.config is Some,
        m.dhcp matches DhcpModel::Requesting { xid, .. } && (dhcp::parsed_reply(
            nak,
            xid,
            m.mac,
        ) matches Some(reply) && reply.kind == dhcp::Kind::Nak),
    ensures
        ({
            let after = m.got_dhcp(nak, now).0;
            &&& after.config is None
            &&& after.events == m.events.push(EventModel::Unconfigured)
            &&& after.dhcp == (DhcpModel::Discovering {
                xid: next_random(m.random),
                next_try: now,
            })
        }),
{
}

} // verus!
