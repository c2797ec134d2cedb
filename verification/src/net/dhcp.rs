//! DHCP, the client's side (RFC 2131): asking for an address (DISCOVER), taking one offered
//! (REQUEST), and reading the server's OFFER, ACK or NAK.

use super::{ipv4_at, Ipv4, Mac};
use crate::bytes;
use vstd::prelude::*;

verus! {

pub const SERVER_PORT: u16 = 67;

pub const CLIENT_PORT: u16 = 68;

#[derive(Clone, Copy, Debug, PartialEq, Eq, Structural)]
pub enum Kind {
    Discover,
    Offer,
    Request,
    Ack,
    Nak,
}

impl Kind {
    /// Its number, in the message type option.
    pub open spec fn number(self) -> u8 {
        match self {
            Kind::Discover => 1,
            Kind::Offer => 2,
            Kind::Request => 3,
            Kind::Ack => 5,
            Kind::Nak => 6,
        }
    }

    pub fn code(self) -> (r: u8)
        ensures
            r == self.number(),
    {
        match self {
            Kind::Discover => 1,
            Kind::Offer => 2,
            Kind::Request => 3,
            Kind::Ack => 5,
            Kind::Nak => 6,
        }
    }
}

/// Fixed BOOTP fields, then the magic cookie that says DHCP options follow.
pub const FIXED: usize = 236;

/// Some servers ignore anything shorter (BOOTP's size).
pub const MIN_LENGTH: usize = 300;

// Options.
pub const PAD: u8 = 0;

pub const SUBNET_MASK: u8 = 1;

pub const ROUTER: u8 = 3;

pub const DNS: u8 = 6;

pub const REQUESTED_IP: u8 = 50;

pub const LEASE_TIME: u8 = 51;

pub const MESSAGE_TYPE: u8 = 53;

pub const SERVER_ID: u8 = 54;

pub const PARAMETERS: u8 = 55;

pub const END: u8 = 255;

/// The magic cookie.
pub open spec fn magic() -> Seq<u8> {
    seq![99u8, 130, 83, 99]
}

/// A message's fixed fields: BOOTREQUEST, Ethernet, 6-byte addresses, no hops; the
/// transaction; no seconds elapsed; a flag to broadcast the answer, since we can't take unicast
/// yet; no addresses yet but `mac`.
pub open spec fn fixed_fields(mac: Seq<u8>, xid: u32) -> Seq<u8> {
    seq![1u8, 1, 6, 0] + bytes::be32_bytes(xid) + seq![0u8, 0, 0x80, 0] + bytes::zeros(16) + mac
        + bytes::zeros(202)
}

/// A message before it is padded: `kind` with its options.
pub open spec fn unpadded(mac: Seq<u8>, xid: u32, kind: Kind, options: Seq<u8>) -> Seq<u8> {
    fixed_fields(mac, xid) + magic() + seq![MESSAGE_TYPE, 1, kind.number()] + options + seq![
        PARAMETERS,
        3,
        SUBNET_MASK,
        ROUTER,
        DNS,
        END,
    ]
}

/// A message from the client: `kind` with its options.
pub open spec fn message(mac: Seq<u8>, xid: u32, kind: Kind, options: Seq<u8>) -> Seq<u8> {
    let m = unpadded(mac, xid, kind, options);
    m + bytes::zeros((MIN_LENGTH - m.len()) as nat)
}

/// The options that ask for `address` from `server`.
pub open spec fn request_options(address: Seq<u8>, server: Seq<u8>) -> Seq<u8> {
    seq![REQUESTED_IP, 4u8] + address + seq![SERVER_ID, 4u8] + server
}

fn build_message(mac: Mac, xid: u32, kind: Kind, options: &[u8]) -> (r: Vec<u8>)
    requires
        options@.len() <= 51,
    ensures
        r@ == message(mac@, xid, kind, options@),
        r@.len() == MIN_LENGTH,
{
    let mut out: Vec<u8> = Vec::new();
    let start: [u8; 4] = [1, 1, 6, 0];
    bytes::push_all(&mut out, &start);
    bytes::push_be32(&mut out, xid);
    let flags: [u8; 4] = [0, 0, 0x80, 0];
    bytes::push_all(&mut out, &flags);
    bytes::pad_to(&mut out, 28, 0);
    bytes::push_all(&mut out, &mac.0);
    // The rest of chaddr, sname, file.
    bytes::pad_to(&mut out, FIXED, 0);
    assert(out@ =~= fixed_fields(mac@, xid));
    let cookie: [u8; 4] = [99, 130, 83, 99];
    bytes::push_all(&mut out, &cookie);
    out.push(MESSAGE_TYPE);
    out.push(1);
    out.push(kind.code());
    bytes::push_all(&mut out, options);
    let wanted: [u8; 6] = [PARAMETERS, 3, SUBNET_MASK, ROUTER, DNS, END];
    bytes::push_all(&mut out, &wanted);
    assert(out@ =~= unpadded(mac@, xid, kind, options@));
    bytes::pad_to(&mut out, MIN_LENGTH, PAD);
    assert(out@ =~= message(mac@, xid, kind, options@));
    out
}

/// Asks any server for an address.
pub fn discover(mac: Mac, xid: u32) -> (r: Vec<u8>)
    ensures
        r@ == message(mac@, xid, Kind::Discover, Seq::empty()),
        r@.len() == MIN_LENGTH,
{
    let none: Vec<u8> = Vec::new();
    assert(none@ =~= Seq::<u8>::empty());
    build_message(mac, xid, Kind::Discover, &none)
}

/// Takes `address`, offered by `server` (or asks it to renew the lease on it).
pub fn request(mac: Mac, xid: u32, address: Ipv4, server: Ipv4) -> (r: Vec<u8>)
    ensures
        r@ == message(mac@, xid, Kind::Request, request_options(address@, server@)),
        r@.len() == MIN_LENGTH,
{
    let mut options: Vec<u8> = Vec::new();
    options.push(REQUESTED_IP);
    options.push(4);
    bytes::push_all(&mut options, &address.0);
    options.push(SERVER_ID);
    options.push(4);
    bytes::push_all(&mut options, &server.0);
    assert(options@ =~= request_options(address@, server@));
    build_message(mac, xid, Kind::Request, &options)
}

/// A server's answer.
#[derive(Clone, Copy, Debug, PartialEq, Eq)]
pub struct Reply {
    pub kind: Kind,
    /// The address offered or given.
    pub address: Ipv4,
    pub server: Option<Ipv4>,
    pub netmask: Option<Ipv4>,
    pub router: Option<Ipv4>,
    pub dns: Option<Ipv4>,
    pub lease_secs: Option<u32>,
}

/// What a server's answer says.
pub struct ReplyModel {
    pub kind: Kind,
    pub address: Seq<u8>,
    pub server: Option<Seq<u8>>,
    pub netmask: Option<Seq<u8>>,
    pub router: Option<Seq<u8>>,
    pub dns: Option<Seq<u8>>,
    pub lease_secs: Option<u32>,
}

impl Reply {
    pub open spec fn view(&self) -> ReplyModel {
        ReplyModel {
            kind: self.kind,
            address: self.address@,
            server: super::address_of(self.server),
            netmask: super::address_of(self.netmask),
            router: super::address_of(self.router),
            dns: super::address_of(self.dns),
            lease_secs: self.lease_secs,
        }
    }
}

/// An option: what it is about, and what it says.
pub struct OptionModel {
    pub code: u8,
    pub value: Seq<u8>,
}

/// The options in `data` from `at` up to the one that ends them, or `None` if one of them
/// runs off the end.
pub open spec fn options_from(data: Seq<u8>, at: int) -> Option<Seq<OptionModel>>
    decreases data.len() - at,
{
    if at >= data.len() || data[at] == END {
        Some(Seq::empty())
    } else if data[at] == PAD {
        options_from(data, at + 1)
    } else if at + 1 >= data.len() || at + 2 + data[at + 1] > data.len() {
        None
    } else {
        let option = OptionModel {
            code: data[at],
            value: data.subrange(at + 2, at + 2 + data[at + 1]),
        };
        match options_from(data, at + 2 + data[at + 1]) {
            Some(rest) => Some(seq![option] + rest),
            None => None,
        }
    }
}

/// What the last option about `code` says, among those of `length` bytes (or of any length).
pub open spec fn last_value(
    options: Seq<OptionModel>,
    code: u8,
    length: Option<nat>,
) -> Option<Seq<u8>>
    decreases options.len(),
{
    if options.len() == 0 {
        None
    } else if options.last().code == code && (length matches Some(n) ==> options.last().value.len()
        == n) {
        Some(options.last().value)
    } else {
        last_value(options.drop_last(), code, length)
    }
}

/// The address that the last option about `code` starts with.
pub open spec fn address_option(options: Seq<OptionModel>, code: u8) -> Option<Seq<u8>> {
    match last_value(options, code, None) {
        Some(value) => if value.len() >= 4 {
            Some(value.subrange(0, 4))
        } else {
            None
        },
        None => None,
    }
}

/// The kind of answer that the last message type says.
pub open spec fn kind_option(options: Seq<OptionModel>) -> Option<Kind> {
    match last_value(options, MESSAGE_TYPE, Some(1)) {
        Some(value) => if value[0] == 2 {
            Some(Kind::Offer)
        } else if value[0] == 5 {
            Some(Kind::Ack)
        } else if value[0] == 6 {
            Some(Kind::Nak)
        } else {
            None
        },
        None => None,
    }
}

/// How long the last lease time says the lease is.
pub open spec fn lease_option(options: Seq<OptionModel>) -> Option<u32> {
    match last_value(options, LEASE_TIME, Some(4)) {
        Some(value) => Some(bytes::be32(value, 0)),
        None => None,
    }
}

/// Whether `data` is a server's message in our transaction `xid`, for `mac`.
pub open spec fn is_reply(data: Seq<u8>, xid: u32, mac: Seq<u8>) -> bool {
    &&& data.len() >= FIXED + 4
    &&& data[0] == 2
    &&& data.subrange(4, 8) == bytes::be32_bytes(xid)
    &&& data.subrange(28, 34) == mac
    &&& data.subrange(236, 240) == magic()
}

/// What `data` says as a server's answer to our transaction `xid`, for `mac`.
pub open spec fn parsed_reply(data: Seq<u8>, xid: u32, mac: Seq<u8>) -> Option<ReplyModel> {
    if !is_reply(data, xid, mac) {
        None
    } else {
        match options_from(data, 240) {
            Some(options) => match kind_option(options) {
                Some(kind) => Some(
                    ReplyModel {
                        kind,
                        address: data.subrange(16, 20),
                        server: address_option(options, SERVER_ID),
                        netmask: address_option(options, SUBNET_MASK),
                        router: address_option(options, ROUTER),
                        dns: address_option(options, DNS),
                        lease_secs: lease_option(options),
                    },
                ),
                None => None,
            },
            None => None,
        }
    }
}

/// What a message type stands for, in an answer.
fn answer_kind(code: u8) -> (r: Option<Kind>)
    ensures
        r == (if code == 2 {
            Some(Kind::Offer)
        } else if code == 5 {
            Some(Kind::Ack)
        } else if code == 6 {
            Some(Kind::Nak)
        } else {
            None::<Kind>
        }),
{
    match code {
        2 => Some(Kind::Offer),
        5 => Some(Kind::Ack),
        6 => Some(Kind::Nak),
        _ => None,
    }
}

/// Whether `data` is a server's message in our transaction `xid`, for `mac`.
fn check_reply(data: &[u8], xid: u32, mac: Mac) -> (r: bool)
    ensures
        r == is_reply(data@, xid, mac@),
{
    if data.len() < FIXED + 4 || data[0] != 2 {
        return false;
    }
    let mut transaction: Vec<u8> = Vec::new();
    bytes::push_be32(&mut transaction, xid);
    assert(transaction@ =~= bytes::be32_bytes(xid));
    let cookie: [u8; 4] = [99, 130, 83, 99];
    assert(cookie@ =~= magic());
    bytes::same_bytes(&data[4..8], &transaction) && bytes::same_bytes(&data[28..34], &mac.0)
        && bytes::same_bytes(&data[FIXED..FIXED + 4], &cookie)
}

/// A server's answer to our transaction `xid`, for `mac`. Anything else (another client's,
/// or not an answer) is `None`.
pub fn parse_reply(data: &[u8], xid: u32, mac: Mac) -> (r: Option<Reply>)
    ensures
        match r {
            Some(reply) => parsed_reply(data@, xid, mac@) == Some(reply@),
            None => parsed_reply(data@, xid, mac@) is None,
        },
{
    if !check_reply(data, xid, mac) {
        return None;
    }
    let mut reply = Reply {
        kind: Kind::Offer,
        address: ipv4_at(data, 16),
        server: None,
        netmask: None,
        router: None,
        dns: None,
        lease_secs: None,
    };
    let mut kind: Option<Kind> = None;
    let mut at: usize = FIXED + 4;
    let ghost mut seen: Seq<OptionModel> = Seq::empty();
    assert(forall|rest: Seq<OptionModel>| #[trigger] (seen + rest) =~= rest);
    while at < data.len() && data[at] != END
        invariant
            at <= data@.len(),
            is_reply(data@, xid, mac@),
            reply.address@ == data@.subrange(16, 20),
            super::address_of(reply.server) == address_option(seen, SERVER_ID),
            super::address_of(reply.netmask) == address_option(seen, SUBNET_MASK),
            super::address_of(reply.router) == address_option(seen, ROUTER),
            super::address_of(reply.dns) == address_option(seen, DNS),
            reply.lease_secs == lease_option(seen),
            kind == kind_option(seen),
            options_from(data@, 240) == (match options_from(data@, at as int) {
                Some(rest) => Some(seen + rest),
                None => None,
            }),
        decreases data@.len() - at,
    {
        let code = data[at];
        if code == PAD {
            at += 1;
        } else {
            if data.len() - at < 2 {
                return None;
            }
            let length: usize = data[at + 1] as usize;
            if data.len() - at - 2 < length {
                return None;
            }
            let value = &data[at + 2..at + 2 + length];
            let address: Option<Ipv4> = if length >= 4 {
                Some(ipv4_at(value, 0))
            } else {
                None
            };
            let ghost option = OptionModel { code, value: value@ };
            let ghost before = seen;
            proof {
                seen = seen.push(option);
                assert(seen.last() == option);
                assert(seen.drop_last() =~= before);
                if let Some(rest) = options_from(data@, at + 2 + length) {
                    assert(before + (seq![option] + rest) =~= seen + rest);
                }
            }
            if code == MESSAGE_TYPE {
                if length == 1 {
                    kind = answer_kind(value[0]);
                }
            } else if code == SUBNET_MASK {
                reply.netmask = address;
            } else if code == ROUTER {
                reply.router = address;
            } else if code == DNS {
                reply.dns = address;
            } else if code == SERVER_ID {
                reply.server = address;
            } else if code == LEASE_TIME && length == 4 {
                reply.lease_secs = Some(bytes::be32_at(value, 0));
            }
            at = at + 2 + length;
        }
    }
    assert(options_from(data@, 240) == Some(seen + Seq::<OptionModel>::empty()));
    assert(seen + Seq::<OptionModel>::empty() =~= seen);
    reply.kind = kind?;
    Some(reply)
}

/// A client's own message is never taken for an answer.
pub proof fn requests_are_not_replies(
    mac: Seq<u8>,
    xid: u32,
    kind: Kind,
    options: Seq<u8>,
    other_xid: u32,
    other_mac: Seq<u8>,
)
    requires
        mac.len() == 6,
        options.len() <= 51,
    ensures
        parsed_reply(message(mac, xid, kind, options), other_xid, other_mac) is None,
{
    assert(message(mac, xid, kind, options)[0] == 1);
}

} // verus!
