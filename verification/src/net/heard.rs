//! What is learned from the hosts around, and what isn't.

use super::arp;
use super::icmp;
use super::interface;
use super::interface::{ConfigModel, DhcpModel, InterfaceModel};
use super::served;
use super::served::DhcpMessage;
use super::wire;
use vstd::prelude::*;

verus! {

/// A list that nothing is taken from is as it was.
proof fn lemma_all_kept<A>(s: Seq<A>, keep: spec_fn(A) -> bool)
    ensures
        s.filter(keep).len() == s.len() ==> s.filter(keep) == s,
    decreases s.len(),
{
    reveal(Seq::filter);
    if s.len() > 0 {
        let front = s.drop_last();
        lemma_all_kept(front, keep);
        front.lemma_filter_len(keep);
        assert(front.push(s.last()) =~= s);
    } else {
        assert(s.filter(keep) =~= s);
    }
}

/// A neighbour that is heard of is remembered, as the newest, in place of what was known of it.
/// The others stay remembered too, up to 16 in all: the oldest is forgotten for one more.
pub proof fn neighbours_are_remembered(
    neighbours: Seq<(Seq<u8>, Seq<u8>)>,
    ip: Seq<u8>,
    mac: Seq<u8>,
    k: int,
)
    requires
        neighbours.len() <= 16,
    ensures
        ({
            let after = interface::learned(neighbours, ip, mac);
            &&& after.len() <= 16
            &&& after.last() == (ip, mac)
            &&& interface::known_mac(after, ip) == Some(mac)
            &&& forall|j: int|
                0 <= j < after.len() - 1 ==> neighbours.contains(#[trigger] after[j]) && after[j].0
                    != ip
            &&& 0 <= k < neighbours.len() && neighbours[k].0 != ip ==> after.contains(neighbours[k])
                || (k == 0 && neighbours.len() == 16 && forall|j: int|
                0 <= j < 16 ==> (#[trigger] neighbours[j]).0 != ip)
            &&& neighbours.len() == 16 && (forall|j: int|
                0 <= j < 16 ==> (#[trigger] neighbours[j]).0 != ip) ==> after
                == neighbours.subrange(1, 16).push((ip, mac))
        }),
{
    let keep = interface::not_at(ip);
    let others = neighbours.filter(keep);
    let after = interface::learned(neighbours, ip, mac);
    neighbours.lemma_filter_len(keep);
    let there = 0 <= k < neighbours.len() && neighbours[k].0 != ip;
    if there {
        neighbours.lemma_filter_contains(keep, k);
    }
    lemma_all_kept(neighbours, keep);
    assert forall|j: int| 0 <= j < others.len() implies neighbours.contains(#[trigger] others[j])
        && others[j].0 != ip by {
        let r = interface::lemma_filter_member(neighbours, keep, j);
    }
    let at = choose|at: int| 0 <= at < others.len() && others[at] == neighbours[k];
    let full = others.len() == 16;
    assert forall|j: int| 0 <= j < after.len() - 1 implies neighbours.contains(#[trigger] after[j])
        && after[j].0 != ip by {
        if full {
            assert(after[j] == others[j + 1]);
        } else {
            assert(after[j] == others[j]);
        }
    }
    if full {
        assert(others == neighbours);
        assert forall|j: int| 0 <= j < 16 implies (#[trigger] neighbours[j]).0 != ip by {
            assert(others[j].0 != ip);
        }
        assert(after =~= neighbours.subrange(1, 16).push((ip, mac)));
        if there && k > 0 {
            assert(after[k - 1] == neighbours[k]);
        }
    } else {
        if there {
            assert(after[at] == neighbours[k]);
        }
        if neighbours.len() == 16 && forall|j: int|
            0 <= j < 16 ==> (#[trigger] neighbours[j]).0 != ip {
            lemma_none_dropped(neighbours, keep);
        }
    }
}

proof fn lemma_none_dropped<A>(s: Seq<A>, keep: spec_fn(A) -> bool)
    requires
        forall|i: int| 0 <= i < s.len() ==> keep(#[trigger] s[i]),
    ensures
        s.filter(keep) == s,
    decreases s.len(),
{
    reveal(Seq::filter);
    if s.len() > 0 {
        let front = s.drop_last();
        assert forall|i: int| 0 <= i < front.len() implies keep(#[trigger] front[i]) by {
            assert(front[i] == s[i]);
        }
        lemma_none_dropped(front, keep);
        assert(keep(s[s.len() - 1]));
        assert(front.push(s.last()) =~= s);
    } else {
        assert(s.filter(keep) =~= s);
    }
}

/// Who sends an ARP packet is remembered, whatever it says, unless it has no address yet. Nothing
/// waits for it any more, and what waits for others still does. Without an address of our own
/// nothing is heard.
pub proof fn senders_are_remembered(m: InterfaceModel, heard: arp::ArpModel, i: int)
    ensures
        ({
            let (after, sent) = m.heard_arp(heard);
            &&& m.config is None ==> after == m && sent == Seq::<Seq<u8>>::empty()
            &&& m.config is Some && heard.sender_ip != seq![0u8, 0, 0, 0] ==> {
                &&& interface::known_mac(after.arp, heard.sender_ip) == Some(heard.sender_mac)
                &&& 0 <= i < m.waiting.len() && m.waiting[i].next_hop != heard.sender_ip
                    ==> after.waiting.contains(m.waiting[i])
                &&& forall|k: int|
                    0 <= k < after.waiting.len() ==> (#[trigger] after.waiting[k]).next_hop
                        != heard.sender_ip
            }
            &&& heard.sender_ip == seq![0u8, 0, 0, 0] ==> after == m
            &&& after.config == m.config
            &&& after.dhcp == m.dhcp
            &&& after.pings == m.pings
            &&& after.events == m.events
        }),
{
    assert(super::no_address() =~= seq![0u8, 0, 0, 0]);
    let ip = heard.sender_ip;
    let keep = interface::hop_is_not(ip);
    let kept = m.waiting.filter(keep);
    if 0 <= i < m.waiting.len() && m.waiting[i].next_hop != ip {
        m.waiting.lemma_filter_contains(keep, i);
    }
    assert forall|k: int| 0 <= k < kept.len() implies (#[trigger] kept[k]).next_hop != ip by {
        let r = interface::lemma_filter_member(m.waiting, keep, k);
    }
}

/// A ping teaches where a neighbour is. One from another network doesn't: it came through a router.
pub proof fn pings_from_neighbours_teach(
    m: InterfaceModel,
    config: ConfigModel,
    from: Seq<u8>,
    src: Seq<u8>,
    echo: icmp::EchoModel,
    now: u64,
)
    requires
        m.config == Some(config),
        config.address.len() == 4,
        config.netmask.len() == 4,
        src.len() == 4,
        echo.kind == 8,
    ensures
        ({
            let after = m.got_echo(from, src, echo, now).0;
            &&& wire::same_network(src, config.address, config.netmask)
                ==> interface::known_mac(after.arp, src) == Some(from)
            &&& !wire::same_network(src, config.address, config.netmask) ==> after.arp == m.arp
                && after.waiting == m.waiting
            &&& after.events == m.events
            &&& after.pings == m.pings
        }),
{
    wire::lemma_same_network(config.address, src, config.netmask);
    wire::lemma_same_network(src, config.address, config.netmask);
}

proof fn lemma_no_ping(pings: Seq<(u16, u64)>, seq: u16, from: int)
    requires
        0 <= from <= pings.len(),
        forall|i: int| from <= i < pings.len() ==> (#[trigger] pings[i]).0 != seq,
    ensures
        interface::ping_place(pings, seq, from) == pings.len(),
    decreases pings.len() - from,
{
    if from < pings.len() {
        assert(pings[from].0 != seq);
        lemma_no_ping(pings, seq, from + 1);
    }
}

/// An answer to a ping that isn't waited for, or to another program's, is ignored.
pub proof fn stray_answers_are_ignored(
    m: InterfaceModel,
    from: Seq<u8>,
    src: Seq<u8>,
    echo: icmp::EchoModel,
    now: u64,
)
    requires
        echo.kind == 0,
        echo.id != m.ping_id || forall|i: int|
            0 <= i < m.pings.len() ==> (#[trigger] m.pings[i]).0 != echo.seq,
    ensures
        m.got_echo(from, src, echo, now) == (m, Seq::<Seq<u8>>::empty()),
{
    if echo.id == m.ping_id {
        lemma_no_ping(m.pings, echo.seq, 0);
    }
}

/// Who has an address and isn't about to renew it doesn't take another. Who looks for a server
/// takes nothing but offers, and none without a server's address; who has asked for an address
/// takes nothing but the answer. What is for others is never taken.
pub proof fn other_dhcp_messages_are_ignored(m: InterfaceModel, message: DhcpMessage, now: u64)
    requires
        message.valid(),
    ensures
        ({
            let got = m.got_dhcp(message.spelled(), now);
            let same = (m, Seq::<Seq<u8>>::empty());
            &&& m.dhcp is Bound ==> got == same
            &&& message.op != 2 || message.mac != m.mac || message.is_silent_on(53) ==> got == same
            &&& (m.dhcp matches DhcpModel::Discovering { xid, .. } && (xid != message.xid
                || message.is_kind(5) || message.is_kind(6) || (message.is_kind(2)
                && message.is_silent_on(54)))) ==> got == same
            &&& (m.dhcp matches DhcpModel::Requesting { xid, .. } && (xid != message.xid
                || message.is_kind(2))) ==> got == same
        }),
{
    match m.dhcp {
        DhcpModel::Bound { .. } => {},
        DhcpModel::Discovering { xid, .. } => {
            served::replies_say_what_their_options_do(message, xid, m.mac);
        },
        DhcpModel::Requesting { xid, .. } => {
            served::replies_say_what_their_options_do(message, xid, m.mac);
        },
    }
}

} // verus!
