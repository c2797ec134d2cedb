//! Descriptors and requests as they go over the bus, byte by byte, and what is made of them.

use super::{
    Class,
    ConfigurationModel,
    DescriptorError,
    DescriptorType,
    DeviceDescriptor,
    Direction,
    Endpoint,
    EndpointType,
    HubDescriptor,
    InterfaceModel,
    PortFeature,
    PortStatus,
    SetupPacket,
    Speed,
};
use crate::bytes;
use vstd::prelude::*;

verus! {

/// An endpoint's descriptor: its address, its attributes, its packet size (with the number of
/// extra transactions in the top five bits), how often to poll it, and what more it may say.
pub struct EndpointDescriptor {
    pub address: u8,
    pub attributes: u8,
    pub packet: u16,
    pub interval: u8,
    pub more: Seq<u8>,
}

impl EndpointDescriptor {
    pub open spec fn spelled(self) -> Seq<u8> {
        seq![(7 + self.more.len()) as u8, 5, self.address, self.attributes] + (bytes::le16_bytes(
            self.packet,
        ) + (seq![self.interval] + self.more))
    }

    /// Which endpoint it is: the number in the low four bits of its address and the direction in
    /// the top one, the kind in the low two bits of its attributes, and the size in the
    /// low eleven bits of its packet size.
    pub open spec fn endpoint(self) -> Endpoint {
        Endpoint {
            number: self.address % 16,
            direction: (if self.address < 128 {
                Direction::Out
            } else {
                Direction::In
            }),
            kind: (match self.attributes % 4 {
                0u8 => EndpointType::Control,
                1u8 => EndpointType::Isochronous,
                2u8 => EndpointType::Bulk,
                _ => EndpointType::Interrupt,
            }),
            max_packet_size: self.packet % 2048,
            interval: self.interval,
        }
    }
}

/// An interface's descriptor.
pub struct InterfaceDescriptor {
    pub number: u8,
    pub alternate: u8,
    pub endpoints: u8,
    pub class: u8,
    pub subclass: u8,
    pub protocol: u8,
    pub name: u8,
    pub more: Seq<u8>,
}

impl InterfaceDescriptor {
    pub open spec fn spelled(self) -> Seq<u8> {
        seq![
            (9 + self.more.len()) as u8,
            4,
            self.number,
            self.alternate,
            self.endpoints,
            self.class,
            self.subclass,
            self.protocol,
            self.name,
        ] + self.more
    }
}

/// A descriptor that comes after an interface's: an endpoint's, or of another kind.
pub enum Part {
    Endpoint(EndpointDescriptor),
    Other { kind: u8, body: Seq<u8> },
}

impl Part {
    pub open spec fn valid(self) -> bool {
        match self {
            Part::Endpoint(endpoint) => endpoint.more.len() <= 248,
            Part::Other { kind, body } => kind != 4 && kind != 5 && body.len() <= 253,
        }
    }

    pub open spec fn spelled(self) -> Seq<u8> {
        match self {
            Part::Endpoint(endpoint) => endpoint.spelled(),
            Part::Other { kind, body } => seq![(2 + body.len()) as u8, kind] + body,
        }
    }
}

/// An interface's descriptor and what comes after it.
pub struct Group {
    pub interface: InterfaceDescriptor,
    pub parts: Seq<Part>,
}

/// The endpoints among descriptors, in order.
pub open spec fn endpoints_told(parts: Seq<Part>) -> Seq<Endpoint> {
    parts.filter(|p: Part| p is Endpoint).map_values(|p: Part| p->Endpoint_0.endpoint())
}

impl Group {
    pub open spec fn valid(self) -> bool {
        &&& self.interface.more.len() <= 246
        &&& forall|i: int| 0 <= i < self.parts.len() ==> (#[trigger] self.parts[i]).valid()
    }

    /// The interface, with its endpoints.
    pub open spec fn told(self) -> InterfaceModel {
        InterfaceModel {
            number: self.interface.number,
            alternate: self.interface.alternate,
            class: Class(self.interface.class),
            subclass: self.interface.subclass,
            protocol: self.interface.protocol,
            endpoints: endpoints_told(self.parts),
        }
    }
}

/// Descriptors one after another.
pub open spec fn joined(list: Seq<Seq<u8>>) -> Seq<u8>
    decreases list.len(),
{
    if list.len() == 0 {
        Seq::empty()
    } else {
        joined(list.drop_last()) + list.last()
    }
}

pub open spec fn spelled_parts(parts: Seq<Part>) -> Seq<Seq<u8>> {
    parts.map_values(|p: Part| p.spelled())
}

pub open spec fn spelled_groups(groups: Seq<Group>) -> Seq<Seq<u8>>
    decreases groups.len(),
{
    if groups.len() == 0 {
        Seq::empty()
    } else {
        spelled_groups(groups.drop_last()) + (seq![groups.last().interface.spelled()]
            + spelled_parts(groups.last().parts))
    }
}

/// A whole configuration: the value that chooses it, what more its header says, descriptors
/// before the first interface's (that of a group of interfaces, say), and its interfaces.
pub struct WholeConfiguration {
    pub value: u8,
    pub interfaces: u8,
    pub name: u8,
    pub attributes: u8,
    pub power: u8,
    pub more: Seq<u8>,
    pub before: Seq<Part>,
    pub groups: Seq<Group>,
}

impl WholeConfiguration {
    pub open spec fn descriptors(self) -> Seq<Seq<u8>> {
        spelled_parts(self.before) + spelled_groups(self.groups)
    }

    pub open spec fn length(self) -> int {
        9int + self.more.len() + joined(self.descriptors()).len()
    }

    pub open spec fn valid(self) -> bool {
        &&& self.more.len() <= 246
        &&& self.length() <= 0xFFFF
        &&& forall|i: int| 0 <= i < self.before.len() ==> (#[trigger] self.before[i]).valid()
        &&& forall|i: int| 0 <= i < self.groups.len() ==> (#[trigger] self.groups[i]).valid()
    }

    pub open spec fn header(self) -> Seq<u8> {
        seq![(9 + self.more.len()) as u8, 2] + (bytes::le16_bytes(self.length() as u16) + (seq![
            self.interfaces,
            self.value,
            self.name,
            self.attributes,
            self.power,
        ] + self.more))
    }

    pub open spec fn spelled(self) -> Seq<u8> {
        self.header() + joined(self.descriptors())
    }
}

/// Whether each descriptor says how long it is.
spec fn measured(list: Seq<Seq<u8>>) -> bool {
    forall|i: int|
        0 <= i < list.len() ==> 2 <= (#[trigger] list[i]).len() <= 255 && list[i][0]
            == list[i].len()
}

proof fn lemma_joined_first(list: Seq<Seq<u8>>)
    requires
        list.len() > 0,
    ensures
        joined(list) == list[0] + joined(list.drop_first()),
    decreases list.len(),
{
    if list.len() == 1 {
        reveal_with_fuel(joined, 2);
        assert(list.drop_last() =~= Seq::<Seq<u8>>::empty());
        assert(list.drop_first() =~= Seq::<Seq<u8>>::empty());
        assert(joined(list) =~= list[0]);
        assert(list[0] + joined(list.drop_first()) =~= list[0]);
    } else {
        lemma_joined_first(list.drop_last());
        assert(list.drop_last().drop_first() =~= list.drop_first().drop_last());
        assert(joined(list) =~= list[0] + joined(list.drop_first()));
    }
}

/// Descriptors one after another come apart again.
proof fn lemma_come_apart(data: Seq<u8>, at: int, list: Seq<Seq<u8>>, total: int)
    requires
        measured(list),
        bytes::stands_at(data, at, joined(list)),
        total == at + joined(list).len(),
    ensures
        super::descriptors_from(data, at, total) == Some(list),
    decreases list.len(),
{
    if list.len() == 0 {
        assert(list =~= Seq::empty());
    } else {
        let first = list[0];
        let more = list.drop_first();
        lemma_joined_first(list);
        bytes::lemma_stands_in_two(data, at, first, joined(more));
        bytes::lemma_stands_byte(data, at, first, 0);
        assert forall|i: int| 0 <= i < more.len() implies 2 <= (#[trigger] more[i]).len() <= 255
            && more[i][0] == more[i].len() by {
            assert(more[i] == list[i + 1]);
        }
        lemma_come_apart(data, at + first.len(), more, total);
        assert(seq![first] + more =~= list);
    }
}

proof fn lemma_endpoint(d: EndpointDescriptor)
    requires
        d.more.len() <= 248,
    ensures
        super::endpoint_in(d.spelled()) == d.endpoint(),
        d.spelled().len() == 7 + d.more.len(),
        d.spelled()[0] == d.spelled().len(),
        d.spelled()[1] == 5,
{
    let s = d.spelled();
    let start = seq![(7 + d.more.len()) as u8, 5, d.address, d.attributes];
    let rest = seq![d.interval] + d.more;
    assert(s.subrange(0, s.len() as int) =~= s);
    bytes::lemma_stands_in_two(s, 0, start, bytes::le16_bytes(d.packet) + rest);
    bytes::lemma_stands_in_two(s, 4, bytes::le16_bytes(d.packet), rest);
    bytes::lemma_stands_words(s, 4, d.packet, 0);
}

/// What an endpoint, or another descriptor, adds to the interface before it.
proof fn lemma_parts(list: Seq<Seq<u8>>, parts: Seq<Part>)
    requires
        forall|i: int| 0 <= i < parts.len() ==> (#[trigger] parts[i]).valid(),
    ensures
        ({
            let before = super::interfaces_in(list);
            let after = super::interfaces_in(list + spelled_parts(parts));
            if before.len() == 0 {
                after.len() == 0
            } else {
                after == before.update(
                    before.len() - 1,
                    InterfaceModel {
                        endpoints: before.last().endpoints + endpoints_told(parts),
                        ..before.last()
                    },
                )
            }
        }),
    decreases parts.len(),
{
    reveal(Seq::filter);
    let is_endpoint = |p: Part| p is Endpoint;
    let told = |p: Part| p->Endpoint_0.endpoint();
    let before = super::interfaces_in(list);
    let whole = list + spelled_parts(parts);
    if parts.len() == 0 {
        assert(whole =~= list);
        assert(endpoints_told(parts) =~= Seq::empty());
        if before.len() > 0 {
            assert(before.last().endpoints + endpoints_told(parts) =~= before.last().endpoints);
            assert(before =~= before.update(before.len() - 1, before.last()));
        }
    } else {
        let front = parts.drop_last();
        let last = parts.last();
        assert(last == parts[parts.len() - 1] && last.valid());
        assert forall|i: int| 0 <= i < front.len() implies (#[trigger] front[i]).valid() by {
            assert(front[i] == parts[i]);
        }
        lemma_parts(list, front);
        assert(whole.drop_last() =~= list + spelled_parts(front));
        assert(whole.last() == last.spelled());
        match last {
            Part::Endpoint(d) => {
                lemma_endpoint(d);
                assert(endpoints_told(parts) =~= endpoints_told(front).push(d.endpoint()));
                if before.len() > 0 {
                    assert((before.last().endpoints + endpoints_told(front)).push(d.endpoint())
                        =~= before.last().endpoints + endpoints_told(parts));
                    let n = before.len() - 1;
                    let middle = super::interfaces_in(whole.drop_last());
                    assert(super::interfaces_in(whole) =~= before.update(
                        n,
                        InterfaceModel {
                            endpoints: before.last().endpoints + endpoints_told(parts),
                            ..before.last()
                        },
                    ));
                }
            },
            Part::Other { kind, body } => {
                assert(last.spelled()[1] == kind);
                assert(endpoints_told(parts) =~= endpoints_told(front));
            },
        }
    }
}

proof fn lemma_interface(d: InterfaceDescriptor)
    requires
        d.more.len() <= 246,
    ensures
        ({
            let s = d.spelled();
            &&& s.len() == 9 + d.more.len()
            &&& s[0] == s.len()
            &&& s[1] == 4
            &&& super::interface_in(s) == InterfaceModel {
                number: d.number,
                alternate: d.alternate,
                class: Class(d.class),
                subclass: d.subclass,
                protocol: d.protocol,
                endpoints: Seq::empty(),
            }
        }),
{
}

proof fn lemma_groups(list: Seq<Seq<u8>>, groups: Seq<Group>)
    requires
        super::interfaces_in(list).len() == 0,
        forall|i: int| 0 <= i < groups.len() ==> (#[trigger] groups[i]).valid(),
    ensures
        super::interfaces_in(list + spelled_groups(groups)) == groups.map_values(
            |g: Group| g.told(),
        ),
    decreases groups.len(),
{
    let told = |g: Group| g.told();
    let whole = list + spelled_groups(groups);
    if groups.len() == 0 {
        assert(whole =~= list);
        assert(super::interfaces_in(whole) =~= groups.map_values(told));
    } else {
        let front = groups.drop_last();
        let last = groups[groups.len() - 1];
        assert(last.valid());
        assert forall|i: int| 0 <= i < front.len() implies (#[trigger] front[i]).valid() by {
            assert(front[i] == groups[i]);
        }
        lemma_groups(list, front);
        lemma_interface(last.interface);
        let before = list + spelled_groups(front);
        let opened = before.push(last.interface.spelled());
        assert(opened.drop_last() =~= before);
        assert(opened.last() == last.interface.spelled());
        lemma_parts(opened, last.parts);
        assert(whole =~= opened + spelled_parts(last.parts));
        let known = super::interfaces_in(opened);
        assert(known.last().endpoints + endpoints_told(last.parts) =~= endpoints_told(last.parts));
        assert(super::interfaces_in(whole) =~= groups.map_values(told));
    }
}

proof fn lemma_parts_measured(parts: Seq<Part>)
    requires
        forall|i: int| 0 <= i < parts.len() ==> (#[trigger] parts[i]).valid(),
    ensures
        measured(spelled_parts(parts)),
        forall|i: int|
            0 <= i < parts.len() ==> super::long_enough(#[trigger] spelled_parts(parts)[i]),
{
    assert forall|i: int| 0 <= i < parts.len() implies 2 <= (#[trigger] spelled_parts(
        parts,
    )[i]).len() <= 255 && spelled_parts(parts)[i][0] == spelled_parts(parts)[i].len()
        && super::long_enough(spelled_parts(parts)[i]) by {
        assert(parts[i].valid());
        match parts[i] {
            Part::Endpoint(d) => {
                lemma_endpoint(d);
            },
            Part::Other { kind, body } => {
                assert(parts[i].spelled()[1] == kind);
            },
        }
    }
}

proof fn lemma_groups_measured(groups: Seq<Group>)
    requires
        forall|i: int| 0 <= i < groups.len() ==> (#[trigger] groups[i]).valid(),
    ensures
        measured(spelled_groups(groups)),
        forall|i: int|
            0 <= i < spelled_groups(groups).len() ==> super::long_enough(
                #[trigger] spelled_groups(groups)[i],
            ),
    decreases groups.len(),
{
    if groups.len() > 0 {
        let front = groups.drop_last();
        let last = groups[groups.len() - 1];
        assert(last.valid());
        assert forall|i: int| 0 <= i < front.len() implies (#[trigger] front[i]).valid() by {
            assert(front[i] == groups[i]);
        }
        lemma_groups_measured(front);
        lemma_parts_measured(last.parts);
        lemma_interface(last.interface);
        let n = spelled_groups(front).len();
        let whole = spelled_groups(groups);
        assert forall|i: int| 0 <= i < whole.len() implies 2 <= (#[trigger] whole[i]).len() <= 255
            && whole[i][0] == whole[i].len() && super::long_enough(whole[i]) by {
            if i < n {
                assert(whole[i] == spelled_groups(front)[i]);
            } else if i > n {
                assert(whole[i] == spelled_parts(last.parts)[i - n - 1]);
            } else {
                assert(whole[i] == last.interface.spelled());
            }
        }
    }
}

/// A configuration has the interfaces that its descriptors describe, in order, each with the
/// endpoints that come after it, in order: every field of them is what the descriptor's bytes
/// say, whatever other descriptors stand among them. How many bytes it takes is told by its
/// header alone, and bytes past these don't matter.
#[verifier::rlimit(30)]
#[verifier::spinoff_prover]
pub proof fn configurations_are_what_they_say(whole: WholeConfiguration, past: Seq<u8>)
    requires
        whole.valid(),
    ensures
        super::configuration_in(whole.spelled() + past) == Ok::<
            ConfigurationModel,
            DescriptorError,
        >(
            ConfigurationModel {
                value: whole.value,
                interfaces: whole.groups.map_values(|g: Group| g.told()),
            },
        ),
        super::total_length_in(whole.header().subrange(0, 9)) == Ok::<u16, DescriptorError>(
            whole.length() as u16,
        ),
        whole.spelled().len() == whole.length(),
{
    let data = whole.spelled() + past;
    let header = whole.header();
    let list = whole.descriptors();
    let start = seq![(9 + whole.more.len()) as u8, 2];
    let length = bytes::le16_bytes(whole.length() as u16);
    let rest = seq![
        whole.interfaces,
        whole.value,
        whole.name,
        whole.attributes,
        whole.power,
    ] + whole.more;
    assert(data.subrange(0, data.len() as int) =~= data);
    bytes::lemma_stands_in_two(data, 0, whole.spelled(), past);
    bytes::lemma_stands_in_two(data, 0, header, joined(list));
    bytes::lemma_stands_in_two(data, 0, start, length + rest);
    bytes::lemma_stands_in_two(data, 2, length, rest);
    bytes::lemma_stands_byte(data, 0, start, 0);
    bytes::lemma_stands_byte(data, 0, start, 1);
    bytes::lemma_stands_byte(data, 4, rest, 1);
    bytes::lemma_stands_words(data, 2, whole.length() as u16, 0);
    assert(header.subrange(0, header.len() as int) =~= header);
    bytes::lemma_stands_in_two(header, 0, start, length + rest);
    bytes::lemma_stands_in_two(header, 2, length, rest);
    bytes::lemma_stands_words(header, 2, whole.length() as u16, 0);
    bytes::lemma_words_in_subrange(header, 0, 9, 2);
    lemma_parts_measured(whole.before);
    lemma_groups_measured(whole.groups);
    let n = whole.before.len();
    assert forall|i: int| 0 <= i < list.len() implies 2 <= (#[trigger] list[i]).len() <= 255
        && list[i][0] == list[i].len() && super::long_enough(list[i]) by {
        if i < n {
            assert(list[i] == spelled_parts(whole.before)[i]);
        } else {
            assert(list[i] == spelled_groups(whole.groups)[i - n]);
        }
    }
    lemma_come_apart(data, header.len() as int, list, whole.length());
    let nothing = Seq::<Seq<u8>>::empty();
    lemma_parts(nothing, whole.before);
    assert(nothing + spelled_parts(whole.before) =~= spelled_parts(whole.before));
    lemma_groups(spelled_parts(whole.before), whole.groups);
    assert(data[0] == header.len());
}

/// A configuration that is cut short is refused.
pub proof fn short_configurations_are_refused(whole: WholeConfiguration, n: int)
    requires
        whole.valid(),
        0 <= n < whole.length(),
    ensures
        super::configuration_in(whole.spelled().subrange(0, n)) == Err::<
            ConfigurationModel,
            DescriptorError,
        >(DescriptorError::Truncated),
{
    let data = whole.spelled().subrange(0, n);
    let all = whole.spelled();
    if n >= 9 {
        let start = seq![(9 + whole.more.len()) as u8, 2];
        let length = bytes::le16_bytes(whole.length() as u16);
        let rest = seq![
            whole.interfaces,
            whole.value,
            whole.name,
            whole.attributes,
            whole.power,
        ] + whole.more;
        assert(all.subrange(0, all.len() as int) =~= all);
        bytes::lemma_stands_in_two(all, 0, whole.header(), joined(whole.descriptors()));
        bytes::lemma_stands_in_two(all, 0, start, length + rest);
        bytes::lemma_stands_in_two(all, 2, length, rest);
        bytes::lemma_stands_byte(all, 0, start, 0);
        bytes::lemma_stands_byte(all, 0, start, 1);
        bytes::lemma_stands_words(all, 2, whole.length() as u16, 0);
        bytes::lemma_words_in_subrange(all, 0, n, 2);
        assert(data[0] == all[0] && data[1] == all[1]);
    }
}

/// A device's descriptor, byte by byte: which USB it speaks, its class, the packet size of endpoint
/// 0, who made it, what it is and which release of that, where its names are, and how many
/// configurations it has.
pub open spec fn spelled_device(
    d: DeviceDescriptor,
    version: u16,
    release: u16,
    names: Seq<u8>,
) -> Seq<u8> {
    seq![18u8, 1] + bytes::le16_bytes(version) + seq![
        d.class.0,
        d.subclass,
        d.protocol,
        d.max_packet_size,
    ] + bytes::le16_bytes(d.vendor) + bytes::le16_bytes(d.product) + bytes::le16_bytes(release)
        + names + seq![d.configurations]
}

/// A device's descriptor says its class, the packet size of endpoint 0, who made it and what it
/// is, and how many configurations it has; the first 8 bytes are enough for the packet size.
pub proof fn devices_are_what_they_say(
    d: DeviceDescriptor,
    version: u16,
    release: u16,
    names: Seq<u8>,
    past: Seq<u8>,
)
    requires
        names.len() == 3,
    ensures
        ({
            let whole = spelled_device(d, version, release, names);
            let start = whole.subrange(0, 8);
            &&& super::packet_size_in(start) == Ok::<u8, DescriptorError>(d.max_packet_size)
            &&& super::device_in(whole + past) == Ok::<DeviceDescriptor, DescriptorError>(d)
            &&& super::device_in(start) == Err::<DeviceDescriptor, DescriptorError>(
                DescriptorError::Truncated,
            )
        }),
{
    let whole = spelled_device(d, version, release, names);
    let data = whole + past;
    assert(data[8] == bytes::le16_bytes(d.vendor)[0] && data[9] == bytes::le16_bytes(d.vendor)[1]);
    assert(data[10] == bytes::le16_bytes(d.product)[0] && data[11] == bytes::le16_bytes(
        d.product,
    )[1]);
    assert(data[17] == d.configurations);
    bytes::lemma_words_round_trip(d.vendor, 0);
    bytes::lemma_words_round_trip(d.product, 0);
}

/// A hub's descriptor says how many ports it has, and in steps of 2 ms how long after powering
/// a port it can be used.
pub proof fn hubs_are_what_they_say(
    length: u8,
    ports: u8,
    characteristics: u16,
    steps: u8,
    current: u8,
    past: Seq<u8>,
)
    requires
        length >= 7,
    ensures
        super::hub_in(
            seq![length, 0x29, ports] + bytes::le16_bytes(characteristics) + seq![steps, current]
                + past,
        ) == Ok::<HubDescriptor, DescriptorError>(
            HubDescriptor { ports, power_on_to_good_ms: (steps + steps) as u32 },
        ),
{
}

/// A descriptor of another type than the one asked for is told by its type, one too short for
/// its type is cut short.
pub proof fn other_descriptors_are_refused(data: Seq<u8>)
    requires
        data.len() >= 18,
        data[0] >= 18,
    ensures
        data[1] != 1 ==> super::device_in(data) == Err::<DeviceDescriptor, DescriptorError>(
            DescriptorError::WrongType(DescriptorType(data[1])),
        ),
        data[1] != 2 ==> super::configuration_in(data) == Err::<
            ConfigurationModel,
            DescriptorError,
        >(DescriptorError::WrongType(DescriptorType(data[1]))),
        data[1] != 0x29 ==> super::hub_in(data) == Err::<HubDescriptor, DescriptorError>(
            DescriptorError::WrongType(DescriptorType(data[1])),
        ),
{
}

/// The requests as they go over the bus: the kind of request and whom it is for, its number, and
/// its value, index and length, the low byte first.
pub proof fn requests_are_spelled(
    kind: u8,
    index: u8,
    length: u16,
    address: u8,
    port: u8,
    feature: u16,
    boot: bool,
)
    ensures
        SetupPacket::get_descriptor(DescriptorType(kind), index, length).spelled() == seq![
            0x80u8,
            6,
            index,
            kind,
            0,
            0,
        ] + bytes::le16_bytes(length),
        SetupPacket::set_address(address).spelled() == seq![0u8, 5, address, 0, 0, 0, 0, 0],
        SetupPacket::set_configuration(index).spelled() == seq![0u8, 9, index, 0, 0, 0, 0, 0],
        SetupPacket::get_hub_descriptor(length).spelled() == seq![0xA0u8, 6, 0, 0x29, 0, 0]
            + bytes::le16_bytes(length),
        SetupPacket::get_port_status(port).spelled() == seq![0xA3u8, 0, 0, 0, port, 0, 4, 0],
        SetupPacket::set_port_feature(port, PortFeature(feature)).spelled() == seq![0x23u8, 3]
            + bytes::le16_bytes(feature) + seq![port, 0, 0, 0],
        SetupPacket::clear_port_feature(port, PortFeature(feature)).spelled() == seq![0x23u8, 1]
            + bytes::le16_bytes(feature) + seq![port, 0, 0, 0],
        SetupPacket::set_protocol(port, boot).spelled() == seq![
            0x21u8,
            0x0B,
            (if boot {
                0u8
            } else {
                1u8
            }),
            0,
            port,
            0,
            0,
            0,
        ],
        SetupPacket::set_idle(port).spelled() == seq![0x21u8, 0x0A, 0, 0, port, 0, 0, 0],
        SetupPacket::vendor(Direction::In, kind, feature, length, 4).spelled() == seq![0xC0u8, kind]
            + bytes::le16_bytes(feature) + bytes::le16_bytes(length) + seq![4u8, 0],
        SetupPacket::vendor(Direction::Out, kind, feature, length, 4).spelled() == seq![
            0x40u8,
            kind,
        ] + bytes::le16_bytes(feature) + bytes::le16_bytes(length) + seq![4u8, 0],
{
    let asked = SetupPacket::get_descriptor(DescriptorType(kind), index, length);
    assert(asked.value == kind * 256 + index);
    assert(asked.spelled() =~= seq![0x80u8, 6, index, kind, 0, 0] + bytes::le16_bytes(length));
    assert(SetupPacket::set_address(address).spelled() =~= seq![0u8, 5, address, 0, 0, 0, 0, 0]);
    assert(SetupPacket::set_configuration(index).spelled() =~= seq![0u8, 9, index, 0, 0, 0, 0, 0]);
    assert(SetupPacket::get_hub_descriptor(length).spelled() =~= seq![0xA0u8, 6, 0, 0x29, 0, 0]
        + bytes::le16_bytes(length));
    assert(SetupPacket::get_port_status(port).spelled() =~= seq![
        0xA3u8,
        0,
        0,
        0,
        port,
        0,
        4,
        0,
    ]);
    assert(SetupPacket::set_port_feature(port, PortFeature(feature)).spelled() =~= seq![0x23u8, 3]
        + bytes::le16_bytes(feature) + seq![port, 0, 0, 0]);
    assert(SetupPacket::clear_port_feature(port, PortFeature(feature)).spelled() =~= seq![0x23u8, 1]
        + bytes::le16_bytes(feature) + seq![port, 0, 0, 0]);
    assert(SetupPacket::set_protocol(port, boot).spelled() =~= seq![
        0x21u8,
        0x0B,
        (if boot {
            0u8
        } else {
            1u8
        }),
        0,
        port,
        0,
        0,
        0,
    ]);
    assert(SetupPacket::set_idle(port).spelled() =~= seq![0x21u8, 0x0A, 0, 0, port, 0, 0, 0]);
    assert(SetupPacket::vendor(Direction::In, kind, feature, length, 4).spelled() =~= seq![
        0xC0u8,
        kind,
    ] + bytes::le16_bytes(feature) + bytes::le16_bytes(length) + seq![4u8, 0]);
    assert(SetupPacket::vendor(Direction::Out, kind, feature, length, 4).spelled() =~= seq![
        0x40u8,
        kind,
    ] + bytes::le16_bytes(feature) + bytes::le16_bytes(length) + seq![4u8, 0]);
}

/// The endpoint that is found is the first of its kind and direction.
pub proof fn first_endpoint_is_found(
    endpoints: Seq<Endpoint>,
    kind: EndpointType,
    direction: Direction,
    from: int,
)
    requires
        0 <= from <= endpoints.len(),
    ensures
        ({
            let place = super::endpoint_place(endpoints, kind, direction, from);
            &&& from <= place <= endpoints.len()
            &&& forall|i: int|
                from <= i < place ==> !((#[trigger] endpoints[i]).kind == kind
                    && endpoints[i].direction == direction)
            &&& place < endpoints.len() ==> endpoints[place].kind == kind
                && endpoints[place].direction == direction
        }),
    decreases endpoints.len() - from,
{
    if from < endpoints.len() && !(endpoints[from].kind == kind && endpoints[from].direction
        == direction) {
        first_endpoint_is_found(endpoints, kind, direction, from + 1);
    }
}

/// What a port's status bytes say: its first byte has whether a device is connected (bit 0), the
/// port enabled (1), drawing too much (3) and being reset (4); its second whether it is powered
/// (0) and the device's speed (low in 1, high in 2, else full); its third whether the
/// connection (0) or the reset (4) changed.
pub proof fn ports_are_what_they_say(a: u8, b: u8, c: u8, d: u8)
    ensures
        ({
            let status = PortStatus(bytes::le32(seq![a, b, c, d], 0));
            &&& status.has(1) == (a % 2 == 1)
            &&& status.has(2) == (a / 2 % 2 == 1)
            &&& status.has(8) == (a / 8 % 2 == 1)
            &&& status.has(0x10) == (a / 16 % 2 == 1)
            &&& status.has(0x100) == (b % 2 == 1)
            &&& status.speed_of() == (if b / 2 % 2 == 1 {
                Speed::Low
            } else if b / 4 % 2 == 1 {
                Speed::High
            } else {
                Speed::Full
            })
            &&& status.has(0x1_0000) == (c % 2 == 1)
            &&& status.has(0x10_0000) == (c / 16 % 2 == 1)
        }),
{
    let v = bytes::le32(seq![a, b, c, d], 0);
    bytes::first_byte_counts_least_or_most(a, b, c, d);
    assert(v % 2 == a % 2 && v / 2 % 2 == (a / 2 % 2) && v / 8 % 2 == (a / 8 % 2) && v / 16 % 2 == (
    a / 16 % 2) && v / 0x100 % 2 == b % 2 && v / 0x200 % 2 == (b / 2 % 2) && v / 0x400 % 2 == (b / 4
        % 2) && v / 0x1_0000 % 2 == c % 2 && v / 0x10_0000 % 2 == (c / 16 % 2)) by (bit_vector)
        requires
            v == a + b * 256 + c * 65536 + d * 16777216,
    ;
}

} // verus!
