//! The USB protocol, independent of any host controller: control requests, the descriptors
//! devices describe themselves with, hub port status, and boot protocol keyboard reports.
//! All as USB 2.0 (chapters 9 and 11) and HID 1.11 (appendix B) have it.

pub mod attached;
pub mod described;
pub mod tree;

use crate::bytes;
use crate::text;
use crate::text::push_hex;
use vstd::prelude::*;

verus! {

#[derive(Clone, Copy, Debug, PartialEq, Eq, Structural)]
pub enum Speed {
    Low,
    Full,
    High,
}

#[derive(Clone, Copy, Debug, PartialEq, Eq, Structural)]
pub enum Direction {
    /// Host to device.
    Out,
    /// Device to host.
    In,
}

#[derive(Clone, Copy, Debug, PartialEq, Eq, Structural)]
pub enum EndpointType {
    Control,
    Isochronous,
    Bulk,
    Interrupt,
}

/// The kind of endpoint that its attributes' low two bits say.
pub open spec fn endpoint_type(attributes: u8) -> EndpointType {
    if attributes % 4 == 0 {
        EndpointType::Control
    } else if attributes % 4 == 1 {
        EndpointType::Isochronous
    } else if attributes % 4 == 2 {
        EndpointType::Bulk
    } else {
        EndpointType::Interrupt
    }
}

impl EndpointType {
    fn from_attributes(attributes: u8) -> (r: Self)
        ensures
            r == endpoint_type(attributes),
    {
        match attributes % 4 {
            0 => EndpointType::Control,
            1 => EndpointType::Isochronous,
            2 => EndpointType::Bulk,
            _ => EndpointType::Interrupt,
        }
    }
}

/// A descriptor's type, its second byte.
#[derive(Clone, Copy, Debug, PartialEq, Eq, Structural)]
pub struct DescriptorType(pub u8);

impl DescriptorType {
    #[verifier::allow_in_spec]
    pub fn device() -> DescriptorType
        returns
            DescriptorType(1),
    {
        DescriptorType(1)
    }

    #[verifier::allow_in_spec]
    pub fn configuration() -> DescriptorType
        returns
            DescriptorType(2),
    {
        DescriptorType(2)
    }

    #[verifier::allow_in_spec]
    pub fn string() -> DescriptorType
        returns
            DescriptorType(3),
    {
        DescriptorType(3)
    }

    #[verifier::allow_in_spec]
    pub fn interface() -> DescriptorType
        returns
            DescriptorType(4),
    {
        DescriptorType(4)
    }

    #[verifier::allow_in_spec]
    pub fn endpoint() -> DescriptorType
        returns
            DescriptorType(5),
    {
        DescriptorType(5)
    }

    #[verifier::allow_in_spec]
    pub fn hid() -> DescriptorType
        returns
            DescriptorType(0x21),
    {
        DescriptorType(0x21)
    }

    #[verifier::allow_in_spec]
    pub fn hub() -> DescriptorType
        returns
            DescriptorType(0x29),
    {
        DescriptorType(0x29)
    }
}

/// Device and interface classes this kernel knows.
#[derive(Clone, Copy, Debug, PartialEq, Eq, Structural)]
pub struct Class(pub u8);

/// What a class is, for people.
pub open spec fn class_name(class: u8) -> Seq<char> {
    match class {
        0x00 => "per interface"@,
        0x01 => "audio"@,
        0x02 => "communications"@,
        0x03 => "HID"@,
        0x06 => "imaging"@,
        0x07 => "printer"@,
        0x08 => "mass storage"@,
        0x09 => "hub"@,
        0x0A => "CDC data"@,
        0x0B => "smart card"@,
        0x0E => "video"@,
        0xE0 => "wireless"@,
        0xEF => "miscellaneous"@,
        0xFF => "vendor specific"@,
        _ => "other"@,
    }
}

impl Class {
    /// Given per interface instead.
    #[verifier::allow_in_spec]
    pub fn per_interface() -> Class
        returns
            Class(0),
    {
        Class(0)
    }

    #[verifier::allow_in_spec]
    pub fn hid() -> Class
        returns
            Class(3),
    {
        Class(3)
    }

    #[verifier::allow_in_spec]
    pub fn hub() -> Class
        returns
            Class(9),
    {
        Class(9)
    }

    #[verifier::allow_in_spec]
    pub fn vendor() -> Class
        returns
            Class(0xFF),
    {
        Class(0xFF)
    }

    /// What the class is, for people.
    pub fn name(self) -> (r: &'static str)
        ensures
            r@ == class_name(self.0),
    {
        match self.0 {
            0x00 => "per interface",
            0x01 => "audio",
            0x02 => "communications",
            0x03 => "HID",
            0x06 => "imaging",
            0x07 => "printer",
            0x08 => "mass storage",
            0x09 => "hub",
            0x0A => "CDC data",
            0x0B => "smart card",
            0x0E => "video",
            0xE0 => "wireless",
            0xEF => "miscellaneous",
            0xFF => "vendor specific",
            _ => "other",
        }
    }
}

/// HID interface subclass and protocol of a keyboard that speaks the boot protocol.
pub const HID_SUBCLASS_BOOT: u8 = 1;

pub const HID_PROTOCOL_KEYBOARD: u8 = 1;

/// The 8 bytes that start every control transfer.
#[derive(Clone, Copy, Debug, PartialEq, Eq, Structural)]
pub struct SetupPacket {
    pub request_type: u8,
    pub request: u8,
    pub value: u16,
    pub index: u16,
    /// Bytes in the data stage.
    pub length: u16,
}

/// `request_type` fields: direction, kind of request, and whom it is for.
pub const TYPE_IN: u8 = 0x80;

pub const TYPE_CLASS: u8 = 0x20;

pub const TYPE_VENDOR: u8 = 0x40;

pub const TO_INTERFACE: u8 = 1;

pub const TO_OTHER: u8 = 3;

// Standard requests.
pub const GET_STATUS: u8 = 0;

pub const CLEAR_FEATURE: u8 = 1;

pub const SET_FEATURE: u8 = 3;

pub const SET_ADDRESS: u8 = 5;

pub const GET_DESCRIPTOR: u8 = 6;

pub const SET_CONFIGURATION: u8 = 9;

// HID class requests.
pub const SET_IDLE: u8 = 0x0A;

pub const SET_PROTOCOL: u8 = 0x0B;

/// Hub port features, for `set_port_feature` and `clear_port_feature`.
#[derive(Clone, Copy, Debug, PartialEq, Eq, Structural)]
pub struct PortFeature(pub u16);

impl PortFeature {
    /// Only cleared, to disable a port.
    #[verifier::allow_in_spec]
    pub fn enable() -> PortFeature
        returns
            PortFeature(1),
    {
        PortFeature(1)
    }

    #[verifier::allow_in_spec]
    pub fn reset() -> PortFeature
        returns
            PortFeature(4),
    {
        PortFeature(4)
    }

    #[verifier::allow_in_spec]
    pub fn power() -> PortFeature
        returns
            PortFeature(8),
    {
        PortFeature(8)
    }

    #[verifier::allow_in_spec]
    pub fn connection_change() -> PortFeature
        returns
            PortFeature(16),
    {
        PortFeature(16)
    }

    #[verifier::allow_in_spec]
    pub fn enable_change() -> PortFeature
        returns
            PortFeature(17),
    {
        PortFeature(17)
    }

    #[verifier::allow_in_spec]
    pub fn reset_change() -> PortFeature
        returns
            PortFeature(20),
    {
        PortFeature(20)
    }
}

impl SetupPacket {
    /// The packet's bytes, little endian.
    pub open spec fn spelled(self) -> Seq<u8> {
        seq![self.request_type, self.request] + bytes::le16_bytes(self.value) + bytes::le16_bytes(
            self.index,
        ) + bytes::le16_bytes(self.length)
    }

    pub fn direction(&self) -> (r: Direction)
        ensures
            r == (if self.request_type >= TYPE_IN {
                Direction::In
            } else {
                Direction::Out
            }),
    {
        if self.request_type >= TYPE_IN {
            Direction::In
        } else {
            Direction::Out
        }
    }

    pub fn to_bytes(&self) -> (r: [u8; 8])
        ensures
            r@ == self.spelled(),
    {
        let r = [
            self.request_type,
            self.request,
            (self.value % 0x100) as u8,
            (self.value / 0x100) as u8,
            (self.index % 0x100) as u8,
            (self.index / 0x100) as u8,
            (self.length % 0x100) as u8,
            (self.length / 0x100) as u8,
        ];
        assert(r@ =~= self.spelled());
        r
    }

    /// Up to `length` bytes of the device's descriptor of type `kind` (the first of them,
    /// `index` 0, for most kinds).
    #[verifier::allow_in_spec]
    pub fn get_descriptor(kind: DescriptorType, index: u8, length: u16) -> Self
        returns
            (SetupPacket {
                request_type: TYPE_IN,
                request: GET_DESCRIPTOR,
                value: (kind.0 * 0x100 + index) as u16,
                index: 0,
                length,
            }),
    {
        SetupPacket {
            request_type: TYPE_IN,
            request: GET_DESCRIPTOR,
            value: kind.0 as u16 * 0x100 + index as u16,
            index: 0,
            length,
        }
    }

    /// Gives the device, still at address 0, its own address.
    #[verifier::allow_in_spec]
    pub fn set_address(address: u8) -> Self
        returns
            (SetupPacket {
                request_type: 0,
                request: SET_ADDRESS,
                value: address as u16,
                index: 0,
                length: 0,
            }),
    {
        SetupPacket {
            request_type: 0,
            request: SET_ADDRESS,
            value: address as u16,
            index: 0,
            length: 0,
        }
    }

    #[verifier::allow_in_spec]
    pub fn set_configuration(value: u8) -> Self
        returns
            (SetupPacket {
                request_type: 0,
                request: SET_CONFIGURATION,
                value: value as u16,
                index: 0,
                length: 0,
            }),
    {
        SetupPacket {
            request_type: 0,
            request: SET_CONFIGURATION,
            value: value as u16,
            index: 0,
            length: 0,
        }
    }

    /// A hub's own descriptor (a class descriptor, so not `get_descriptor`).
    #[verifier::allow_in_spec]
    pub fn get_hub_descriptor(length: u16) -> Self
        returns
            (SetupPacket {
                request_type: (TYPE_IN + TYPE_CLASS) as u8,
                request: GET_DESCRIPTOR,
                value: 0x2900,
                index: 0,
                length,
            }),
    {
        SetupPacket {
            request_type: TYPE_IN + TYPE_CLASS,
            request: GET_DESCRIPTOR,
            value: 0x2900,
            index: 0,
            length,
        }
    }

    /// A hub port's status and change bits (see `PortStatus`), 4 bytes. Ports count from 1.
    #[verifier::allow_in_spec]
    pub fn get_port_status(port: u8) -> Self
        returns
            (SetupPacket {
                request_type: (TYPE_IN + TYPE_CLASS + TO_OTHER) as u8,
                request: GET_STATUS,
                value: 0,
                index: port as u16,
                length: 4,
            }),
    {
        SetupPacket {
            request_type: TYPE_IN + TYPE_CLASS + TO_OTHER,
            request: GET_STATUS,
            value: 0,
            index: port as u16,
            length: 4,
        }
    }

    #[verifier::allow_in_spec]
    pub fn set_port_feature(port: u8, feature: PortFeature) -> Self
        returns
            (SetupPacket {
                request_type: (TYPE_CLASS + TO_OTHER) as u8,
                request: SET_FEATURE,
                value: feature.0,
                index: port as u16,
                length: 0,
            }),
    {
        SetupPacket {
            request_type: TYPE_CLASS + TO_OTHER,
            request: SET_FEATURE,
            value: feature.0,
            index: port as u16,
            length: 0,
        }
    }

    #[verifier::allow_in_spec]
    pub fn clear_port_feature(port: u8, feature: PortFeature) -> Self
        returns
            (SetupPacket {
                request_type: (TYPE_CLASS + TO_OTHER) as u8,
                request: CLEAR_FEATURE,
                value: feature.0,
                index: port as u16,
                length: 0,
            }),
    {
        SetupPacket {
            request_type: TYPE_CLASS + TO_OTHER,
            request: CLEAR_FEATURE,
            value: feature.0,
            index: port as u16,
            length: 0,
        }
    }

    /// Switches a HID interface to the boot protocol (`boot`), or back to its report protocol.
    #[verifier::allow_in_spec]
    pub fn set_protocol(interface: u8, boot: bool) -> Self
        returns
            (SetupPacket {
                request_type: (TYPE_CLASS + TO_INTERFACE) as u8,
                request: SET_PROTOCOL,
                value: (if boot {
                    0
                } else {
                    1
                }),
                index: interface as u16,
                length: 0,
            }),
    {
        SetupPacket {
            request_type: TYPE_CLASS + TO_INTERFACE,
            request: SET_PROTOCOL,
            value: if boot {
                0
            } else {
                1
            },
            index: interface as u16,
            length: 0,
        }
    }

    /// Asks a HID interface to report only when something changes.
    #[verifier::allow_in_spec]
    pub fn set_idle(interface: u8) -> Self
        returns
            (SetupPacket {
                request_type: (TYPE_CLASS + TO_INTERFACE) as u8,
                request: SET_IDLE,
                value: 0,
                index: interface as u16,
                length: 0,
            }),
    {
        SetupPacket {
            request_type: TYPE_CLASS + TO_INTERFACE,
            request: SET_IDLE,
            value: 0,
            index: interface as u16,
            length: 0,
        }
    }

    /// A vendor-specific request, like the LAN7800's register reads and writes.
    #[verifier::allow_in_spec]
    pub fn vendor(direction: Direction, request: u8, value: u16, index: u16, length: u16) -> Self
        returns
            (SetupPacket {
                request_type: (if direction == Direction::In {
                    (TYPE_IN + TYPE_VENDOR) as u8
                } else {
                    TYPE_VENDOR
                }),
                request,
                value,
                index,
                length,
            }),
    {
        let dir: u8 = if direction == Direction::In {
            TYPE_IN
        } else {
            0
        };
        SetupPacket { request_type: dir + TYPE_VENDOR, request, value, index, length }
    }
}

#[derive(Clone, Copy, Debug, PartialEq, Eq, Structural)]
pub enum DescriptorError {
    /// Shorter than its type needs, or than it says it is.
    Truncated,
    /// Not the type asked for.
    WrongType(DescriptorType),
}

impl DescriptorError {
    /// How it is shown.
    pub open spec fn shown(self) -> Seq<char> {
        match self {
            DescriptorError::Truncated => "descriptor cut short"@,
            DescriptorError::WrongType(kind) => "unexpected descriptor type 0x"@ + text::hexadecimal(kind.0 as nat),
        }
    }

    /// How it is shown.
    pub fn to_string(&self) -> (r: String)
        ensures
            r@ == self.shown(),
    {
        match self {
            DescriptorError::Truncated => "descriptor cut short".to_owned(),
            DescriptorError::WrongType(kind) => {
                let mut out = "unexpected descriptor type 0x".to_owned();
                push_hex(&mut out, kind.0 as u32);
                out
            },
        }
    }
}

/// What is wrong with `data` as a descriptor of type `kind` at least `min` bytes long, if
/// anything.
pub open spec fn fault(data: Seq<u8>, kind: DescriptorType, min: int) -> Option<DescriptorError> {
    if data.len() < 2 || data.len() < min || data[0] < min {
        Some(DescriptorError::Truncated)
    } else if data[1] != kind.0 {
        Some(DescriptorError::WrongType(DescriptorType(data[1])))
    } else {
        None
    }
}

/// Checks `data` starts with a descriptor of type `kind` at least `min` bytes long.
fn check(data: &[u8], kind: DescriptorType, min: usize) -> (r: Result<(), DescriptorError>)
    ensures
        match r {
            Ok(_) => fault(data@, kind, min as int) is None,
            Err(error) => fault(data@, kind, min as int) == Some(error),
        },
{
    if data.len() < 2 || data.len() < min || (data[0] as usize) < min {
        return Err(DescriptorError::Truncated);
    }
    if data[1] != kind.0 {
        return Err(DescriptorError::WrongType(DescriptorType(data[1])));
    }
    Ok(())
}

#[derive(Clone, Copy, Debug, PartialEq, Eq, Structural)]
pub struct DeviceDescriptor {
    pub class: Class,
    pub subclass: u8,
    pub protocol: u8,
    /// Of endpoint 0. The first 8 bytes of the descriptor, which say it, can always be read
    /// with packets of 8.
    pub max_packet_size: u8,
    pub vendor: u16,
    pub product: u16,
    pub configurations: u8,
}

/// What a device descriptor says.
pub open spec fn device_in(data: Seq<u8>) -> Result<DeviceDescriptor, DescriptorError> {
    match fault(data, DescriptorType::device(), DeviceDescriptor::LENGTH as int) {
        Some(error) => Err(error),
        None => Ok(
            DeviceDescriptor {
                class: Class(data[4]),
                subclass: data[5],
                protocol: data[6],
                max_packet_size: data[7],
                vendor: bytes::le16(data, 8),
                product: bytes::le16(data, 10),
                configurations: data[17],
            },
        ),
    }
}

/// The packet size that the start of a device descriptor says.
pub open spec fn packet_size_in(data: Seq<u8>) -> Result<u8, DescriptorError> {
    match fault(data, DescriptorType::device(), 8) {
        Some(error) => Err(error),
        None => Ok(data[7]),
    }
}

impl DeviceDescriptor {
    pub const LENGTH: usize = 18;

    /// From the first 8 bytes: just enough for `max_packet_size`.
    pub fn max_packet_size(data: &[u8]) -> (r: Result<u8, DescriptorError>)
        ensures
            r == packet_size_in(data@),
    {
        check(data, DescriptorType::device(), 8)?;
        Ok(data[7])
    }

    pub fn parse(data: &[u8]) -> (r: Result<Self, DescriptorError>)
        ensures
            r == device_in(data@),
    {
        check(data, DescriptorType::device(), Self::LENGTH)?;
        Ok(
            DeviceDescriptor {
                class: Class(data[4]),
                subclass: data[5],
                protocol: data[6],
                max_packet_size: data[7],
                vendor: bytes::le16_at(data, 8),
                product: bytes::le16_at(data, 10),
                configurations: data[17],
            },
        )
    }
}

#[derive(Clone, Copy, Debug, PartialEq, Eq, Structural)]
pub struct Endpoint {
    /// 1 to 15.
    pub number: u8,
    pub direction: Direction,
    pub kind: EndpointType,
    pub max_packet_size: u16,
    /// How often to poll it, for interrupt endpoints: in frames (ms) at low and full speed,
    /// as a power of two of microframes at high speed.
    pub interval: u8,
}

/// What an endpoint descriptor says.
pub open spec fn endpoint_in(data: Seq<u8>) -> Endpoint {
    Endpoint {
        number: (data[2] % 16) as u8,
        direction: (if data[2] >= 0x80 {
            Direction::In
        } else {
            Direction::Out
        }),
        kind: endpoint_type(data[3]),
        max_packet_size: (bytes::le16(data, 4) % 0x800) as u16,
        interval: data[6],
    }
}

#[derive(Clone, Debug, PartialEq, Eq)]
pub struct Interface {
    pub number: u8,
    pub alternate: u8,
    pub class: Class,
    pub subclass: u8,
    pub protocol: u8,
    pub endpoints: Vec<Endpoint>,
}

/// An interface and its endpoints.
pub struct InterfaceModel {
    pub number: u8,
    pub alternate: u8,
    pub class: Class,
    pub subclass: u8,
    pub protocol: u8,
    pub endpoints: Seq<Endpoint>,
}

/// What an interface descriptor says; its endpoints are still to come.
pub open spec fn interface_in(data: Seq<u8>) -> InterfaceModel {
    InterfaceModel {
        number: data[2],
        alternate: data[3],
        class: Class(data[5]),
        subclass: data[6],
        protocol: data[7],
        endpoints: Seq::empty(),
    }
}

/// The place of the first endpoint of that kind and direction, from `from` on; the number of
/// endpoints if there is none.
pub open spec fn endpoint_place(
    endpoints: Seq<Endpoint>,
    kind: EndpointType,
    direction: Direction,
    from: int,
) -> int
    decreases endpoints.len() - from,
{
    if from >= endpoints.len() {
        endpoints.len() as int
    } else if endpoints[from].kind == kind && endpoints[from].direction == direction {
        from
    } else {
        endpoint_place(endpoints, kind, direction, from + 1)
    }
}

impl Interface {
    pub open spec fn view(&self) -> InterfaceModel {
        InterfaceModel {
            number: self.number,
            alternate: self.alternate,
            class: self.class,
            subclass: self.subclass,
            protocol: self.protocol,
            endpoints: self.endpoints@,
        }
    }

    pub fn is_boot_keyboard(&self) -> (r: bool)
        ensures
            r == (self.class == Class::hid() && self.subclass == HID_SUBCLASS_BOOT && self.protocol
                == HID_PROTOCOL_KEYBOARD),
    {
        self.class == Class::hid() && self.subclass == HID_SUBCLASS_BOOT && self.protocol
            == HID_PROTOCOL_KEYBOARD
    }

    /// Its first endpoint of that kind and direction, if it has one.
    pub fn endpoint(&self, kind: EndpointType, direction: Direction) -> (r: Option<Endpoint>)
        ensures
            ({
                let place = endpoint_place(self.endpoints@, kind, direction, 0);
                r == (if place < self.endpoints@.len() {
                    Some(self.endpoints@[place])
                } else {
                    None
                })
            }),
    {
        let mut i: usize = 0;
        while i < self.endpoints.len()
            invariant
                i <= self.endpoints@.len(),
                endpoint_place(self.endpoints@, kind, direction, 0) == endpoint_place(
                    self.endpoints@,
                    kind,
                    direction,
                    i as int,
                ),
            decreases self.endpoints@.len() - i,
        {
            let endpoint = self.endpoints[i];
            if endpoint.kind == kind && endpoint.direction == direction {
                return Some(endpoint);
            }
            i += 1;
        }
        None
    }
}

/// A configuration, with its interfaces and their endpoints.
#[derive(Clone, Debug, PartialEq, Eq)]
pub struct Configuration {
    /// What `set_configuration` takes to choose it.
    pub value: u8,
    pub interfaces: Vec<Interface>,
}

/// A configuration, with its interfaces and their endpoints.
pub struct ConfigurationModel {
    pub value: u8,
    pub interfaces: Seq<InterfaceModel>,
}

/// The interfaces in a list of them.
pub open spec fn interfaces_of(list: Seq<Interface>) -> Seq<InterfaceModel> {
    Seq::new(list.len(), |i: int| list[i]@)
}

/// The descriptors in `data` from `at` up to `total`, or `None` if one is cut short.
pub open spec fn descriptors_from(data: Seq<u8>, at: int, total: int) -> Option<Seq<Seq<u8>>>
    decreases total - at,
{
    if at + 2 > total {
        Some(Seq::empty())
    } else if data[at] < 2 || at + data[at] > total {
        None
    } else {
        match descriptors_from(data, at + data[at], total) {
            Some(rest) => Some(seq![data.subrange(at, at + data[at])] + rest),
            None => None,
        }
    }
}

/// Whether a descriptor within a configuration is as long as its type needs.
pub open spec fn long_enough(descriptor: Seq<u8>) -> bool {
    &&& descriptor[1] == DescriptorType::interface().0 ==> descriptor.len() >= 9
    &&& descriptor[1] == DescriptorType::endpoint().0 ==> descriptor.len() >= 7
}

/// The interfaces that descriptors say there are. An endpoint belongs to the interface before
/// it, and descriptors of other kinds are passed over.
pub open spec fn interfaces_in(descriptors: Seq<Seq<u8>>) -> Seq<InterfaceModel>
    decreases descriptors.len(),
{
    if descriptors.len() == 0 {
        Seq::empty()
    } else {
        let before = interfaces_in(descriptors.drop_last());
        let descriptor = descriptors.last();
        if descriptor[1] == DescriptorType::interface().0 {
            before.push(interface_in(descriptor))
        } else if descriptor[1] == DescriptorType::endpoint().0 && before.len() > 0 {
            before.update(
                before.len() - 1,
                InterfaceModel {
                    endpoints: before.last().endpoints.push(endpoint_in(descriptor)),
                    ..before.last()
                },
            )
        } else {
            before
        }
    }
}

/// How long the start of a configuration descriptor says the whole is.
pub open spec fn total_length_in(data: Seq<u8>) -> Result<u16, DescriptorError> {
    match fault(data, DescriptorType::configuration(), Configuration::HEADER as int) {
        Some(error) => Err(error),
        None => Ok(bytes::le16(data, 2)),
    }
}

/// What a whole configuration says.
pub open spec fn configuration_in(data: Seq<u8>) -> Result<ConfigurationModel, DescriptorError> {
    match total_length_in(data) {
        Err(error) => Err(error),
        Ok(total) => if data.len() < total {
            Err(DescriptorError::Truncated)
        } else {
            match descriptors_from(data, data[0] as int, total as int) {
                Some(descriptors) => if forall|i: int|
                    0 <= i < descriptors.len() ==> long_enough(#[trigger] descriptors[i]) {
                    Ok(
                        ConfigurationModel {
                            value: data[5],
                            interfaces: interfaces_in(descriptors),
                        },
                    )
                } else {
                    Err(DescriptorError::Truncated)
                },
                None => Err(DescriptorError::Truncated),
            }
        },
    }
}

/// What an endpoint descriptor says.
fn read_endpoint(descriptor: &[u8]) -> (r: Endpoint)
    requires
        descriptor@.len() >= 7,
    ensures
        r == endpoint_in(descriptor@),
{
    Endpoint {
        number: descriptor[2] % 16,
        direction: if descriptor[2] >= 0x80 {
            Direction::In
        } else {
            Direction::Out
        },
        kind: EndpointType::from_attributes(descriptor[3]),
        max_packet_size: bytes::le16_at(descriptor, 4) % 0x800,
        interval: descriptor[6],
    }
}

impl Configuration {
    pub const HEADER: usize = 9;

    pub open spec fn view(&self) -> ConfigurationModel {
        ConfigurationModel { value: self.value, interfaces: interfaces_of(self.interfaces@) }
    }

    /// From the first 9 bytes: how many bytes the whole configuration takes, to ask for it
    /// all.
    pub fn total_length(data: &[u8]) -> (r: Result<u16, DescriptorError>)
        ensures
            r == total_length_in(data@),
    {
        check(data, DescriptorType::configuration(), Self::HEADER)?;
        Ok(bytes::le16_at(data, 2))
    }

    /// The whole configuration, as `total_length` gives. Descriptors of other kinds (HID, and
    /// class or vendor specific ones) are passed over.
    pub fn parse(data: &[u8]) -> (r: Result<Self, DescriptorError>)
        ensures
            match r {
                Ok(configuration) => configuration_in(data@) == Ok::<
                    ConfigurationModel,
                    DescriptorError,
                >(configuration@),
                Err(error) => configuration_in(data@) == Err::<ConfigurationModel, DescriptorError>(
                    error,
                ),
            },
    {
        let total = match Self::total_length(data) {
            Ok(total) => total as usize,
            Err(error) => {
                return Err(error);
            },
        };
        if data.len() < total {
            return Err(DescriptorError::Truncated);
        }
        let mut configuration = Configuration { value: data[5], interfaces: Vec::new() };
        let mut at: usize = data[0] as usize;
        let ghost start = data@[0] as int;
        let ghost mut done: Seq<Seq<u8>> = Seq::empty();
        assert(configuration@.interfaces =~= interfaces_in(done));
        assert(forall|rest: Seq<Seq<u8>>| #[trigger] (done + rest) =~= rest);
        while at + 2 <= total
            invariant
                at <= 0x1_0000,
                total <= 0xFFFF,
                total <= data@.len(),
                total_length_in(data@) == Ok::<u16, DescriptorError>(total as u16),
                start == data@[0],
                data@.len() >= 9,
                configuration.value == data@[5],
                configuration@.interfaces == interfaces_in(done),
                forall|i: int| 0 <= i < done.len() ==> long_enough(#[trigger] done[i]),
                descriptors_from(data@, start, total as int) == (match descriptors_from(
                    data@,
                    at as int,
                    total as int,
                ) {
                    Some(rest) => Some(done + rest),
                    None => None,
                }),
            decreases total + 0x100 - at,
        {
            let length = data[at] as usize;
            if length < 2 || at + length > total {
                return Err(DescriptorError::Truncated);
            }
            let descriptor = &data[at..at + length];
            let kind = descriptor[1];
            let ghost before = done;
            let ghost rest = descriptors_from(data@, at + length, total as int);
            proof {
                if let Some(more) = rest {
                    assert(before + (seq![descriptor@] + more) =~= before.push(descriptor@) + more);
                    assert((before + (seq![descriptor@] + more))[before.len() as int]
                        == descriptor@);
                }
                done = before.push(descriptor@);
                assert(done.last() == descriptor@);
                assert(done.drop_last() =~= before);
            }
            if kind == 4 {
                if length < 9 {
                    assert(!long_enough(done[before.len() as int]));
                    return Err(DescriptorError::Truncated);
                }
                let interface = Interface {
                    number: descriptor[2],
                    alternate: descriptor[3],
                    class: Class(descriptor[5]),
                    subclass: descriptor[6],
                    protocol: descriptor[7],
                    endpoints: Vec::new(),
                };
                let ghost known = configuration@.interfaces;
                let ghost model = interface@;
                assert(model.endpoints =~= Seq::empty());
                configuration.interfaces.push(interface);
                assert(configuration@.interfaces =~= known.push(model));
            } else if kind == 5 {
                if length < 7 {
                    assert(!long_enough(done[before.len() as int]));
                    return Err(DescriptorError::Truncated);
                }
                let endpoint = read_endpoint(descriptor);
                // An endpoint belongs to the interface before it.
                let n = configuration.interfaces.len();
                if n > 0 {
                    let ghost known = configuration@.interfaces;
                    configuration.interfaces[n - 1].endpoints.push(endpoint);
                    assert(configuration@.interfaces =~= known.update(
                        n - 1,
                        InterfaceModel {
                            endpoints: known.last().endpoints.push(endpoint),
                            ..known.last()
                        },
                    ));
                }
            }
            at = at + length;
        }
        assert(done + Seq::<Seq<u8>>::empty() =~= done);
        Ok(configuration)
    }
}

#[derive(Clone, Copy, Debug, PartialEq, Eq, Structural)]
pub struct HubDescriptor {
    pub ports: u8,
    /// How long after powering a port it can be used.
    pub power_on_to_good_ms: u32,
}

/// What a hub descriptor says.
pub open spec fn hub_in(data: Seq<u8>) -> Result<HubDescriptor, DescriptorError> {
    match fault(data, DescriptorType::hub(), 7) {
        Some(error) => Err(error),
        None => Ok(HubDescriptor { ports: data[2], power_on_to_good_ms: (data[5] * 2) as u32 }),
    }
}

impl HubDescriptor {
    pub fn parse(data: &[u8]) -> (r: Result<Self, DescriptorError>)
        ensures
            r == hub_in(data@),
    {
        check(data, DescriptorType::hub(), 7)?;
        Ok(HubDescriptor { ports: data[2], power_on_to_good_ms: data[5] as u32 * 2 })
    }
}

/// A hub port's status and what changed, from `get_port_status`.
#[derive(Clone, Copy, Debug, PartialEq, Eq, Structural)]
pub struct PortStatus(pub u32);

impl PortStatus {
    /// Whether the bit worth `value` is set.
    pub open spec fn has(self, value: u32) -> bool {
        self.0 / value % 2 == 1
    }

    pub fn from_bytes(data: [u8; 4]) -> (r: Self)
        ensures
            r.0 == bytes::le32(data@, 0),
    {
        PortStatus(bytes::le32_at(&data, 0))
    }

    fn bit(self, value: u32) -> (r: bool)
        requires
            value > 0,
        ensures
            r == self.has(value),
    {
        self.0 / value % 2 == 1
    }

    pub fn connected(self) -> (r: bool)
        ensures
            r == self.has(1),
    {
        self.bit(1)
    }

    pub fn enabled(self) -> (r: bool)
        ensures
            r == self.has(2),
    {
        self.bit(2)
    }

    pub fn overcurrent(self) -> (r: bool)
        ensures
            r == self.has(8),
    {
        self.bit(8)
    }

    pub fn resetting(self) -> (r: bool)
        ensures
            r == self.has(0x10),
    {
        self.bit(0x10)
    }

    pub fn powered(self) -> (r: bool)
        ensures
            r == self.has(0x100),
    {
        self.bit(0x100)
    }

    /// The speed of the device on it, once it is enabled.
    pub open spec fn speed_of(self) -> Speed {
        if self.has(0x200) {
            Speed::Low
        } else if self.has(0x400) {
            Speed::High
        } else {
            Speed::Full
        }
    }

    /// The speed of the device on it, once it is enabled.
    pub fn speed(self) -> (r: Speed)
        ensures
            r == self.speed_of(),
    {
        if self.bit(0x200) {
            Speed::Low
        } else if self.bit(0x400) {
            Speed::High
        } else {
            Speed::Full
        }
    }

    pub fn connection_changed(self) -> (r: bool)
        ensures
            r == self.has(0x1_0000),
    {
        self.bit(0x1_0000)
    }

    pub fn reset_changed(self) -> (r: bool)
        ensures
            r == self.has(0x10_0000),
    {
        self.bit(0x10_0000)
    }
}

/// What a boot protocol keyboard reports on its interrupt endpoint: which modifiers are held,
/// and up to six other keys, by HID usage.
#[derive(Clone, Copy, Debug, PartialEq, Eq)]
pub struct KeyboardReport {
    pub modifiers: u8,
    pub keys: [u8; 6],
}

/// A key usage meaning "too many keys held to tell".
pub const ROLLOVER: u8 = 1;

/// Which keys are held now and weren't before.
pub open spec fn new_key(now: Seq<u8>, before: Seq<u8>) -> spec_fn(u8) -> bool {
    |key: u8| !now.contains(ROLLOVER) && key > ROLLOVER && !before.contains(key)
}

/// Whether `key` is among `keys`.
fn holds(keys: &[u8; 6], key: u8) -> (r: bool)
    ensures
        r == keys@.contains(key),
{
    let mut i: usize = 0;
    while i < 6
        invariant
            i <= 6,
            forall|k: int| 0 <= k < i ==> keys@[k] != key,
        decreases 6 - i,
    {
        if keys[i] == key {
            assert(keys@[i as int] == key);
            return true;
        }
        i += 1;
    }
    false
}

impl KeyboardReport {
    pub const LENGTH: usize = 8;

    pub fn parse(data: &[u8]) -> (r: Result<Self, DescriptorError>)
        ensures
            match r {
                Ok(report) => data@.len() >= Self::LENGTH && report.modifiers == data@[0]
                    && report.keys@ == data@.subrange(2, 8),
                Err(error) => data@.len() < Self::LENGTH && error == DescriptorError::Truncated,
            },
    {
        if data.len() < Self::LENGTH {
            return Err(DescriptorError::Truncated);
        }
        let keys = [data[2], data[3], data[4], data[5], data[6], data[7]];
        assert(keys@ =~= data@.subrange(2, 8));
        Ok(KeyboardReport { modifiers: data[0], keys })
    }

    /// Whether the left or the right shift is held. (The modifiers are left control, shift,
    /// alt, GUI, then the right ones.)
    pub fn shift(&self) -> (r: bool)
        ensures
            r == (self.modifiers / 2 % 2 == 1 || self.modifiers / 0x20 % 2 == 1),
    {
        self.modifiers / 2 % 2 == 1 || self.modifiers / 0x20 % 2 == 1
    }

    /// Keys held now that weren't in `previous`, the report before: the ones just pressed.
    pub fn pressed_since(&self, previous: &KeyboardReport) -> (r: Vec<u8>)
        ensures
            r@ == self.keys@.filter(new_key(self.keys@, previous.keys@)),
    {
        let ghost wanted = new_key(self.keys@, previous.keys@);
        let rollover = holds(&self.keys, ROLLOVER);
        let mut pressed: Vec<u8> = Vec::new();
        let mut i: usize = 0;
        proof {
            reveal(Seq::filter);
            assert(self.keys@.subrange(0, 0).filter(wanted) =~= Seq::<u8>::empty());
        }
        while i < 6
            invariant
                i <= 6,
                rollover == self.keys@.contains(ROLLOVER),
                wanted == new_key(self.keys@, previous.keys@),
                pressed@ == self.keys@.subrange(0, i as int).filter(wanted),
            decreases 6 - i,
        {
            let key = self.keys[i];
            proof {
                reveal(Seq::filter);
                let more = self.keys@.subrange(0, i + 1);
                assert(more.drop_last() =~= self.keys@.subrange(0, i as int));
                assert(more.last() == key);
            }
            if !rollover && key > ROLLOVER && !holds(&previous.keys, key) {
                pressed.push(key);
            }
            i += 1;
        }
        assert(self.keys@.subrange(0, 6) =~= self.keys@);
        pressed
    }
}

/// The characters on the digit keys, from 1 to 0.
pub open spec fn digit_keys(shift: bool) -> Seq<char> {
    if shift {
        seq!['!', '@', '#', '$', '%', '^', '&', '*', '(', ')']
    } else {
        seq!['1', '2', '3', '4', '5', '6', '7', '8', '9', '0']
    }
}

/// The characters on the space bar and the punctuation keys, in the order of their usages.
pub open spec fn punctuation_keys(shift: bool) -> Seq<char> {
    if shift {
        seq![' ', '_', '+', '{', '}', '|', '~', ':', '"', '~', '<', '>', '?']
    } else {
        seq![' ', '-', '=', '[', ']', '\\', '#', ';', '\'', '`', ',', '.', '/']
    }
}

/// The character a key gives on a US layout, with shift held or not, if it gives one.
pub open spec fn key_char(usage: u8, shift: bool) -> Option<char> {
    if 0x04 <= usage <= 0x1D {
        if shift {
            Some((0x41 + usage - 0x04) as char)
        } else {
            Some((0x61 + usage - 0x04) as char)
        }
    } else if 0x1E <= usage <= 0x27 {
        Some(digit_keys(shift)[usage - 0x1E])
    } else if usage == 0x28 {
        Some('\n')
    } else if usage == 0x2A {
        Some('\u{8}')
    } else if usage == 0x2B {
        Some('\t')
    } else if 0x2C <= usage <= 0x38 {
        Some(punctuation_keys(shift)[usage - 0x2C])
    } else {
        None
    }
}

/// The character a key gives on a US layout, with shift held or not, if it gives one.
pub fn key_to_char(usage: u8, shift: bool) -> (r: Option<char>)
    ensures
        r == key_char(usage, shift),
{
    let plain_digits = ['1', '2', '3', '4', '5', '6', '7', '8', '9', '0'];
    let shifted_digits = ['!', '@', '#', '$', '%', '^', '&', '*', '(', ')'];
    let plain_punctuation = [' ', '-', '=', '[', ']', '\\', '#', ';', '\'', '`', ',', '.', '/'];
    let shifted_punctuation = [' ', '_', '+', '{', '}', '|', '~', ':', '"', '~', '<', '>', '?'];
    assert(plain_digits@ =~= digit_keys(false));
    assert(shifted_digits@ =~= digit_keys(true));
    assert(plain_punctuation@ =~= punctuation_keys(false));
    assert(shifted_punctuation@ =~= punctuation_keys(true));
    if 0x04 <= usage && usage <= 0x1D {
        let first: u8 = if shift {
            0x41
        } else {
            0x61
        };
        Some((first + (usage - 0x04)) as char)
    } else if 0x1E <= usage && usage <= 0x27 {
        let i: usize = (usage - 0x1E) as usize;
        Some(if shift {
            shifted_digits[i]
        } else {
            plain_digits[i]
        })
    } else if usage == 0x28 {
        Some('\n')
    } else if usage == 0x2A {
        Some('\u{8}')  // backspace

    } else if usage == 0x2B {
        Some('\t')
    } else if 0x2C <= usage && usage <= 0x38 {
        let i: usize = (usage - 0x2C) as usize;
        Some(if shift {
            shifted_punctuation[i]
        } else {
            plain_punctuation[i]
        })
    } else {
        None
    }
}

/// The letter keys are in the order of the alphabet from usage 4 on, and give capitals with shift;
/// the digit keys, from 1 to 9 and then 0, and the punctuation keys follow.
pub proof fn keys_are_in_their_places(i: int)
    requires
        0 <= i,
    ensures
        i < 26 ==> key_char((4 + i) as u8, false) == Some((97 + i) as char) && key_char(
            (4 + i) as u8,
            true,
        ) == Some((65 + i) as char),
        i < 10 ==> key_char((30 + i) as u8, false) == Some("1234567890"@[i]) && key_char(
            (30 + i) as u8,
            true,
        ) == Some("!@#$%^&*()"@[i]),
        key_char(40, false) == Some('\n') && key_char(40, true) == Some('\n'),
        key_char(42, false) == Some('\x08') && key_char(43, false) == Some('\t'),
        i < 13 ==> key_char((44 + i) as u8, false) == Some(" -=[]\\#;'`,./"@[i]) && key_char(
            (44 + i) as u8,
            true,
        ) == Some(" _+{}|~:\"~<>?"@[i]),
        i < 4 || 56 < i < 256 || i == 41 ==> key_char(i as u8, false) is None && key_char(
            i as u8,
            true,
        ) is None,
{
    reveal_strlit("1234567890");
    reveal_strlit("!@#$%^&*()");
    reveal_strlit(" -=[]\\#;'`,./");
    reveal_strlit(" _+{}|~:\"~<>?");
}

proof fn lemma_filtered_keys(keys: Seq<u8>, wanted: spec_fn(u8) -> bool, key: u8)
    requires
        keys.filter(wanted).contains(key),
    ensures
        keys.contains(key),
    decreases keys.len(),
{
    reveal(Seq::filter);
    if keys.len() > 0 {
        let before = keys.drop_last();
        let told = keys.filter(wanted);
        let i = choose|i: int| 0 <= i < told.len() && told[i] == key;
        if i < before.filter(wanted).len() {
            assert(before.filter(wanted)[i] == key);
            lemma_filtered_keys(before, wanted, key);
            let k = choose|k: int| 0 <= k < before.len() && before[k] == key;
            assert(keys[k] == key);
        } else {
            assert(keys[keys.len() - 1] == key);
        }
    }
}

/// The keys just pressed are those held now that weren't before: of a report that tells of too
/// many keys, none, and never the places without a key.
pub proof fn pressed_keys_are_new(now: Seq<u8>, before: Seq<u8>, key: u8)
    ensures
        now.filter(new_key(now, before)).contains(key) <==> now.contains(key) && !before.contains(
            key,
        ) && key >= 2 && !now.contains(1),
{
    broadcast use vstd::seq_lib::group_filter_ensures;

    let wanted = new_key(now, before);
    let told = now.filter(wanted);
    if told.contains(key) {
        let i = choose|i: int| 0 <= i < told.len() && told[i] == key;
        assert(wanted(told[i]));
        lemma_filtered_keys(now, wanted, key);
    }
    if now.contains(key) && wanted(key) {
        let i = choose|i: int| 0 <= i < now.len() && now[i] == key;
        assert(told.contains(now[i]));
    }
}

/// Classes have the names that are common for them.
pub proof fn classes_have_names()
    ensures
        class_name(0) == "per interface"@,
        class_name(1) == "audio"@,
        class_name(2) == "communications"@,
        class_name(3) == "HID"@,
        class_name(6) == "imaging"@,
        class_name(7) == "printer"@,
        class_name(8) == "mass storage"@,
        class_name(9) == "hub"@,
        class_name(10) == "CDC data"@,
        class_name(11) == "smart card"@,
        class_name(14) == "video"@,
        class_name(224) == "wireless"@,
        class_name(239) == "miscellaneous"@,
        class_name(255) == "vendor specific"@,
        forall|class: u8|
            (4 <= class <= 5 || 12 <= class <= 13 || 15 <= class <= 223 || 225 <= class <= 238
                || 240 <= class <= 254) ==> #[trigger] class_name(class) == "other"@,
{
}

} // verus!
