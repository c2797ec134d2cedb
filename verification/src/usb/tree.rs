//! Enumeration: giving each device on the bus an address and a configuration, and walking
//! down through hubs to find everything behind them. Generic over the host controller
//! (`Bus`), so it can be tested against a pretend bus.
//!
//! A device answers at address 0 from when its port is reset until it is given an address,
//! so only one may be there at a time: ports are reset one after another, and a port whose
//! device failed to enumerate is disabled again.
//!
//! On a high speed bus, low and full speed devices are reached through the transaction
//! translator of the nearest high speed hub above them, with split transactions: `Target`
//! says which hub and port.

use super::{
    Class, Configuration, ConfigurationModel, DescriptorError, DescriptorType, DeviceDescriptor,
    HubDescriptor, PortFeature, PortStatus, SetupPacket, Speed,
};
use crate::bytes;
use vstd::prelude::*;

verus! {

/// Endpoint 0 of a device, as a control transfer needs it.
#[derive(Clone, Copy, Debug, PartialEq, Eq, Structural)]
pub struct Target {
    pub address: u8,
    pub max_packet: u16,
    pub speed: Speed,
    /// For a low or full speed device on a high speed bus: the translator its transactions
    /// are split through.
    pub translator: Option<Translator>,
}

/// A high speed hub's transaction translator, and the port of that hub the device is
/// behind.
#[derive(Clone, Copy, Debug, PartialEq, Eq, Structural)]
pub struct Translator {
    pub hub: u8,
    pub port: u8,
}

/// Something that is done on a bus.
pub enum Request {
    Control(Target, SetupPacket),
    Delay(u32),
}

/// What comes back from a control transfer: how many bytes were received, and what the buffer
/// then holds.
pub struct Reply {
    pub received: nat,
    pub buffer: Seq<u8>,
}

/// A host controller, as far as enumeration needs one.
pub trait Bus {
    type Error;

    /// What has been done so far.
    open spec fn log(&self) -> Seq<Request> {
        Seq::empty()
    }

    /// What comes back from each thing that is done, by how much was done before it.
    open spec fn says(&self) -> spec_fn(int) -> Result<Reply, Self::Error> {
        |i: int| Ok(Reply { received: 0, buffer: Seq::empty() })
    }

    /// A control transfer to endpoint 0 of `target`. The data stage, if `setup` has one, sends
    /// `data` (OUT) or fills it (IN), `setup.length` bytes. Returns the bytes received.
    fn control(&mut self, target: Target, setup: SetupPacket, data: &mut [u8]) -> (r: Result<
        usize,
        Self::Error,
    >)
        ensures
            final(self).log() == old(self).log().push(Request::Control(target, setup)),
            final(self).says() == old(self).says(),
            final(data)@.len() == old(data)@.len(),
            match r {
                Ok(n) => n <= old(data)@.len() && old(self).says()(old(self).log().len() as int)
                    == Ok::<Reply, Self::Error>(
                    Reply { received: n as nat, buffer: final(data)@ },
                ),
                Err(error) => old(self).says()(old(self).log().len() as int) == Err::<
                    Reply,
                    Self::Error,
                >(error),
            },
    ;

    fn delay_ms(&mut self, ms: u32)
        ensures
            final(self).log() == old(self).log().push(Request::Delay(ms)),
            final(self).says() == old(self).says(),
    ;
}

/// Hubs chained deeper than the USB 2.0 limit (five, besides the root).
pub const MAX_DEPTH: usize = 6;

/// Addresses go from 1 to this.
pub const MAX_ADDRESS: u8 = 127;

/// USB 2.0 timings: after SET_ADDRESS, and after a port reset completes.
pub const SET_ADDRESS_RECOVERY_MS: u32 = 2;

pub const RESET_RECOVERY_MS: u32 = 10;

/// At least this long between powering a hub's ports and looking for devices on them: the
/// hub's own power-good time is too short for some devices to attach, like the Pi 3 B+'s
/// LAN7800.
pub const MIN_POWER_UP_MS: u32 = 510;

/// How long a hub gets to finish resetting a port, checked every `RESET_POLL_MS`.
pub const RESET_TIMEOUT_MS: u32 = 500;

pub const RESET_POLL_MS: u32 = 10;

#[derive(Debug)]
pub enum Error<E> {
    Bus(E),
    Descriptor(DescriptorError),
    OutOfAddresses,
    /// The hub didn't finish resetting the port.
    ResetTimedOut,
    /// The port wasn't enabled after its reset.
    NotEnabled,
    TooDeep,
}

impl<E> From<DescriptorError> for Error<E> {
    fn from(error: DescriptorError) -> (r: Self) {
        Error::Descriptor(error)
    }
}

impl<E> vstd::std_specs::convert::FromSpecImpl<DescriptorError> for Error<E> {
    open spec fn obeys_from_spec() -> bool {
        true
    }

    open spec fn from_spec(error: DescriptorError) -> Self {
        Error::Descriptor(error)
    }
}

impl<E> Error<E> {
    /// How it is shown, if the bus's error is shown as `bus`.
    pub open spec fn shown(self, bus: Seq<char>) -> Seq<char> {
        match self {
            Error::Bus(_) => bus,
            Error::Descriptor(error) => error.shown(),
            Error::OutOfAddresses => "out of device addresses"@,
            Error::ResetTimedOut => "port reset timed out"@,
            Error::NotEnabled => "port not enabled after reset"@,
            Error::TooDeep => "hubs chained too deep"@,
        }
    }

    /// How it is shown, if the bus's error is shown as `bus`.
    pub fn describe(&self, bus: &str) -> (r: String)
        ensures
            r@ == self.shown(bus@),
    {
        match self {
            Error::Bus(_) => bus.to_owned(),
            Error::Descriptor(error) => error.to_string(),
            Error::OutOfAddresses => "out of device addresses".to_owned(),
            Error::ResetTimedOut => "port reset timed out".to_owned(),
            Error::NotEnabled => "port not enabled after reset".to_owned(),
            Error::TooDeep => "hubs chained too deep".to_owned(),
        }
    }
}

/// A device, addressed and configured.
#[derive(Debug)]
pub struct Device<E> {
    pub address: u8,
    pub speed: Speed,
    pub translator: Option<Translator>,
    pub descriptor: DeviceDescriptor,
    pub configuration: Configuration,
    pub hub: Option<Hub<E>>,
}

#[derive(Debug)]
pub struct Hub<E> {
    pub descriptor: HubDescriptor,
    /// Port 1 first.
    pub ports: Vec<Port<E>>,
}

/// What is on a hub's port.
#[derive(Debug)]
pub enum Port<E> {
    Empty,
    Device(Device<E>),
    /// Something is there, but enumerating it failed. Its port is disabled.
    Failed(Error<E>),
}

/// A device, with everything behind it.
pub struct DeviceModel<E> {
    pub address: u8,
    pub speed: Speed,
    pub translator: Option<Translator>,
    pub descriptor: DeviceDescriptor,
    pub configuration: ConfigurationModel,
    pub hub: Option<HubModel<E>>,
}

/// A hub, with everything on its ports.
pub struct HubModel<E> {
    pub descriptor: HubDescriptor,
    pub ports: Seq<PortModel<E>>,
}

/// What is on a hub's port.
pub enum PortModel<E> {
    Empty,
    Device(DeviceModel<E>),
    Failed(Error<E>),
}

impl<E> Device<E> {
    pub open spec fn view(&self) -> DeviceModel<E>
        decreases self,
    {
        DeviceModel {
            address: self.address,
            speed: self.speed,
            translator: self.translator,
            descriptor: self.descriptor,
            configuration: self.configuration@,
            hub: match self.hub {
                Some(hub) => Some(hub.view()),
                None => None,
            },
        }
    }
}

impl<E> Hub<E> {
    pub open spec fn view(&self) -> HubModel<E>
        decreases self,
    {
        HubModel {
            descriptor: self.descriptor,
            ports: Seq::new(
                self.ports@.len(),
                |i: int|
                    if 0 <= i < self.ports@.len() {
                        self.ports@[i].view()
                    } else {
                        PortModel::Empty
                    },
            ),
        }
    }
}

impl<E> Port<E> {
    pub open spec fn view(&self) -> PortModel<E>
        decreases self,
    {
        match self {
            Port::Empty => PortModel::Empty,
            Port::Device(device) => PortModel::Device(device.view()),
            Port::Failed(error) => PortModel::Failed(*error),
        }
    }

    pub fn device(&self) -> (r: Option<&Device<E>>)
        ensures
            match r {
                Some(device) => self@ == PortModel::Device(device@),
                None => !(self@ is Device),
            },
    {
        match self {
            Port::Device(device) => Some(device),
            _ => None,
        }
    }
}

/// A device that came or went, from `Tree::poll_changes`.
#[derive(Clone, Copy, Debug, PartialEq, Eq, Structural)]
pub enum Change {
    /// Enumerated, with anything behind it.
    Added { address: u8 },
    /// Gone, with anything that was behind it.
    Removed { address: u8 },
}

// What is done on a bus, and what comes of it.
/// What a bus answers: what comes back from each thing that is done on it, by how much was done
/// before.
pub type Says<E> = spec_fn(int) -> Result<Reply, E>;

/// What was done so far, and which addresses are in use.
pub struct State {
    pub log: Seq<Request>,
    pub used: Seq<bool>,
}

/// A control transfer.
pub open spec fn asked<E>(
    says: Says<E>,
    st: State,
    target: Target,
    setup: SetupPacket,
) -> (Result<Reply, Error<E>>, State) {
    (
        match says(st.log.len() as int) {
            Ok(reply) => Ok(reply),
            Err(error) => Err(Error::Bus(error)),
        },
        State { log: st.log.push(Request::Control(target, setup)), ..st },
    )
}

/// A wait.
pub open spec fn waited(st: State, ms: u32) -> State {
    State { log: st.log.push(Request::Delay(ms)), ..st }
}

/// What was received.
pub open spec fn heard(reply: Reply) -> Seq<u8> {
    reply.buffer.subrange(0, reply.received as int)
}

/// What comes of asking a hub for a port's status.
pub open spec fn status_asked<E>(says: Says<E>, st: State, hub: Target, port: u8) -> (
    Result<PortStatus, Error<E>>,
    State,
) {
    match asked(says, st, hub, SetupPacket::get_port_status(port)) {
        (Ok(reply), st) => (Ok(PortStatus(bytes::le32(reply.buffer, 0))), st),
        (Err(error), st) => (Err(error), st),
    }
}

/// Whether a port's reset is done.
pub open spec fn reset_done(status: PortStatus) -> bool {
    status.has(0x10_0000) || (!status.has(0x10) && status.has(2))
}

/// What comes of waiting for a port's reset, `already` of the time having passed.
pub open spec fn reset_awaited<E>(
    says: Says<E>,
    st: State,
    hub: Target,
    port: u8,
    already: int,
) -> (Result<PortStatus, Error<E>>, State)
    decreases RESET_TIMEOUT_MS - already,
{
    match status_asked(says, waited(st, RESET_POLL_MS), hub, port) {
        (Err(error), st) => (Err(error), st),
        (Ok(status), st) => if reset_done(status) {
            (Ok(status), st)
        } else if already + RESET_POLL_MS >= RESET_TIMEOUT_MS {
            (Err(Error::ResetTimedOut), st)
        } else {
            reset_awaited(says, st, hub, port, already + RESET_POLL_MS)
        },
    }
}

/// What comes of resetting a port with a device on it: the device's speed.
pub open spec fn port_reset<E>(says: Says<E>, st: State, hub: Target, port: u8) -> (
    Result<Speed, Error<E>>,
    State,
) {
    match asked(says, st, hub, SetupPacket::set_port_feature(port, PortFeature::reset())) {
        (Err(error), st) => (Err(error), st),
        (Ok(_), st) => match reset_awaited(says, st, hub, port, 0) {
            (Err(error), st) => (Err(error), st),
            (Ok(status), st) => reset_acknowledged(says, st, hub, port, status),
        },
    }
}

/// What comes of acknowledging that a port's reset is done.
pub open spec fn reset_acknowledged<E>(
    says: Says<E>,
    st: State,
    hub: Target,
    port: u8,
    status: PortStatus,
) -> (Result<Speed, Error<E>>, State) {
    match asked(says, st, hub, SetupPacket::clear_port_feature(port, PortFeature::reset_change())) {
        (Err(error), st) => (Err(error), st),
        (Ok(_), st) => match asked(
            says,
            st,
            hub,
            SetupPacket::clear_port_feature(port, PortFeature::connection_change()),
        ) {
            (Err(error), st) => (Err(error), st),
            (Ok(_), st) => (
                if status.has(2) {
                    Ok(status.speed_of())
                } else {
                    Err(Error::NotEnabled)
                },
                waited(st, RESET_RECOVERY_MS),
            ),
        },
    }
}

/// The lowest address from `from` on that isn't in use.
pub open spec fn lowest_free(used: Seq<bool>, from: int) -> Option<u8>
    decreases MAX_ADDRESS + 1 - from,
{
    if from > MAX_ADDRESS {
        None
    } else if !used[from] {
        Some(from as u8)
    } else {
        lowest_free(used, from + 1)
    }
}

/// Whether a device is a hub: it says so, or an interface of it does.
pub open spec fn is_hub(descriptor: DeviceDescriptor, configuration: ConfigurationModel) -> bool {
    descriptor.class == Class::hub() || exists|i: int|
        0 <= i < configuration.interfaces.len() && (#[trigger] configuration.interfaces[i]).class
            == Class::hub()
}

/// The translator for a device of speed `speed` on a hub's port: below a high speed hub, a
/// slower device gets that hub's translator. Further down, behind a full speed hub, it shares
/// the translator that hub uses.
pub open spec fn translator_for(hub: Target, port: u8, speed: Speed) -> Option<Translator> {
    if hub.speed == Speed::High {
        if speed == Speed::High {
            None
        } else {
            Some(Translator { hub: hub.address, port })
        }
    } else {
        hub.translator
    }
}

/// What comes of asking a device for its first configuration, and for how long that is first.
pub open spec fn configuration_asked<E>(says: Says<E>, st: State, target: Target) -> (
    Result<ConfigurationModel, Error<E>>,
    State,
) {
    let kind = DescriptorType::configuration();
    match asked(says, st, target, SetupPacket::get_descriptor(kind, 0, 9)) {
        (Err(error), st) => (Err(error), st),
        (Ok(reply), st) => match super::total_length_in(heard(reply)) {
            Err(error) => (Err(Error::Descriptor(error)), st),
            Ok(total) => match asked(says, st, target, SetupPacket::get_descriptor(kind, 0, total)) {
                (Err(error), st) => (Err(error), st),
                (Ok(reply), st) => match super::configuration_in(heard(reply)) {
                    Err(error) => (Err(Error::Descriptor(error)), st),
                    Ok(configuration) => (Ok(configuration), st),
                },
            },
        },
    }
}

/// What comes of asking a device for its descriptors and choosing its configuration.
pub open spec fn configured<E>(says: Says<E>, st: State, target: Target) -> (
    Result<(DeviceDescriptor, ConfigurationModel), Error<E>>,
    State,
) {
    match asked(says, st, target, SetupPacket::get_descriptor(DescriptorType::device(), 0, 18)) {
        (Err(error), st) => (Err(error), st),
        (Ok(reply), st) => match super::device_in(heard(reply)) {
            Err(error) => (Err(Error::Descriptor(error)), st),
            Ok(descriptor) => match configuration_asked(says, st, target) {
                (Err(error), st) => (Err(error), st),
                (Ok(configuration), st) => match asked(
                    says,
                    st,
                    target,
                    SetupPacket::set_configuration(configuration.value),
                ) {
                    (Err(error), st) => (Err(error), st),
                    (Ok(_), st) => (Ok((descriptor, configuration)), st),
                },
            },
        },
    }
}

/// What comes of enumerating the device that answers at address 0, `depth` hubs below the root.
pub open spec fn device_found<E>(
    says: Says<E>,
    st: State,
    speed: Speed,
    translator: Option<Translator>,
    depth: int,
) -> (Result<DeviceModel<E>, Error<E>>, State)
    decreases MAX_DEPTH - depth, 4int, 0int,
{
    let default = Target { address: 0, max_packet: 8, speed, translator };
    match asked(says, st, default, SetupPacket::get_descriptor(DescriptorType::device(), 0, 8)) {
        (Err(error), st) => (Err(error), st),
        (Ok(reply), st) => match super::packet_size_in(heard(reply)) {
            Err(error) => (Err(Error::Descriptor(error)), st),
            Ok(size) => match lowest_free(st.used, 1) {
                None => (Err(Error::OutOfAddresses), st),
                Some(address) => {
                    let taken = State { used: st.used.update(address as int, true), ..st };
                    let sized = Target { max_packet: size as u16, ..default };
                    match addressed(says, taken, sized, address, depth) {
                        (Ok(device), st) => (Ok(device), st),
                        // Its port is disabled, so nothing answers there any more.
                        (Err(error), st) => (
                            Err(error),
                            State { used: st.used.update(address as int, false), ..st },
                        ),
                    }
                },
            },
        },
    }
}

/// What comes of the rest of enumerating a device, from giving it `address`.
pub open spec fn addressed<E>(
    says: Says<E>,
    st: State,
    default: Target,
    address: u8,
    depth: int,
) -> (Result<DeviceModel<E>, Error<E>>, State)
    decreases MAX_DEPTH - depth, 3int, 0int,
{
    match asked(says, st, default, SetupPacket::set_address(address)) {
        (Err(error), st) => (Err(error), st),
        (Ok(_), st) => {
            let target = Target { address, ..default };
            match configured(says, waited(st, SET_ADDRESS_RECOVERY_MS), target) {
                (Err(error), st) => (Err(error), st),
                (Ok((descriptor, configuration)), st) => {
                    let device = DeviceModel {
                        address,
                        speed: default.speed,
                        translator: default.translator,
                        descriptor,
                        configuration,
                        hub: None,
                    };
                    if is_hub(descriptor, configuration) {
                        match hub_found(says, st, target, depth) {
                            (Err(error), st) => (Err(error), st),
                            (Ok(hub), st) => (Ok(DeviceModel { hub: Some(hub), ..device }), st),
                        }
                    } else {
                        (Ok(device), st)
                    }
                },
            }
        },
    }
}

/// What comes of powering a hub's ports from `port` to `last`.
pub open spec fn ports_powered<E>(says: Says<E>, st: State, hub: Target, port: int, last: int) -> (
    Result<(), Error<E>>,
    State,
)
    decreases last + 1 - port,
{
    if port > last {
        (Ok(()), st)
    } else {
        match asked(
            says,
            st,
            hub,
            SetupPacket::set_port_feature(port as u8, PortFeature::power()),
        ) {
            (Err(error), st) => (Err(error), st),
            (Ok(_), st) => ports_powered(says, st, hub, port + 1, last),
        }
    }
}

/// How long a hub's ports take until devices are looked for on them.
pub open spec fn power_up(descriptor: HubDescriptor) -> u32 {
    if descriptor.power_on_to_good_ms > MIN_POWER_UP_MS {
        descriptor.power_on_to_good_ms
    } else {
        MIN_POWER_UP_MS
    }
}

/// What comes of powering a hub's ports and enumerating what is on each.
pub open spec fn hub_found<E>(says: Says<E>, st: State, hub: Target, depth: int) -> (
    Result<HubModel<E>, Error<E>>,
    State,
)
    decreases MAX_DEPTH - depth, 2int, 0int,
{
    match asked(says, st, hub, SetupPacket::get_hub_descriptor(9)) {
        (Err(error), st) => (Err(error), st),
        (Ok(reply), st) => match super::hub_in(heard(reply)) {
            Err(error) => (Err(Error::Descriptor(error)), st),
            Ok(descriptor) => match ports_powered(says, st, hub, 1, descriptor.ports as int) {
                (Err(error), st) => (Err(error), st),
                (Ok(_), st) => {
                    let (ports, st) = ports_found(
                        says,
                        waited(st, power_up(descriptor)),
                        hub,
                        descriptor.ports as int,
                        depth,
                    );
                    (Ok(HubModel { descriptor, ports }), st)
                },
            },
        },
    }
}

/// What comes of enumerating what is on the first `n` ports of a hub.
pub open spec fn ports_found<E>(says: Says<E>, st: State, hub: Target, n: int, depth: int) -> (
    Seq<PortModel<E>>,
    State,
)
    decreases MAX_DEPTH - depth, 1int, n,
{
    if n <= 0 {
        (Seq::empty(), st)
    } else {
        let (before, st) = ports_found(says, st, hub, n - 1, depth);
        let (port, st) = port_found(says, st, hub, n as u8, depth);
        (before.push(port), st)
    }
}

/// What comes of resetting a port and enumerating the device on it, if there is one.
pub open spec fn port_found<E>(says: Says<E>, st: State, hub: Target, port: u8, depth: int) -> (
    PortModel<E>,
    State,
)
    decreases MAX_DEPTH - depth, 0int, 0int,
{
    match status_asked(says, st, hub, port) {
        (Err(error), st) => (PortModel::Failed(error), st),
        (Ok(status), st) => if !status.has(1) {
            (PortModel::Empty, st)
        } else {
            let (found, st) = match port_reset(says, st, hub, port) {
                (Err(error), st) => (Err(error), st),
                (Ok(speed), st) => if depth + 1 >= MAX_DEPTH {
                    (Err(Error::TooDeep), st)
                } else {
                    device_found(says, st, speed, translator_for(hub, port, speed), depth + 1)
                },
            };
            match found {
                Ok(device) => (PortModel::Device(device), st),
                // Out of the way of the next port's device at address 0.
                Err(error) => (
                    PortModel::Failed(error),
                    asked(
                        says,
                        st,
                        hub,
                        SetupPacket::clear_port_feature(port, PortFeature::enable()),
                    ).1,
                ),
            }
        },
    }
}

// Walking.
impl<E> DeviceModel<E> {
    /// Endpoint 0, for control transfers to it.
    pub open spec fn target(self) -> Target {
        Target {
            address: self.address,
            max_packet: self.descriptor.max_packet_size as u16,
            speed: self.speed,
            translator: self.translator,
        }
    }

    /// This device and everything behind it, depth first, each with how many hubs deep it is.
    pub open spec fn walked(self, depth: int) -> Seq<(int, DeviceModel<E>)>
        decreases self,
    {
        seq![(depth, self)] + match self.hub {
            Some(hub) => walked_ports(hub.ports, depth + 1),
            None => Seq::empty(),
        }
    }

    /// The addresses of this device and everything behind it.
    pub open spec fn addresses(self) -> Seq<u8>
        decreases self,
    {
        seq![self.address] + match self.hub {
            Some(hub) => addresses_on(hub.ports),
            None => Seq::empty(),
        }
    }

    /// Whether there are no more than `levels` hubs behind one another, none with more ports
    /// than can be numbered, and every address is one.
    pub open spec fn fits(self, levels: int) -> bool
        decreases self,
    {
        &&& 1 <= self.address <= MAX_ADDRESS
        &&& match self.hub {
            Some(hub) => levels >= 1 && hub.ports.len() <= 255 && fit_on(hub.ports, levels - 1),
            None => true,
        }
    }
}

/// What is on ports and everything behind it, depth first.
pub open spec fn walked_ports<E>(ports: Seq<PortModel<E>>, depth: int) -> Seq<
    (int, DeviceModel<E>),
>
    decreases ports,
{
    if ports.len() == 0 {
        Seq::empty()
    } else {
        let n = ports.len() as int;
        walked_ports(ports.subrange(0, n - 1), depth) + match ports[n - 1] {
            PortModel::Device(device) => device.walked(depth),
            _ => Seq::empty(),
        }
    }
}

/// The addresses of what is on a port and everything behind it.
pub open spec fn addresses_at<E>(port: PortModel<E>) -> Seq<u8>
    decreases port,
{
    match port {
        PortModel::Device(device) => device.addresses(),
        _ => Seq::empty(),
    }
}

/// The addresses of what is on ports and everything behind it.
pub open spec fn addresses_on<E>(ports: Seq<PortModel<E>>) -> Seq<u8>
    decreases ports,
{
    if ports.len() == 0 {
        Seq::empty()
    } else {
        let n = ports.len() as int;
        addresses_on(ports.subrange(0, n - 1)) + addresses_at(ports[n - 1])
    }
}

/// Whether what is on ports has no more than `levels` hubs behind one another.
pub open spec fn fit_on<E>(ports: Seq<PortModel<E>>, levels: int) -> bool
    decreases ports,
{
    forall|i: int| 0 <= i < ports.len() ==> fits_at(#[trigger] ports[i], levels)
}

/// Whether what is on a port has no more than `levels` hubs behind one another.
pub open spec fn fits_at<E>(port: PortModel<E>, levels: int) -> bool
    decreases port,
{
    match port {
        PortModel::Device(device) => device.fits(levels),
        _ => true,
    }
}

// Looking again.
/// The addresses in use once `addresses` are given back.
pub open spec fn given_back(used: Seq<bool>, addresses: Seq<u8>) -> Seq<bool> {
    Seq::new(used.len(), |i: int| used[i] && !addresses.contains(i as u8))
}

/// What comes of looking at a device's ports, if it is a hub, and on down through the hubs on
/// them, for devices that came or went.
pub open spec fn polled<E>(says: Says<E>, st: State, device: DeviceModel<E>, depth: int) -> (
    DeviceModel<E>,
    Seq<Change>,
    State,
)
    decreases MAX_DEPTH - depth, 2int, 0int,
{
    match device.hub {
        None => (device, Seq::empty(), st),
        Some(hub) => if depth >= MAX_DEPTH {
            (device, Seq::empty(), st)
        } else {
            let (ports, changes, st) = ports_polled(
                says,
                st,
                device.target(),
                hub.ports,
                hub.ports.len() as int,
                depth,
            );
            (DeviceModel { hub: Some(HubModel { ports, ..hub }), ..device }, changes, st)
        },
    }
}

/// What comes of looking at the first `n` ports of a hub.
pub open spec fn ports_polled<E>(
    says: Says<E>,
    st: State,
    target: Target,
    ports: Seq<PortModel<E>>,
    n: int,
    depth: int,
) -> (Seq<PortModel<E>>, Seq<Change>, State)
    decreases MAX_DEPTH - depth, 1int, n,
{
    if n <= 0 {
        (Seq::empty(), Seq::empty(), st)
    } else {
        let (before, changes, st) = ports_polled(says, st, target, ports, n - 1, depth);
        let (port, more, st) = port_polled(says, st, target, ports[n - 1], n as u8, depth);
        (before.push(port), changes + more, st)
    }
}

/// What comes of looking at a port.
pub open spec fn port_polled<E>(
    says: Says<E>,
    st: State,
    target: Target,
    port: PortModel<E>,
    number: u8,
    depth: int,
) -> (PortModel<E>, Seq<Change>, State)
    decreases MAX_DEPTH - depth, 0int, 0int,
{
    match status_asked(says, st, target, number) {
        // A hub that doesn't answer is going away itself: its own port will say so.
        (Err(_), st) => (port, Seq::empty(), st),
        (Ok(status), st) => if !status.has(0x1_0000) {
            match port {
                PortModel::Device(child) => if depth < MAX_DEPTH {
                    let (child, changes, st) = polled(says, st, child, depth + 1);
                    (PortModel::Device(child), changes, st)
                } else {
                    (port, Seq::empty(), st)
                },
                _ => (port, Seq::empty(), st),
            }
        } else {
            port_changed(says, st, target, port, number, depth, status)
        },
    }
}

/// What comes of a port on which something came or went.
pub open spec fn port_changed<E>(
    says: Says<E>,
    st: State,
    target: Target,
    port: PortModel<E>,
    number: u8,
    depth: int,
    status: PortStatus,
) -> (PortModel<E>, Seq<Change>, State) {
    let st = asked(
        says,
        st,
        target,
        SetupPacket::clear_port_feature(number, PortFeature::connection_change()),
    ).1;
    let st = State { used: given_back(st.used, addresses_at(port)), ..st };
    let removed = match port {
        PortModel::Device(gone) => seq![Change::Removed { address: gone.address }],
        _ => Seq::empty(),
    };
    if status.has(1) {
        let (found, st) = port_found(says, st, target, number, depth);
        let added = match found {
            PortModel::Device(device) => seq![Change::Added { address: device.address }],
            _ => Seq::empty(),
        };
        (found, removed + added, st)
    } else {
        (PortModel::Empty, removed, st)
    }
}

// Doing it.
/// Device addresses in use.
pub struct Addresses {
    used: [bool; 128],
}

impl Addresses {
    /// Which addresses are in use.
    pub closed spec fn view(&self) -> Seq<bool> {
        self.used@
    }

    pub fn new() -> (r: Self)
        ensures
            r@ == Seq::new(128, |i: int| false),
    {
        let used = [false;128];
        assert forall|i: int| 0 <= i < 128 implies !#[trigger] used@[i] by {
            assert(vstd::array::spec_array_fill_for_copy_type::<bool, 128>(false)@[i] == false);
        }
        assert(used@ =~= Seq::new(128, |i: int| false));
        Addresses { used }
    }

    /// The lowest free address.
    pub fn take(&mut self) -> (r: Option<u8>)
        ensures
            r == lowest_free(old(self)@, 1),
            match r {
                Some(address) => 1 <= address <= MAX_ADDRESS && final(self)@ == old(self)@.update(
                    address as int,
                    true,
                ),
                None => final(self)@ == old(self)@,
            },
    {
        let mut address: usize = 1;
        while address <= 127
            invariant
                1 <= address <= 128,
                self.used@ == old(self).used@,
                lowest_free(old(self)@, 1) == lowest_free(old(self)@, address as int),
            decreases 128 - address,
        {
            if !self.used[address] {
                self.used[address] = true;
                return Some(address as u8);
            }
            address += 1;
        }
        None
    }

    /// Gives back `address`.
    pub fn release(&mut self, address: u8)
        requires
            address <= MAX_ADDRESS,
        ensures
            final(self)@ == old(self)@.update(address as int, false),
    {
        self.used[address as usize] = false;
    }

    /// Gives back `device`'s address and those of everything behind it.
    pub fn free<E>(&mut self, device: &Device<E>)
        requires
            device@.fits(MAX_DEPTH as int),
        ensures
            final(self)@ == given_back(old(self)@, device@.addresses()),
    {
        let found = device.walk();
        let ghost all = device@.addresses();
        proof {
            lemma_walked(device@, 0);
            lemma_addresses_fit(device@, MAX_DEPTH as int);
        }
        let mut i: usize = 0;
        assert(self@ =~= given_back(old(self)@, all.subrange(0, 0)));
        while i < found.len()
            invariant
                i <= found@.len() == all.len(),
                forall|k: int| 0 <= k < found@.len() ==> (#[trigger] found@[k]).1@.address == all[k],
                forall|k: int| 0 <= k < all.len() ==> 1 <= #[trigger] all[k] <= MAX_ADDRESS,
                self@.len() == 128,
                old(self)@.len() == 128,
                self@ == given_back(old(self)@, all.subrange(0, i as int)),
            decreases found@.len() - i,
        {
            let address = found[i].1.address;
            assert(found@[i as int].1@.address == all[i as int]);
            let ghost before = self@;
            self.release(address);
            i += 1;
            proof {
                let part = all.subrange(0, i as int);
                assert(part =~= all.subrange(0, i - 1).push(address));
                assert forall|k: int| 0 <= k < 128 implies self@[k] == given_back(
                    old(self)@,
                    part,
                )[k] by {
                    lemma_push_contains(all.subrange(0, i - 1), address, k as u8);
                }
                assert(self@ =~= given_back(old(self)@, part));
            }
        }
        assert(all.subrange(0, i as int) =~= all);
    }
}

proof fn lemma_push_contains(s: Seq<u8>, x: u8, y: u8)
    ensures
        s.push(x).contains(y) <==> s.contains(y) || x == y,
{
    if s.push(x).contains(y) {
        let i = choose|i: int| 0 <= i < s.push(x).len() && s.push(x)[i] == y;
        if i < s.len() {
            assert(s[i] == y);
        }
    }
    if s.contains(y) {
        let i = choose|i: int| 0 <= i < s.len() && s[i] == y;
        assert(s.push(x)[i] == y);
    }
    if x == y {
        assert(s.push(x)[s.len() as int] == y);
    }
}

/// Walking gives the addresses, in the same order.
proof fn lemma_walked<E>(device: DeviceModel<E>, depth: int)
    ensures
        device.walked(depth).len() == device.addresses().len(),
        forall|k: int|
            0 <= k < device.walked(depth).len() ==> (#[trigger] device.walked(depth)[k]).1.address
                == device.addresses()[k],
    decreases device,
{
    if let Some(hub) = device.hub {
        lemma_walked_ports(hub.ports, depth + 1);
    }
}

proof fn lemma_walked_ports<E>(ports: Seq<PortModel<E>>, depth: int)
    ensures
        walked_ports(ports, depth).len() == addresses_on(ports).len(),
        forall|k: int|
            0 <= k < walked_ports(ports, depth).len() ==> (#[trigger] walked_ports(
                ports,
                depth,
            )[k]).1.address == addresses_on(ports)[k],
    decreases ports,
{
    if ports.len() > 0 {
        let n = ports.len() as int;
        let front = ports.subrange(0, n - 1);
        lemma_walked_ports(front, depth);
        let last = addresses_at(ports[n - 1]);
        let there = match ports[n - 1] {
            PortModel::Device(device) => device.walked(depth),
            _ => Seq::empty(),
        };
        if let PortModel::Device(device) = ports[n - 1] {
            lemma_walked(device, depth);
            assert(last == device.addresses());
        } else {
            assert(last == Seq::<u8>::empty());
        }
        let all = walked_ports(ports, depth);
        assert(all == walked_ports(front, depth) + there);
        assert(addresses_on(ports) == addresses_on(front) + last);
        assert forall|k: int| 0 <= k < all.len() implies (#[trigger] all[k]).1.address
            == addresses_on(ports)[k] by {
            if k < walked_ports(front, depth).len() {
                assert(all[k] == walked_ports(front, depth)[k]);
            } else {
                assert(all[k] == there[k - walked_ports(front, depth).len()]);
            }
        }
    }
}

/// Every address of a device that fits is one.
proof fn lemma_addresses_fit<E>(device: DeviceModel<E>, levels: int)
    requires
        device.fits(levels),
    ensures
        forall|k: int|
            0 <= k < device.addresses().len() ==> 1 <= #[trigger] device.addresses()[k]
                <= MAX_ADDRESS,
    decreases device,
{
    if let Some(hub) = device.hub {
        lemma_addresses_on_fit(hub.ports, levels - 1);
        let behind = addresses_on(hub.ports);
        assert forall|k: int| 0 <= k < device.addresses().len() implies 1
            <= #[trigger] device.addresses()[k] <= MAX_ADDRESS by {
            if k > 0 {
                assert(device.addresses()[k] == behind[k - 1]);
            }
        }
    }
}

proof fn lemma_addresses_on_fit<E>(ports: Seq<PortModel<E>>, levels: int)
    requires
        fit_on(ports, levels),
    ensures
        forall|k: int|
            0 <= k < addresses_on(ports).len() ==> 1 <= #[trigger] addresses_on(ports)[k]
                <= MAX_ADDRESS,
    decreases ports,
{
    if ports.len() > 0 {
        let n = ports.len() as int;
        let front = ports.subrange(0, n - 1);
        assert(fit_on(front, levels)) by {
            assert forall|i: int| 0 <= i < front.len() implies fits_at(
                #[trigger] front[i],
                levels,
            ) by {
                assert(front[i] == ports[i]);
            }
        }
        lemma_addresses_on_fit(front, levels);
        assert(fits_at(ports[n - 1], levels));
        let last = addresses_at(ports[n - 1]);
        if let PortModel::Device(device) = ports[n - 1] {
            lemma_addresses_fit(device, levels);
            assert(last == device.addresses());
        } else {
            assert(last == Seq::<u8>::empty());
        }
        let all = addresses_on(ports);
        let before = addresses_on(front);
        assert forall|k: int| 0 <= k < all.len() implies 1 <= #[trigger] all[k] <= MAX_ADDRESS by {
            if k < before.len() {
                assert(all[k] == before[k]);
            } else {
                assert(all[k] == last[k - before.len()]);
            }
        }
    }
}

/// The devices in a list of them, with how deep each is.
pub open spec fn places_of<E>(list: Seq<(usize, &Device<E>)>) -> Seq<(int, DeviceModel<E>)> {
    Seq::new(list.len(), |i: int| (list[i].0 as int, list[i].1@))
}

impl<E> Device<E> {
    /// Endpoint 0, for control transfers to it.
    pub fn target(&self) -> (r: Target)
        ensures
            r == self@.target(),
    {
        Target {
            address: self.address,
            max_packet: self.descriptor.max_packet_size as u16,
            speed: self.speed,
            translator: self.translator,
        }
    }

    /// What kind of device it is: its own class, or if it leaves that to its interfaces, its
    /// first interface's.
    pub fn class(&self) -> (r: Class)
        ensures
            r == (if self.descriptor.class == Class::per_interface()
                && self.configuration@.interfaces.len() > 0 {
                self.configuration@.interfaces[0].class
            } else {
                self.descriptor.class
            }),
    {
        if self.descriptor.class == Class::per_interface() && self.configuration.interfaces.len()
            > 0 {
            self.configuration.interfaces[0].class
        } else {
            self.descriptor.class
        }
    }

    /// This device and everything behind it, depth first, each with how many hubs deep it is.
    pub fn walk(&self) -> (r: Vec<(usize, &Device<E>)>)
        requires
            self@.fits(MAX_DEPTH as int),
        ensures
            places_of(r@) == self@.walked(0),
            r@.len() == self@.walked(0).len(),
            forall|k: int|
                0 <= k < r@.len() ==> (#[trigger] r@[k]).1@ == self@.walked(0)[k].1,
    {
        let mut found: Vec<(usize, &Device<E>)> = Vec::new();
        self.walk_into(0, &mut found, Ghost(MAX_DEPTH as int));
        assert(places_of(found@) =~= self@.walked(0));
        assert forall|k: int| 0 <= k < found@.len() implies (#[trigger] found@[k]).1@
            == self@.walked(0)[k].1 by {
            assert(places_of(found@)[k] == self@.walked(0)[k]);
        }
        found
    }

    fn walk_into<'a>(
        &'a self,
        depth: usize,
        found: &mut Vec<(usize, &'a Device<E>)>,
        Ghost(levels): Ghost<int>,
    )
        requires
            self@.fits(levels),
            0 <= levels,
            depth + levels <= MAX_DEPTH,
        ensures
            places_of(final(found)@) == places_of(old(found)@) + self@.walked(depth as int),
        decreases levels,
    {
        let ghost start = places_of(found@);
        found.push((depth, self));
        assert(places_of(found@) =~= start.push((depth as int, self@)));
        match &self.hub {
            Some(hub) => {
                let ghost ports = hub@.ports;
                let mut i: usize = 0;
                assert(walked_ports(ports.subrange(0, 0), depth + 1) =~= Seq::<
                    (int, DeviceModel<E>),
                >::empty());
                assert(places_of(found@) =~= start + (seq![(depth as int, self@)] + walked_ports(
                    ports.subrange(0, 0),
                    depth + 1,
                )));
                while i < hub.ports.len()
                    invariant
                        i <= hub.ports@.len() == ports.len(),
                        ports == hub@.ports,
                        levels >= 1,
                        depth + levels <= MAX_DEPTH,
                        fit_on(ports, levels - 1),
                        places_of(found@) == start + (seq![(depth as int, self@)] + walked_ports(
                            ports.subrange(0, i as int),
                            depth + 1,
                        )),
                    decreases hub.ports@.len() - i,
                {
                    let ghost before = places_of(found@);
                    assert(ports[i as int] == hub.ports@[i as int]@);
                    assert(fits_at(ports[i as int], levels - 1));
                    if let Port::Device(device) = &hub.ports[i] {
                        device.walk_into(depth + 1, found, Ghost(levels - 1));
                    }
                    i += 1;
                    proof {
                        let part = ports.subrange(0, i as int);
                        assert(part.subrange(0, i - 1) =~= ports.subrange(0, i - 1));
                        assert(part[i - 1] == ports[i - 1]);
                        assert(places_of(found@) =~= start + (seq![(depth as int, self@)]
                            + walked_ports(part, depth + 1)));
                    }
                }
                assert(ports.subrange(0, i as int) =~= ports);
            },
            None => {
                assert(places_of(found@) =~= start + self@.walked(depth as int));
            },
        }
    }
}

/// What was done on a bus, and the addresses in use.
pub open spec fn state_of<B: Bus>(bus: B, addresses: Addresses) -> State {
    State { log: bus.log(), used: addresses@ }
}

/// A control transfer with a buffer of `length` bytes.
fn ask<B: Bus>(
    bus: &mut B,
    target: Target,
    setup: SetupPacket,
    length: usize,
    Ghost(st): Ghost<State>,
) -> (r: Result<(usize, Vec<u8>), Error<B::Error>>)
    requires
        st.log == old(bus).log(),
    ensures
        final(bus).says() == old(bus).says(),
        ({
            let (reply, after) = asked(old(bus).says(), st, target, setup);
            &&& after == State { log: final(bus).log(), ..st }
            &&& match r {
                Ok((n, buffer)) => n <= buffer@.len() && buffer@.len() == length && reply == Ok::<
                    Reply,
                    Error<B::Error>,
                >(Reply { received: n as nat, buffer: buffer@ }),
                Err(error) => reply == Err::<Reply, Error<B::Error>>(error),
            }
        }),
{
    let mut buffer: Vec<u8> = vec![0; length];
    match bus.control(target, setup, &mut buffer) {
        Ok(n) => Ok((n, buffer)),
        Err(error) => Err(Error::Bus(error)),
    }
}

/// The status of a hub's port.
fn port_status<B: Bus>(bus: &mut B, hub: Target, port: u8, Ghost(st): Ghost<State>) -> (r: Result<
    PortStatus,
    Error<B::Error>,
>)
    requires
        st.log == old(bus).log(),
    ensures
        final(bus).says() == old(bus).says(),
        status_asked(old(bus).says(), st, hub, port) == (r, (State { log: final(bus).log(), ..st })),
{
    match ask(bus, hub, SetupPacket::get_port_status(port), 4, Ghost(st)) {
        Ok((_, buffer)) => Ok(PortStatus(bytes::le32_at(&buffer, 0))),
        Err(error) => Err(error),
    }
}

/// Waits for a port's reset.
fn await_reset<B: Bus>(bus: &mut B, hub: Target, port: u8, Ghost(st): Ghost<State>) -> (r: Result<
    PortStatus,
    Error<B::Error>,
>)
    requires
        st.log == old(bus).log(),
    ensures
        final(bus).says() == old(bus).says(),
        reset_awaited(old(bus).says(), st, hub, port, 0) == (
            r,
            (State { log: final(bus).log(), ..st }),
        ),
{
    let mut already: u32 = 0;
    let ghost mut now = st;
    loop
        invariant
            already < RESET_TIMEOUT_MS,
            bus.says() == old(bus).says(),
            now == (State { log: bus.log(), ..st }),
            reset_awaited(old(bus).says(), st, hub, port, 0) == reset_awaited(
                old(bus).says(),
                now,
                hub,
                port,
                already as int,
            ),
        decreases RESET_TIMEOUT_MS - already,
    {
        bus.delay_ms(RESET_POLL_MS);
        let ghost polled = waited(now, RESET_POLL_MS);
        match port_status(bus, hub, port, Ghost(polled)) {
            Ok(status) => {
                if status.reset_changed() || (!status.resetting() && status.enabled()) {
                    return Ok(status);
                }
            },
            Err(error) => {
                return Err(error);
            },
        }
        already += RESET_POLL_MS;
        if already >= RESET_TIMEOUT_MS {
            return Err(Error::ResetTimedOut);
        }
        proof {
            now = State { log: bus.log(), ..st };
        }
    }
}

/// Resets a port with a device on it and returns the device's speed.
fn reset_port<B: Bus>(bus: &mut B, hub: Target, port: u8, Ghost(st): Ghost<State>) -> (r: Result<
    Speed,
    Error<B::Error>,
>)
    requires
        st.log == old(bus).log(),
    ensures
        final(bus).says() == old(bus).says(),
        port_reset(old(bus).says(), st, hub, port) == (r, (State { log: final(bus).log(), ..st })),
{
    let setup = SetupPacket::set_port_feature(port, PortFeature::reset());
    match ask(bus, hub, setup, 0, Ghost(st)) {
        Ok(_) => {},
        Err(error) => {
            return Err(error);
        },
    }
    let status = match await_reset(bus, hub, port, Ghost(State { log: bus.log(), ..st })) {
        Ok(status) => status,
        Err(error) => {
            return Err(error);
        },
    };
    let ghost done = State { log: bus.log(), ..st };
    let setup = SetupPacket::clear_port_feature(port, PortFeature::reset_change());
    match ask(bus, hub, setup, 0, Ghost(done)) {
        Ok(_) => {},
        Err(error) => {
            return Err(error);
        },
    }
    let setup = SetupPacket::clear_port_feature(port, PortFeature::connection_change());
    match ask(bus, hub, setup, 0, Ghost(State { log: bus.log(), ..st })) {
        Ok(_) => {},
        Err(error) => {
            return Err(error);
        },
    }
    bus.delay_ms(RESET_RECOVERY_MS);
    if !status.enabled() {
        return Err(Error::NotEnabled);
    }
    Ok(status.speed())
}

/// Asks a device for its first configuration.
fn ask_configuration<B: Bus>(bus: &mut B, target: Target, Ghost(st): Ghost<State>) -> (r: Result<
    Configuration,
    Error<B::Error>,
>)
    requires
        st.log == old(bus).log(),
    ensures
        final(bus).says() == old(bus).says(),
        ({
            let (result, after) = configuration_asked(old(bus).says(), st, target);
            &&& after == State { log: final(bus).log(), ..st }
            &&& match r {
                Ok(configuration) => result == Ok::<ConfigurationModel, Error<B::Error>>(
                    configuration@,
                ),
                Err(error) => result == Err::<ConfigurationModel, Error<B::Error>>(error),
            }
        }),
{
    let kind = DescriptorType::configuration();
    let (n, head) = match ask(bus, target, SetupPacket::get_descriptor(kind, 0, 9), 9, Ghost(st)) {
        Ok((n, head)) => (n, head),
        Err(error) => {
            return Err(error);
        },
    };
    let total = match Configuration::total_length(&head[0..n]) {
        Ok(total) => total,
        Err(error) => {
            return Err(Error::Descriptor(error));
        },
    };
    let setup = SetupPacket::get_descriptor(kind, 0, total);
    let ghost now = State { log: bus.log(), ..st };
    let (n, whole) = match ask(bus, target, setup, total as usize, Ghost(now)) {
        Ok((n, whole)) => (n, whole),
        Err(error) => {
            return Err(error);
        },
    };
    match Configuration::parse(&whole[0..n]) {
        Ok(configuration) => Ok(configuration),
        Err(error) => Err(Error::Descriptor(error)),
    }
}

/// Asks a device for its descriptors and chooses its configuration.
fn configure<B: Bus>(bus: &mut B, target: Target, Ghost(st): Ghost<State>) -> (r: Result<
    (DeviceDescriptor, Configuration),
    Error<B::Error>,
>)
    requires
        st.log == old(bus).log(),
    ensures
        final(bus).says() == old(bus).says(),
        ({
            let (result, after) = configured(old(bus).says(), st, target);
            &&& after == State { log: final(bus).log(), ..st }
            &&& match r {
                Ok((descriptor, configuration)) => result == Ok::<
                    (DeviceDescriptor, ConfigurationModel),
                    Error<B::Error>,
                >((descriptor, configuration@)),
                Err(error) => result == Err::<
                    (DeviceDescriptor, ConfigurationModel),
                    Error<B::Error>,
                >(error),
            }
        }),
{
    let setup = SetupPacket::get_descriptor(DescriptorType::device(), 0, 18);
    let (n, data) = match ask(bus, target, setup, 18, Ghost(st)) {
        Ok((n, data)) => (n, data),
        Err(error) => {
            return Err(error);
        },
    };
    let descriptor = match DeviceDescriptor::parse(&data[0..n]) {
        Ok(descriptor) => descriptor,
        Err(error) => {
            return Err(Error::Descriptor(error));
        },
    };
    let ghost now = State { log: bus.log(), ..st };
    let configuration = match ask_configuration(bus, target, Ghost(now)) {
        Ok(configuration) => configuration,
        Err(error) => {
            return Err(error);
        },
    };
    let setup = SetupPacket::set_configuration(configuration.value);
    match ask(bus, target, setup, 0, Ghost(State { log: bus.log(), ..st })) {
        Ok(_) => Ok((descriptor, configuration)),
        Err(error) => Err(error),
    }
}

/// Whether a device is a hub.
fn check_hub(descriptor: &DeviceDescriptor, configuration: &Configuration) -> (r: bool)
    ensures
        r == is_hub(*descriptor, configuration@),
{
    if descriptor.class == Class::hub() {
        return true;
    }
    let mut i: usize = 0;
    while i < configuration.interfaces.len()
        invariant
            i <= configuration.interfaces@.len(),
            forall|k: int|
                0 <= k < i ==> (#[trigger] configuration@.interfaces[k]).class != Class::hub(),
        decreases configuration.interfaces@.len() - i,
    {
        assert(configuration@.interfaces[i as int] == configuration.interfaces@[i as int]@);
        if configuration.interfaces[i].class == Class::hub() {
            return true;
        }
        i += 1;
    }
    false
}

/// Powers a hub's ports.
fn power_ports<B: Bus>(bus: &mut B, hub: Target, last: u8, Ghost(st): Ghost<State>) -> (r: Result<
    (),
    Error<B::Error>,
>)
    requires
        st.log == old(bus).log(),
    ensures
        final(bus).says() == old(bus).says(),
        ports_powered(old(bus).says(), st, hub, 1, last as int) == (
            r,
            (State { log: final(bus).log(), ..st }),
        ),
{
    let mut done: u8 = 0;
    let ghost mut now = st;
    while done < last
        invariant
            done <= last,
            bus.says() == old(bus).says(),
            now == (State { log: bus.log(), ..st }),
            ports_powered(old(bus).says(), st, hub, 1, last as int) == ports_powered(
                old(bus).says(),
                now,
                hub,
                done + 1,
                last as int,
            ),
        decreases last - done,
    {
        let setup = SetupPacket::set_port_feature(done + 1, PortFeature::power());
        match ask(bus, hub, setup, 0, Ghost(now)) {
            Ok(_) => {},
            Err(error) => {
                return Err(error);
            },
        }
        done += 1;
        proof {
            now = State { log: bus.log(), ..st };
        }
    }
    Ok(())
}

/// Enumerates the device answering at address 0, `depth` hubs below the root.
fn find_device<B: Bus>(
    bus: &mut B,
    addresses: &mut Addresses,
    speed: Speed,
    translator: Option<Translator>,
    depth: usize,
) -> (r: Result<Device<B::Error>, Error<B::Error>>)
    requires
        depth < MAX_DEPTH,
        old(addresses)@.len() == 128,
    ensures
        final(bus).says() == old(bus).says(),
        final(addresses)@.len() == 128,
        ({
            let (result, after) = device_found(
                old(bus).says(),
                state_of(*old(bus), *old(addresses)),
                speed,
                translator,
                depth as int,
            );
            &&& after == state_of(*final(bus), *final(addresses))
            &&& match r {
                Ok(device) => result == Ok::<DeviceModel<B::Error>, Error<B::Error>>(device@)
                    && device@.fits(MAX_DEPTH - depth),
                Err(error) => result == Err::<DeviceModel<B::Error>, Error<B::Error>>(error),
            }
        }),
    decreases MAX_DEPTH - depth, 4int,
{
    // Packets of 8 always work for the first 8 bytes, which say how big they may be.
    let default = Target { address: 0, max_packet: 8, speed, translator };
    let ghost st = state_of(*bus, *addresses);
    let setup = SetupPacket::get_descriptor(DescriptorType::device(), 0, 8);
    let (n, data) = match ask(bus, default, setup, 8, Ghost(st)) {
        Ok((n, data)) => (n, data),
        Err(error) => {
            return Err(error);
        },
    };
    let size = match DeviceDescriptor::max_packet_size(&data[0..n]) {
        Ok(size) => size,
        Err(error) => {
            return Err(Error::Descriptor(error));
        },
    };
    let address = match addresses.take() {
        Some(address) => address,
        None => {
            return Err(Error::OutOfAddresses);
        },
    };
    let sized = Target { address: 0, max_packet: size as u16, speed, translator };
    match address_device(bus, addresses, sized, address, depth) {
        Ok(device) => Ok(device),
        Err(error) => {
            // Its port is disabled, so nothing answers there any more.
            addresses.release(address);
            Err(error)
        },
    }
}

/// The rest of enumerating a device, from giving it `address`.
fn address_device<B: Bus>(
    bus: &mut B,
    addresses: &mut Addresses,
    default: Target,
    address: u8,
    depth: usize,
) -> (r: Result<Device<B::Error>, Error<B::Error>>)
    requires
        depth < MAX_DEPTH,
        1 <= address <= MAX_ADDRESS,
        old(addresses)@.len() == 128,
    ensures
        final(bus).says() == old(bus).says(),
        final(addresses)@.len() == 128,
        ({
            let (result, after) = addressed(
                old(bus).says(),
                state_of(*old(bus), *old(addresses)),
                default,
                address,
                depth as int,
            );
            &&& after == state_of(*final(bus), *final(addresses))
            &&& match r {
                Ok(device) => result == Ok::<DeviceModel<B::Error>, Error<B::Error>>(device@)
                    && device@.fits(MAX_DEPTH - depth),
                Err(error) => result == Err::<DeviceModel<B::Error>, Error<B::Error>>(error),
            }
        }),
    decreases MAX_DEPTH - depth, 3int,
{
    let ghost st = state_of(*bus, *addresses);
    match ask(bus, default, SetupPacket::set_address(address), 0, Ghost(st)) {
        Ok(_) => {},
        Err(error) => {
            return Err(error);
        },
    }
    bus.delay_ms(SET_ADDRESS_RECOVERY_MS);
    let target = Target {
        address,
        max_packet: default.max_packet,
        speed: default.speed,
        translator: default.translator,
    };
    let ghost now = State { log: bus.log(), ..st };
    let (descriptor, configuration) = match configure(bus, target, Ghost(now)) {
        Ok((descriptor, configuration)) => (descriptor, configuration),
        Err(error) => {
            return Err(error);
        },
    };
    let hub = if check_hub(&descriptor, &configuration) {
        match find_hub(bus, addresses, target, depth) {
            Ok(hub) => Some(hub),
            Err(error) => {
                return Err(error);
            },
        }
    } else {
        None
    };
    Ok(
        Device {
            address,
            speed: default.speed,
            translator: default.translator,
            descriptor,
            configuration,
            hub,
        },
    )
}

/// Powers a hub's ports and enumerates what is on each.
fn find_hub<B: Bus>(bus: &mut B, addresses: &mut Addresses, hub: Target, depth: usize) -> (r: Result<
    Hub<B::Error>,
    Error<B::Error>,
>)
    requires
        depth < MAX_DEPTH,
        old(addresses)@.len() == 128,
    ensures
        final(bus).says() == old(bus).says(),
        final(addresses)@.len() == 128,
        ({
            let (result, after) = hub_found(
                old(bus).says(),
                state_of(*old(bus), *old(addresses)),
                hub,
                depth as int,
            );
            &&& after == state_of(*final(bus), *final(addresses))
            &&& match r {
                Ok(found) => result == Ok::<HubModel<B::Error>, Error<B::Error>>(found@)
                    && found@.ports.len() <= 255 && fit_on(found@.ports, MAX_DEPTH - depth - 1),
                Err(error) => result == Err::<HubModel<B::Error>, Error<B::Error>>(error),
            }
        }),
    decreases MAX_DEPTH - depth, 2int,
{
    let ghost st = state_of(*bus, *addresses);
    let (n, data) = match ask(bus, hub, SetupPacket::get_hub_descriptor(9), 9, Ghost(st)) {
        Ok((n, data)) => (n, data),
        Err(error) => {
            return Err(error);
        },
    };
    let descriptor = match HubDescriptor::parse(&data[0..n]) {
        Ok(descriptor) => descriptor,
        Err(error) => {
            return Err(Error::Descriptor(error));
        },
    };
    let ghost now = State { log: bus.log(), ..st };
    match power_ports(bus, hub, descriptor.ports, Ghost(now)) {
        Ok(_) => {},
        Err(error) => {
            return Err(error);
        },
    }
    let power_up: u32 = if descriptor.power_on_to_good_ms > MIN_POWER_UP_MS {
        descriptor.power_on_to_good_ms
    } else {
        MIN_POWER_UP_MS
    };
    bus.delay_ms(power_up);
    let ghost begun = state_of(*bus, *addresses);
    let mut found = Hub { descriptor, ports: Vec::new() };
    let mut done: u8 = 0;
    assert(found@.ports =~= Seq::<PortModel<B::Error>>::empty());
    while done < descriptor.ports
        invariant
            done <= descriptor.ports,
            depth < MAX_DEPTH,
            addresses@.len() == 128,
            bus.says() == old(bus).says(),
            found.descriptor == descriptor,
            found@.ports.len() == done,
            fit_on(found@.ports, MAX_DEPTH - depth - 1),
            ports_found(old(bus).says(), begun, hub, done as int, depth as int) == (
                found@.ports,
                state_of(*bus, *addresses),
            ),
        decreases descriptor.ports - done,
    {
        let port = find_port(bus, addresses, hub, done + 1, depth);
        let ghost before = found@.ports;
        let ghost model = port@;
        found.ports.push(port);
        done += 1;
        proof {
            assert(found@.ports =~= before.push(model));
            assert forall|i: int| 0 <= i < found@.ports.len() implies fits_at(
                #[trigger] found@.ports[i],
                MAX_DEPTH - depth - 1,
            ) by {
                if i < before.len() {
                    assert(found@.ports[i] == before[i]);
                }
            }
        }
    }
    Ok(found)
}

/// Resets the port and enumerates the device on it, if there is one.
fn find_port<B: Bus>(
    bus: &mut B,
    addresses: &mut Addresses,
    hub: Target,
    port: u8,
    depth: usize,
) -> (r: Port<B::Error>)
    requires
        depth < MAX_DEPTH,
        old(addresses)@.len() == 128,
    ensures
        final(bus).says() == old(bus).says(),
        final(addresses)@.len() == 128,
        port_found(
            old(bus).says(),
            state_of(*old(bus), *old(addresses)),
            hub,
            port,
            depth as int,
        ) == (r@, state_of(*final(bus), *final(addresses))),
        fits_at(r@, MAX_DEPTH - depth - 1),
    decreases MAX_DEPTH - depth, 0int,
{
    let ghost st = state_of(*bus, *addresses);
    match port_status(bus, hub, port, Ghost(st)) {
        Ok(status) => {
            if !status.connected() {
                return Port::Empty;
            }
        },
        Err(error) => {
            return Port::Failed(error);
        },
    }
    let error = match reset_port(bus, hub, port, Ghost(State { log: bus.log(), ..st })) {
        Ok(speed) => {
            if depth + 1 >= MAX_DEPTH {
                Error::TooDeep
            } else {
                // Below a high speed hub, a slower device gets that hub's translator. Further
                // down, behind a full speed hub, it shares the translator that hub uses.
                let translator = if hub.speed == Speed::High {
                    if speed == Speed::High {
                        None
                    } else {
                        Some(Translator { hub: hub.address, port })
                    }
                } else {
                    hub.translator
                };
                match find_device(bus, addresses, speed, translator, depth + 1) {
                    Ok(device) => {
                        return Port::Device(device);
                    },
                    Err(error) => error,
                }
            }
        },
        Err(error) => error,
    };
    // Out of the way of the next port's device at address 0. Nothing more to do if the hub
    // won't listen either.
    let setup = SetupPacket::clear_port_feature(port, PortFeature::enable());
    let _ = ask(bus, hub, setup, 0, Ghost(state_of(*bus, *addresses)));
    Port::Failed(error)
}

/// A device that fits fits where there is more room.
proof fn lemma_fits_more<E>(device: DeviceModel<E>, levels: int, more: int)
    requires
        device.fits(levels),
        levels <= more,
    ensures
        device.fits(more),
    decreases device,
{
    if let Some(hub) = device.hub {
        assert forall|i: int| 0 <= i < hub.ports.len() implies fits_at(
            #[trigger] hub.ports[i],
            more - 1,
        ) by {
            assert(fits_at(hub.ports[i], levels - 1));
            if let PortModel::Device(child) = hub.ports[i] {
                lemma_fits_more(child, levels - 1, more - 1);
            }
        }
    }
}

/// Looks at `device`'s ports, if it is a hub, and on down through the hubs on them, for
/// devices that came or went.
fn poll_hub<B: Bus>(
    bus: &mut B,
    addresses: &mut Addresses,
    device: &mut Device<B::Error>,
    depth: usize,
    changes: &mut Vec<Change>,
)
    requires
        depth <= MAX_DEPTH,
        old(addresses)@.len() == 128,
        old(device)@.fits(MAX_DEPTH - depth),
    ensures
        final(bus).says() == old(bus).says(),
        final(addresses)@.len() == 128,
        final(device)@.fits(MAX_DEPTH - depth),
        ({
            let (after, more, st) = polled(
                old(bus).says(),
                state_of(*old(bus), *old(addresses)),
                old(device)@,
                depth as int,
            );
            &&& final(device)@ == after
            &&& final(changes)@ == old(changes)@ + more
            &&& st == state_of(*final(bus), *final(addresses))
        }),
    decreases MAX_DEPTH - depth, 1int,
{
    let target = device.target();
    let mut taken: Option<Hub<B::Error>> = None;
    std::mem::swap(&mut device.hub, &mut taken);
    match taken {
        None => {
            assert(changes@ =~= old(changes)@ + Seq::<Change>::empty());
        },
        Some(hub) => {
            let mut hub = hub;
            let ghost ports = hub@.ports;
            let ghost begun = state_of(*bus, *addresses);
            let ghost room = MAX_DEPTH - depth - 1;
            let ghost mut done: Seq<PortModel<B::Error>> = Seq::empty();
            let ghost mut found: Seq<Change> = Seq::empty();
            let descriptor = hub.descriptor;
            let count = hub.ports.len();
            let mut i: usize = 0;
            proof {
                assert(changes@ =~= old(changes)@ + found);
            }
            while i < count
                invariant
                    i <= count == hub.ports@.len(),
                    count == ports.len() <= 255,
                    depth < MAX_DEPTH,
                    room == MAX_DEPTH - depth - 1,
                    hub.descriptor == descriptor,
                    addresses@.len() == 128,
                    bus.says() == old(bus).says(),
                    fit_on(ports, room),
                    done.len() == i,
                    fit_on(done, room),
                    forall|k: int| 0 <= k < i ==> #[trigger] hub.ports@[k]@ == done[k],
                    forall|k: int| i <= k < count ==> #[trigger] hub.ports@[k]@ == ports[k],
                    changes@ == old(changes)@ + found,
                    ports_polled(
                        old(bus).says(),
                        begun,
                        target,
                        ports,
                        i as int,
                        depth as int,
                    ) == (done, found, state_of(*bus, *addresses)),
                decreases count - i,
            {
                let mut port: Port<B::Error> = Port::Empty;
                std::mem::swap(&mut hub.ports[i], &mut port);
                let ghost st = state_of(*bus, *addresses);
                let ghost before = changes@;
                assert(port@ == ports[i as int]);
                assert(fits_at(ports[i as int], room));
                let port = poll_port(
                    bus,
                    addresses,
                    target,
                    port,
                    (i + 1) as u8,
                    depth,
                    changes,
                );
                proof {
                    let (model, more, _) = port_polled(
                        old(bus).says(),
                        st,
                        target,
                        ports[i as int],
                        (i + 1) as u8,
                        depth as int,
                    );
                    assert(changes@ =~= old(changes)@ + (found + more));
                    assert forall|k: int| 0 <= k < i + 1 implies fits_at(
                        #[trigger] done.push(model)[k],
                        room,
                    ) by {
                        if k < i {
                            assert(done.push(model)[k] == done[k]);
                        }
                    }
                    done = done.push(model);
                    found = found + more;
                }
                hub.ports.set(i, port);
                i += 1;
            }
            proof {
                assert forall|k: int| 0 <= k < count implies hub@.ports[k] == done[k] by {
                    assert(hub.ports@[k]@ == done[k]);
                }
                assert(hub@.ports =~= done);
            }
            device.hub = Some(hub);
        },
    }
}

/// Looks at a port.
fn poll_port<B: Bus>(
    bus: &mut B,
    addresses: &mut Addresses,
    target: Target,
    port: Port<B::Error>,
    number: u8,
    depth: usize,
    changes: &mut Vec<Change>,
) -> (r: Port<B::Error>)
    requires
        depth < MAX_DEPTH,
        old(addresses)@.len() == 128,
        fits_at(port@, MAX_DEPTH - depth - 1),
    ensures
        final(bus).says() == old(bus).says(),
        final(addresses)@.len() == 128,
        fits_at(r@, MAX_DEPTH - depth - 1),
        ({
            let (after, more, st) = port_polled(
                old(bus).says(),
                state_of(*old(bus), *old(addresses)),
                target,
                port@,
                number,
                depth as int,
            );
            &&& r@ == after
            &&& final(changes)@ == old(changes)@ + more
            &&& st == state_of(*final(bus), *final(addresses))
        }),
    decreases MAX_DEPTH - depth, 0int,
{
    let ghost st = state_of(*bus, *addresses);
    assert(changes@ =~= old(changes)@ + Seq::<Change>::empty());
    let status = match port_status(bus, target, number, Ghost(st)) {
        Ok(status) => status,
        // A hub that doesn't answer is going away itself: its own port will say so.
        Err(_) => {
            return port;
        },
    };
    if !status.connection_changed() {
        return match port {
            Port::Device(child) => {
                let mut child = child;
                poll_hub(bus, addresses, &mut child, depth + 1, changes);
                Port::Device(child)
            },
            other => other,
        };
    }
    let setup = SetupPacket::clear_port_feature(number, PortFeature::connection_change());
    let _ = ask(bus, target, setup, 0, Ghost(state_of(*bus, *addresses)));
    match &port {
        Port::Device(gone) => {
            proof {
                lemma_fits_more(gone@, MAX_DEPTH - depth - 1, MAX_DEPTH as int);
                assert(addresses_at(port@) == gone@.addresses());
            }
            addresses.free(gone);
            changes.push(Change::Removed { address: gone.address });
        },
        _ => {
            assert(addresses_at(port@) == Seq::<u8>::empty());
            assert(given_back(addresses@, Seq::empty()) =~= addresses@);
        },
    }
    let ghost removed = changes@;
    if !status.connected() {
        return Port::Empty;
    }
    let found = find_port(bus, addresses, target, number, depth);
    if let Port::Device(added) = &found {
        changes.push(Change::Added { address: added.address });
    }
    found
}

/// Everything on the bus, and the addresses it uses.
pub struct Tree<E> {
    /// The device on the root port.
    pub root: Device<E>,
    pub addresses: Addresses,
}

impl<E> Tree<E> {
    /// What holds of every tree: there are no more hubs behind one another than USB allows, and
    /// the addresses that it uses are those in use.
    pub open spec fn wf(&self) -> bool {
        &&& self.root@.fits(MAX_DEPTH as int)
        &&& accounts(self.addresses@, self.root@.addresses())
    }
}

/// Whether `addresses` are different, and those that are in use.
pub open spec fn accounts(used: Seq<bool>, addresses: Seq<u8>) -> bool {
    &&& used.len() == 128
    &&& addresses.no_duplicates()
    &&& forall|i: int| 0 <= i < 128 ==> (#[trigger] used[i] <==> addresses.contains(i as u8))
}

// Addresses.
/// Whether `addresses`, all different, were free before and are in use now, and nothing else
/// changed.
pub open spec fn takes(used: Seq<bool>, after: Seq<bool>, addresses: Seq<u8>) -> bool {
    &&& after.len() == 128
    &&& addresses.no_duplicates()
    &&& forall|k: int|
        0 <= k < addresses.len() ==> 1 <= #[trigger] addresses[k] <= MAX_ADDRESS
            && !used[addresses[k] as int]
    &&& forall|i: int|
        0 <= i < 128 ==> #[trigger] after[i] == (used[i] || addresses.contains(i as u8))
}

proof fn lemma_takes_none(used: Seq<bool>)
    requires
        used.len() == 128,
    ensures
        takes(used, used, Seq::empty()),
{
}

proof fn lemma_concat_contains(a: Seq<u8>, b: Seq<u8>, x: u8)
    ensures
        (a + b).contains(x) <==> a.contains(x) || b.contains(x),
{
    if (a + b).contains(x) {
        let i = choose|i: int| 0 <= i < (a + b).len() && (a + b)[i] == x;
        if i < a.len() {
            assert(a[i] == x);
        } else {
            assert(b[i - a.len()] == x);
        }
    }
    if a.contains(x) {
        let i = choose|i: int| 0 <= i < a.len() && a[i] == x;
        assert((a + b)[i] == x);
    }
    if b.contains(x) {
        let i = choose|i: int| 0 <= i < b.len() && b[i] == x;
        assert((a + b)[a.len() + i] == x);
    }
}

proof fn lemma_takes_both(
    one: Seq<bool>,
    two: Seq<bool>,
    three: Seq<bool>,
    a: Seq<u8>,
    b: Seq<u8>,
)
    requires
        one.len() == 128,
        takes(one, two, a),
        takes(two, three, b),
    ensures
        takes(one, three, a + b),
{
    let all = a + b;
    assert forall|i: int, j: int| 0 <= i < j < all.len() implies all[i] != all[j] by {
        if j < a.len() {
            assert(a[i] != a[j]);
        } else if i >= a.len() {
            assert(b[i - a.len()] != b[j - a.len()]);
        } else {
            let x = a[i];
            let y = b[j - a.len()];
            assert(a.contains(x));
            assert(two[x as int]);
            assert(!two[y as int]);
        }
    }
    assert forall|k: int| 0 <= k < all.len() implies 1 <= #[trigger] all[k] <= MAX_ADDRESS
        && !one[all[k] as int] by {
        if k < a.len() {
            assert(all[k] == a[k]);
        } else {
            let y = b[k - a.len()];
            assert(all[k] == y);
            assert(!two[y as int]);
        }
    }
    assert forall|i: int| 0 <= i < 128 implies #[trigger] three[i] == (one[i] || all.contains(
        i as u8,
    )) by {
        lemma_concat_contains(a, b, i as u8);
        assert(two[i] == (one[i] || a.contains(i as u8)));
    }
}

proof fn lemma_lowest_free(used: Seq<bool>, from: int)
    requires
        1 <= from,
        used.len() == 128,
    ensures
        lowest_free(used, from) matches Some(address) ==> from <= address <= MAX_ADDRESS
            && !used[address as int],
    decreases MAX_ADDRESS + 1 - from,
{
    if from <= MAX_ADDRESS && used[from] {
        lemma_lowest_free(used, from + 1);
    }
}

proof fn lemma_reset_uses<E>(says: Says<E>, st: State, hub: Target, port: u8, already: int)
    ensures
        reset_awaited(says, st, hub, port, already).1.used == st.used,
    decreases RESET_TIMEOUT_MS - already,
{
    if let (Ok(status), now) = status_asked(says, waited(st, RESET_POLL_MS), hub, port) {
        if !reset_done(status) && already + RESET_POLL_MS < RESET_TIMEOUT_MS {
            lemma_reset_uses(says, now, hub, port, already + RESET_POLL_MS);
        }
    }
}

proof fn lemma_power_uses<E>(says: Says<E>, st: State, hub: Target, port: int, last: int)
    ensures
        ports_powered(says, st, hub, port, last).1.used == st.used,
    decreases last + 1 - port,
{
    if port <= last {
        let setup = SetupPacket::set_port_feature(port as u8, PortFeature::power());
        if let (Ok(_), now) = asked(says, st, hub, setup) {
            lemma_power_uses(says, now, hub, port + 1, last);
        }
    }
}

/// Enumerating a device takes an address of its own for it and for everything that is found
/// behind it, and none if it fails.
pub proof fn found_devices_take_addresses<E>(
    says: Says<E>,
    st: State,
    speed: Speed,
    translator: Option<Translator>,
    depth: int,
)
    requires
        st.used.len() == 128,
    ensures
        match device_found(says, st, speed, translator, depth) {
            (Ok(device), after) => takes(st.used, after.used, device.addresses()),
            (Err(_), after) => after.used == st.used,
        },
    decreases MAX_DEPTH - depth, 4int, 0int,
{
    let default = Target { address: 0, max_packet: 8, speed, translator };
    let setup = SetupPacket::get_descriptor(DescriptorType::device(), 0, 8);
    if let (Ok(reply), now) = asked(says, st, default, setup) {
        if let Ok(size) = super::packet_size_in(heard(reply)) {
            lemma_lowest_free(now.used, 1);
            if let Some(address) = lowest_free(now.used, 1) {
                let taken = State { used: now.used.update(address as int, true), ..now };
                let sized = Target { max_packet: size as u16, ..default };
                lemma_addressed_takes(says, taken, sized, address, depth);
                match addressed(says, taken, sized, address, depth) {
                    (Ok(device), after) => {
                        let own = seq![address];
                        assert(own[0] == address);
                        assert(takes(st.used, taken.used, own)) by {
                            assert forall|i: int| 0 <= i < 128 implies #[trigger] taken.used[i] == (
                            st.used[i] || own.contains(i as u8)) by {
                                if own.contains(i as u8) {
                                    let k = choose|k: int| 0 <= k < 1 && own[k] == i as u8;
                                }
                                if i == address {
                                    assert(own[0] == i as u8);
                                }
                            }
                        }
                        let behind = device.addresses().subrange(
                            1,
                            device.addresses().len() as int,
                        );
                        lemma_takes_both(st.used, taken.used, after.used, own, behind);
                        assert(own + behind =~= device.addresses());
                    },
                    (Err(_), after) => {
                        assert(after.used.update(address as int, false) =~= st.used);
                    },
                }
            }
        }
    }
}

proof fn lemma_addressed_takes<E>(
    says: Says<E>,
    st: State,
    default: Target,
    address: u8,
    depth: int,
)
    requires
        st.used.len() == 128,
    ensures
        match addressed(says, st, default, address, depth) {
            (Ok(device), after) => device.addresses().len() > 0 && device.addresses()[0] == address
                && takes(
                st.used,
                after.used,
                device.addresses().subrange(1, device.addresses().len() as int),
            ),
            (Err(_), after) => after.used == st.used,
        },
    decreases MAX_DEPTH - depth, 3int, 0int,
{
    if let (Ok(_), now) = asked(says, st, default, SetupPacket::set_address(address)) {
        let target = Target { address, ..default };
        let begun = waited(now, SET_ADDRESS_RECOVERY_MS);
        if let (Ok((descriptor, configuration)), after) = configured(says, begun, target) {
            assert(after.used == st.used);
            let (result, last) = addressed(says, st, default, address, depth);
            if is_hub(descriptor, configuration) {
                lemma_hub_takes(says, after, target, depth);
                if let (Ok(hub), _) = hub_found(says, after, target, depth) {
                    let device = result->Ok_0;
                    assert(device.addresses().subrange(1, device.addresses().len() as int)
                        =~= addresses_on(hub.ports));
                }
            } else {
                let device = result->Ok_0;
                lemma_takes_none(st.used);
                assert(device.addresses().subrange(1, device.addresses().len() as int) =~= Seq::<
                    u8,
                >::empty());
            }
        }
    }
}

proof fn lemma_hub_takes<E>(says: Says<E>, st: State, hub: Target, depth: int)
    requires
        st.used.len() == 128,
    ensures
        match hub_found(says, st, hub, depth) {
            (Ok(found), after) => takes(st.used, after.used, addresses_on(found.ports)),
            (Err(_), after) => after.used == st.used,
        },
    decreases MAX_DEPTH - depth, 2int, 0int,
{
    if let (Ok(reply), now) = asked(says, st, hub, SetupPacket::get_hub_descriptor(9)) {
        if let Ok(descriptor) = super::hub_in(heard(reply)) {
            lemma_power_uses(says, now, hub, 1, descriptor.ports as int);
            if let (Ok(_), on) = ports_powered(says, now, hub, 1, descriptor.ports as int) {
                lemma_ports_take(
                    says,
                    waited(on, power_up(descriptor)),
                    hub,
                    descriptor.ports as int,
                    depth,
                );
            }
        }
    }
}

proof fn lemma_ports_take<E>(says: Says<E>, st: State, hub: Target, n: int, depth: int)
    requires
        st.used.len() == 128,
    ensures
        ({
            let (ports, after) = ports_found(says, st, hub, n, depth);
            takes(st.used, after.used, addresses_on(ports))
        }),
    decreases MAX_DEPTH - depth, 1int, n,
{
    if n <= 0 {
        lemma_takes_none(st.used);
    } else {
        lemma_ports_take(says, st, hub, n - 1, depth);
        let (before, now) = ports_found(says, st, hub, n - 1, depth);
        lemma_port_takes(says, now, hub, n as u8, depth);
        let (port, after) = port_found(says, now, hub, n as u8, depth);
        lemma_takes_both(st.used, now.used, after.used, addresses_on(before), addresses_at(port));
        let all = before.push(port);
        assert(all.subrange(0, all.len() - 1) =~= before);
    }
}

proof fn lemma_port_takes<E>(says: Says<E>, st: State, hub: Target, port: u8, depth: int)
    requires
        st.used.len() == 128,
    ensures
        ({
            let (found, after) = port_found(says, st, hub, port, depth);
            takes(st.used, after.used, addresses_at(found))
        }),
    decreases MAX_DEPTH - depth, 0int, 0int,
{
    lemma_takes_none(st.used);
    let (found, after) = port_found(says, st, hub, port, depth);
    if let (Ok(status), now) = status_asked(says, st, hub, port) {
        if status.has(1) {
            let setup = SetupPacket::set_port_feature(port, PortFeature::reset());
            if let (Ok(_), sent) = asked(says, now, hub, setup) {
                lemma_reset_uses(says, sent, hub, port, 0);
            }
            assert(port_reset(says, now, hub, port).1.used == st.used);
            if let (Ok(speed), ready) = port_reset(says, now, hub, port) {
                if depth + 1 < MAX_DEPTH {
                    let translator = translator_for(hub, port, speed);
                    found_devices_take_addresses(says, ready, speed, translator, depth + 1);
                    if let (Ok(device), _) = device_found(
                        says,
                        ready,
                        speed,
                        translator,
                        depth + 1,
                    ) {
                        assert(addresses_at(found) == device.addresses());
                    }
                }
            }
        }
    }
    if !(found is Device) {
        assert(addresses_at(found) == Seq::<u8>::empty());
    }
}

/// Whether the addresses `before`, which were in use, were given back, and `now`, all
/// different, which were not in use by others, are in use instead.
pub open spec fn swaps(used: Seq<bool>, after: Seq<bool>, before: Seq<u8>, now: Seq<u8>) -> bool {
    &&& after.len() == 128
    &&& now.no_duplicates()
    &&& forall|k: int|
        0 <= k < now.len() ==> 1 <= #[trigger] now[k] <= MAX_ADDRESS && (used[now[k] as int]
            ==> before.contains(now[k]))
    &&& forall|i: int|
        0 <= i < 128 ==> #[trigger] after[i] == ((used[i] && !before.contains(i as u8))
            || now.contains(i as u8))
}

/// Whether `addresses` are different and in use.
pub open spec fn in_use(used: Seq<bool>, addresses: Seq<u8>) -> bool {
    &&& addresses.no_duplicates()
    &&& forall|k: int|
        0 <= k < addresses.len() ==> 1 <= #[trigger] addresses[k] <= MAX_ADDRESS
            && used[addresses[k] as int]
}

proof fn lemma_swaps_same(used: Seq<bool>, addresses: Seq<u8>)
    requires
        used.len() == 128,
        in_use(used, addresses),
    ensures
        swaps(used, used, addresses, addresses),
{
    assert forall|k: int| 0 <= k < addresses.len() implies 1 <= #[trigger] addresses[k]
        <= MAX_ADDRESS && (used[addresses[k] as int] ==> addresses.contains(addresses[k])) by {}
    assert forall|i: int| 0 <= i < 128 implies #[trigger] used[i] == ((used[i]
        && !addresses.contains(i as u8)) || addresses.contains(i as u8)) by {
        if addresses.contains(i as u8) {
            let k = choose|k: int| 0 <= k < addresses.len() && addresses[k] == i as u8;
            assert(used[addresses[k] as int]);
        }
    }
}

proof fn lemma_swaps_taken(
    used: Seq<bool>,
    after: Seq<bool>,
    before: Seq<u8>,
    now: Seq<u8>,
)
    requires
        used.len() == 128,
        takes(given_back(used, before), after, now),
    ensures
        swaps(used, after, before, now),
{
    let freed = given_back(used, before);
    assert forall|k: int| 0 <= k < now.len() implies 1 <= #[trigger] now[k] <= MAX_ADDRESS && (
    used[now[k] as int] ==> before.contains(now[k])) by {
        assert(!freed[now[k] as int]);
    }
    assert forall|i: int| 0 <= i < 128 implies #[trigger] after[i] == ((used[i]
        && !before.contains(i as u8)) || now.contains(i as u8)) by {
        assert(freed[i] == (used[i] && !before.contains(i as u8)));
    }
}

proof fn lemma_in_use_parts(used: Seq<bool>, a: Seq<u8>, b: Seq<u8>)
    requires
        in_use(used, a + b),
    ensures
        in_use(used, a),
        in_use(used, b),
        forall|x: u8| !(#[trigger] a.contains(x) && b.contains(x)),
{
    let all = a + b;
    assert forall|i: int, j: int| 0 <= i < j < a.len() implies a[i] != a[j] by {
        assert(all[i] != all[j]);
    }
    assert forall|i: int, j: int| 0 <= i < j < b.len() implies b[i] != b[j] by {
        assert(all[a.len() + i] != all[a.len() + j]);
    }
    assert forall|k: int| 0 <= k < a.len() implies 1 <= #[trigger] a[k] <= MAX_ADDRESS
        && used[a[k] as int] by {
        assert(all[k] == a[k]);
    }
    assert forall|k: int| 0 <= k < b.len() implies 1 <= #[trigger] b[k] <= MAX_ADDRESS
        && used[b[k] as int] by {
        assert(all[a.len() + k] == b[k]);
    }
    assert forall|x: u8| !(#[trigger] a.contains(x) && b.contains(x)) by {
        if a.contains(x) && b.contains(x) {
            let i = choose|i: int| 0 <= i < a.len() && a[i] == x;
            let j = choose|j: int| 0 <= j < b.len() && b[j] == x;
            assert(all[i] != all[a.len() + j]);
        }
    }
}

/// After some addresses were exchanged, others that were in use still are.
proof fn lemma_others_in_use(
    used: Seq<bool>,
    after: Seq<bool>,
    before: Seq<u8>,
    now: Seq<u8>,
    others: Seq<u8>,
)
    requires
        used.len() == 128,
        swaps(used, after, before, now),
        in_use(used, others),
        forall|x: u8| !(#[trigger] before.contains(x) && others.contains(x)),
    ensures
        in_use(after, others),
        forall|x: u8| !(#[trigger] now.contains(x) && others.contains(x)),
{
    assert forall|k: int| 0 <= k < others.len() implies 1 <= #[trigger] others[k] <= MAX_ADDRESS
        && after[others[k] as int] by {
        let x = others[k];
        assert(others.contains(x));
        assert(!before.contains(x));
        assert(after[x as int] == ((used[x as int] && !before.contains(x as int as u8))
            || now.contains(x as int as u8)));
    }
    assert forall|x: u8| !(#[trigger] now.contains(x) && others.contains(x)) by {
        if now.contains(x) && others.contains(x) {
            let k = choose|k: int| 0 <= k < now.len() && now[k] == x;
            let j = choose|j: int| 0 <= j < others.len() && others[j] == x;
            assert(used[others[j] as int]);
            assert(used[now[k] as int] ==> before.contains(now[k]));
            assert(before.contains(x));
        }
    }
}

proof fn lemma_swaps_both(
    one: Seq<bool>,
    two: Seq<bool>,
    three: Seq<bool>,
    a: Seq<u8>,
    x: Seq<u8>,
    b: Seq<u8>,
    y: Seq<u8>,
)
    requires
        one.len() == 128,
        in_use(one, a + b),
        swaps(one, two, a, x),
        swaps(two, three, b, y),
    ensures
        swaps(one, three, a + b, x + y),
{
    let before = a + b;
    let now = x + y;
    lemma_in_use_parts(one, a, b);
    lemma_others_in_use(one, two, a, x, b);
    assert forall|i: int, j: int| 0 <= i < j < now.len() implies now[i] != now[j] by {
        if j < x.len() {
            assert(x[i] != x[j]);
        } else if i >= x.len() {
            assert(y[i - x.len()] != y[j - x.len()]);
        } else {
            let p = x[i];
            let q = y[j - x.len()];
            assert(x.contains(p));
            assert(two[p as int] == ((one[p as int] && !a.contains(p as int as u8)) || x.contains(
                p as int as u8,
            )));
            assert(!b.contains(p));
            if p == q {
                assert(y[j - x.len()] == q);
                assert(two[q as int] ==> b.contains(q));
            }
        }
    }
    assert forall|k: int| 0 <= k < now.len() implies 1 <= #[trigger] now[k] <= MAX_ADDRESS && (
    one[now[k] as int] ==> before.contains(now[k])) by {
        lemma_concat_contains(a, b, now[k]);
        if k < x.len() {
            assert(now[k] == x[k]);
        } else {
            let q = y[k - x.len()];
            assert(now[k] == q);
            assert(two[q as int] ==> b.contains(q));
            assert(two[q as int] == ((one[q as int] && !a.contains(q as int as u8)) || x.contains(
                q as int as u8,
            )));
        }
    }
    assert forall|i: int| 0 <= i < 128 implies #[trigger] three[i] == ((one[i]
        && !before.contains(i as u8)) || now.contains(i as u8)) by {
        lemma_concat_contains(a, b, i as u8);
        lemma_concat_contains(x, y, i as u8);
        assert(two[i] == ((one[i] && !a.contains(i as u8)) || x.contains(i as u8)));
        assert(three[i] == ((two[i] && !b.contains(i as u8)) || y.contains(i as u8)));
        assert(!(x.contains(i as u8) && b.contains(i as u8)));
    }
}

/// Looking at a device's ports gives back the addresses of what went and takes some for what
/// came; the device keeps its own.
proof fn lemma_polled_swaps<E>(says: Says<E>, st: State, device: DeviceModel<E>, depth: int)
    requires
        st.used.len() == 128,
        in_use(st.used, device.addresses()),
    ensures
        ({
            let (after_device, _, after) = polled(says, st, device, depth);
            swaps(st.used, after.used, device.addresses(), after_device.addresses())
        }),
    decreases MAX_DEPTH - depth, 2int, 0int,
{
    let (after_device, changes, after) = polled(says, st, device, depth);
    if device.hub is Some && depth < MAX_DEPTH {
        let hub = device.hub->0;
        let own = seq![device.address];
        let before = addresses_on(hub.ports);
        let n = hub.ports.len() as int;
        assert(device.addresses() == own + before);
        lemma_in_use_parts(st.used, own, before);
        assert(hub.ports.subrange(0, n) =~= hub.ports);
        lemma_ports_polled_swaps(says, st, device.target(), hub.ports, n, depth);
        let (ports, _, _) = ports_polled(says, st, device.target(), hub.ports, n, depth);
        let now = addresses_on(ports);
        lemma_swaps_same(st.used, own);
        lemma_swaps_both(st.used, st.used, after.used, own, own, before, now);
        assert(after_device.addresses() == own + now);
    } else {
        lemma_swaps_same(st.used, device.addresses());
    }
}

proof fn lemma_ports_polled_swaps<E>(
    says: Says<E>,
    st: State,
    target: Target,
    ports: Seq<PortModel<E>>,
    n: int,
    depth: int,
)
    requires
        st.used.len() == 128,
        0 <= n <= ports.len(),
        in_use(st.used, addresses_on(ports.subrange(0, n))),
    ensures
        ({
            let (now, _, after) = ports_polled(says, st, target, ports, n, depth);
            swaps(
                st.used,
                after.used,
                addresses_on(ports.subrange(0, n)),
                addresses_on(now),
            )
        }),
    decreases MAX_DEPTH - depth, 1int, n,
{
    let part = ports.subrange(0, n);
    if n == 0 {
        lemma_swaps_same(st.used, addresses_on(part));
        assert(part =~= Seq::<PortModel<E>>::empty());
    } else {
        let front = ports.subrange(0, n - 1);
        assert(part.subrange(0, n - 1) =~= front);
        let a = addresses_on(front);
        let b = addresses_at(ports[n - 1]);
        assert(part[n - 1] == ports[n - 1]);
        assert(addresses_on(part) == a + b);
        lemma_in_use_parts(st.used, a, b);
        lemma_ports_polled_swaps(says, st, target, ports, n - 1, depth);
        let (before, _, mid) = ports_polled(says, st, target, ports, n - 1, depth);
        lemma_others_in_use(st.used, mid.used, a, addresses_on(before), b);
        lemma_port_polled_swaps(says, mid, target, ports[n - 1], n as u8, depth);
        let (port, _, after) = port_polled(says, mid, target, ports[n - 1], n as u8, depth);
        lemma_swaps_both(
            st.used,
            mid.used,
            after.used,
            a,
            addresses_on(before),
            b,
            addresses_at(port),
        );
        let all = before.push(port);
        assert(all.subrange(0, all.len() - 1) =~= before);
        assert(addresses_on(all) == addresses_on(before) + addresses_at(port));
    }
}

proof fn lemma_port_polled_swaps<E>(
    says: Says<E>,
    st: State,
    target: Target,
    port: PortModel<E>,
    number: u8,
    depth: int,
)
    requires
        st.used.len() == 128,
        in_use(st.used, addresses_at(port)),
    ensures
        ({
            let (now, _, after) = port_polled(says, st, target, port, number, depth);
            swaps(st.used, after.used, addresses_at(port), addresses_at(now))
        }),
    decreases MAX_DEPTH - depth, 0int, 0int,
{
    lemma_swaps_same(st.used, addresses_at(port));
    if let (Ok(status), sent) = status_asked(says, st, target, number) {
        assert(sent.used == st.used);
        if !status.has(0x1_0000) {
            if let PortModel::Device(child) = port {
                assert(addresses_at(port) == child.addresses());
                if depth < MAX_DEPTH {
                    lemma_polled_swaps(says, sent, child, depth + 1);
                    let (now, _, _) = polled(says, sent, child, depth + 1);
                    assert(addresses_at(PortModel::Device(now)) == now.addresses());
                }
            }
        } else {
            let setup = SetupPacket::clear_port_feature(
                number,
                PortFeature::connection_change(),
            );
            let cleared = asked(says, sent, target, setup).1;
            let freed = State {
                used: given_back(cleared.used, addresses_at(port)),
                ..cleared
            };
            if status.has(1) {
                lemma_port_takes(says, freed, target, number, depth);
                let (found, after) = port_found(says, freed, target, number, depth);
                lemma_swaps_taken(st.used, after.used, addresses_at(port), addresses_at(found));
            } else {
                lemma_takes_none(freed.used);
                lemma_swaps_taken(st.used, freed.used, addresses_at(port), Seq::empty());
                assert(addresses_at(PortModel::<E>::Empty) == Seq::<u8>::empty());
            }
        }
    }
}

/// However devices come and go, no two on the bus have the same address, and the addresses in
/// use are theirs.
pub proof fn polling_keeps_addresses_apart<E>(
    says: Says<E>,
    st: State,
    device: DeviceModel<E>,
    depth: int,
)
    requires
        accounts(st.used, device.addresses()),
        device.fits(MAX_DEPTH - depth),
    ensures
        ({
            let (after_device, _, after) = polled(says, st, device, depth);
            accounts(after.used, after_device.addresses())
        }),
{
    let before = device.addresses();
    lemma_addresses_fit(device, MAX_DEPTH - depth);
    assert forall|k: int| 0 <= k < before.len() implies 1 <= #[trigger] before[k] <= MAX_ADDRESS
        && st.used[before[k] as int] by {
        assert(before.contains(before[k]));
        assert(st.used[before[k] as int] <==> before.contains(before[k] as int as u8));
    }
    lemma_polled_swaps(says, st, device, depth);
    let (after_device, _, after) = polled(says, st, device, depth);
    let now = after_device.addresses();
    assert forall|i: int| 0 <= i < 128 implies (#[trigger] after.used[i] <==> now.contains(
        i as u8,
    )) by {
        assert(st.used[i] <==> before.contains(i as u8));
    }
}

/// Enumerates the device on the root port, just reset, at speed `speed`, and everything
/// behind it if it is a hub.
pub fn enumerate<B: Bus>(bus: &mut B, speed: Speed) -> (r: Result<
    Tree<B::Error>,
    Error<B::Error>,
>)
    ensures
        final(bus).says() == old(bus).says(),
        ({
            let begun = State { log: old(bus).log(), used: Seq::new(128, |i: int| false) };
            let (result, after) = device_found(old(bus).says(), begun, speed, None, 0);
            &&& after.log == final(bus).log()
            &&& match r {
                Ok(tree) => result == Ok::<DeviceModel<B::Error>, Error<B::Error>>(tree.root@)
                    && tree.addresses@ == after.used && tree.wf(),
                Err(error) => result == Err::<DeviceModel<B::Error>, Error<B::Error>>(error),
            }
        }),
{
    let mut addresses = Addresses::new();
    let ghost begun = state_of(*bus, addresses);
    proof {
        found_devices_take_addresses(bus.says(), begun, speed, None, 0);
    }
    match find_device(bus, &mut addresses, speed, None, 0) {
        Ok(root) => Ok(Tree { root, addresses }),
        Err(error) => Err(error),
    }
}

impl<E> Tree<E> {
    /// Looks at every hub's ports for devices that came or went since the last look (or
    /// enumeration): forgets those that went, and enumerates those that came. Returns what
    /// changed.
    pub fn poll_changes<B: Bus<Error = E>>(&mut self, bus: &mut B) -> (r: Vec<Change>)
        requires
            old(self).wf(),
        ensures
            final(self).wf(),
            final(bus).says() == old(bus).says(),
            polled(
                old(bus).says(),
                state_of(*old(bus), old(self).addresses),
                old(self).root@,
                0,
            ) == (final(self).root@, r@, state_of(*final(bus), final(self).addresses)),
    {
        let mut changes: Vec<Change> = Vec::new();
        proof {
            polling_keeps_addresses_apart(
                bus.says(),
                state_of(*bus, self.addresses),
                self.root@,
                0,
            );
        }
        poll_hub(bus, &mut self.addresses, &mut self.root, 0, &mut changes);
        assert(Seq::<Change>::empty() + changes@ =~= changes@);
        changes
    }

    /// The device at `address`, if there is one.
    pub fn device(&self, address: u8) -> (r: Option<&Device<E>>)
        requires
            self.wf(),
        ensures
            match r {
                Some(device) => device.address == address && exists|k: int|
                    0 <= k < self.root@.walked(0).len() && (#[trigger] self.root@.walked(0)[k]).1
                        == device@,
                None => !self.root@.addresses().contains(address),
            },
    {
        let found = self.root.walk();
        proof {
            lemma_walked(self.root@, 0);
        }
        let mut i: usize = 0;
        while i < found.len()
            invariant
                i <= found@.len(),
                found@.len() == self.root@.walked(0).len(),
                found@.len() == self.root@.addresses().len(),
                forall|k: int|
                    0 <= k < found@.len() ==> (#[trigger] found@[k]).1@ == self.root@.walked(0)[k].1,
                forall|k: int|
                    0 <= k < found@.len() ==> (#[trigger] self.root@.walked(0)[k]).1.address
                        == self.root@.addresses()[k],
                forall|k: int| 0 <= k < i ==> #[trigger] self.root@.addresses()[k] != address,
            decreases found@.len() - i,
        {
            let device = found[i].1;
            assert(found@[i as int].1@ == self.root@.walked(0)[i as int].1);
            if device.address == address {
                return Some(device);
            }
            i += 1;
        }
        None
    }
}

} // verus!
