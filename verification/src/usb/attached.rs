//! What enumerating does with devices and hubs that answer as they should: everything that is asked
//! of them, in order, and what is found.

use super::described;
use super::described::WholeConfiguration;
use super::tree;
use super::tree::{Change, DeviceModel, HubModel, PortModel, Request, Says, State, Target, Translator};
use super::{
    Class,
    ConfigurationModel,
    DescriptorType,
    DeviceDescriptor,
    HubDescriptor,
    PortFeature,
    PortStatus,
    SetupPacket,
    Speed,
};
use crate::bytes;
use vstd::prelude::*;

verus! {

/// Whether `data` comes back from the request number `i`.
pub open spec fn answers<E>(says: Says<E>, i: int, data: Seq<u8>) -> bool {
    says(i) matches Ok(reply) && reply.received == data.len() && data.len() <= reply.buffer.len()
        && reply.buffer.subrange(0, data.len() as int) == data
}

/// A device at address 0 that answers is asked for the first 8 bytes of its descriptor, with
/// packets of 8; gets the lowest free address, and 2 ms to get used to it; is asked there, with
/// packets as long as it said, for its descriptor, for the first 9 bytes of its configuration,
/// and for all of that; and is told to use it. What is found is what it said.
#[verifier::rlimit(30)]
#[verifier::spinoff_prover]
pub proof fn devices_are_enumerated<E>(
    says: Says<E>,
    st: State,
    speed: Speed,
    translator: Option<Translator>,
    depth: int,
    d: DeviceDescriptor,
    version: u16,
    release: u16,
    names: Seq<u8>,
    whole: WholeConfiguration,
    address: u8,
)
    requires
        names.len() == 3,
        whole.valid(),
        d.class.0 != 9,
        forall|i: int|
            0 <= i < whole.groups.len() ==> (#[trigger] whole.groups[i]).interface.class != 9,
        st.used.len() == 128,
        1 <= address <= 127,
        !st.used[address as int],
        forall|a: int| 1 <= a < address ==> #[trigger] st.used[a],
        ({
            let n = st.log.len() as int;
            let device = described::spelled_device(d, version, release, names);
            &&& answers(says, n, device.subrange(0, 8))
            &&& says(n + 1) is Ok
            &&& answers(says, n + 3, device)
            &&& answers(says, n + 4, whole.header().subrange(0, 9))
            &&& answers(says, n + 5, whole.spelled())
            &&& says(n + 6) is Ok
        }),
    ensures
        ({
            let unaddressed = Target { address: 0, max_packet: 8, speed, translator };
            let sized = Target { max_packet: d.max_packet_size as u16, ..unaddressed };
            let target = Target { address, ..sized };
            tree::device_found(says, st, speed, translator, depth) == (
                Ok::<DeviceModel<E>, tree::Error<E>>(
                    DeviceModel {
                        address,
                        speed,
                        translator,
                        descriptor: d,
                        configuration: ConfigurationModel {
                            value: whole.value,
                            interfaces: whole.groups.map_values(|g: described::Group| g.told()),
                        },
                        hub: None,
                    },
                ),
                State {
                    log: st.log + seq![
                        Request::Control(
                            unaddressed,
                            SetupPacket::get_descriptor(DescriptorType(1), 0, 8),
                        ),
                        Request::Control(sized, SetupPacket::set_address(address)),
                        Request::Delay(2),
                        Request::Control(
                            target,
                            SetupPacket::get_descriptor(DescriptorType(1), 0, 18),
                        ),
                        Request::Control(
                            target,
                            SetupPacket::get_descriptor(DescriptorType(2), 0, 9),
                        ),
                        Request::Control(
                            target,
                            SetupPacket::get_descriptor(
                                DescriptorType(2),
                                0,
                                whole.length() as u16,
                            ),
                        ),
                        Request::Control(target, SetupPacket::set_configuration(whole.value)),
                    ],
                    used: st.used.update(address as int, true),
                },
            )
        }),
{
    let unaddressed = Target { address: 0, max_packet: 8, speed, translator };
    let sized = Target { max_packet: d.max_packet_size as u16, ..unaddressed };
    let target = Target { address, ..sized };
    let device = described::spelled_device(d, version, release, names);
    let told = ConfigurationModel {
        value: whole.value,
        interfaces: whole.groups.map_values(|g: described::Group| g.told()),
    };
    described::devices_are_what_they_say(d, version, release, names, Seq::empty());
    assert(device + Seq::<u8>::empty() =~= device);
    described::configurations_are_what_they_say(whole, Seq::empty());
    assert(whole.spelled() + Seq::<u8>::empty() =~= whole.spelled());
    lemma_lowest(st.used, address, 1);
    let r1 = Request::Control(unaddressed, SetupPacket::get_descriptor(DescriptorType(1), 0, 8));
    let r2 = Request::Control(sized, SetupPacket::set_address(address));
    let r4 = Request::Control(target, SetupPacket::get_descriptor(DescriptorType(1), 0, 18));
    let r5 = Request::Control(target, SetupPacket::get_descriptor(DescriptorType(2), 0, 9));
    let r6 = Request::Control(
        target,
        SetupPacket::get_descriptor(DescriptorType(2), 0, whole.length() as u16),
    );
    let r7 = Request::Control(target, SetupPacket::set_configuration(whole.value));
    let log = st.log.push(r1).push(r2).push(Request::Delay(2)).push(r4).push(r5).push(r6).push(r7);
    assert(log =~= st.log + seq![r1, r2, Request::Delay(2), r4, r5, r6, r7]);
    assert(!tree::is_hub(d, told)) by {
        assert forall|i: int| 0 <= i < told.interfaces.len() implies (
        #[trigger] told.interfaces[i]).class != Class::hub() by {
            assert(told.interfaces[i] == whole.groups[i].told());
        }
    }
    let taken = State { log: st.log.push(r1), used: st.used.update(address as int, true) };
    let reached = State {
        log: st.log.push(r1).push(r2).push(Request::Delay(2)),
        used: st.used.update(address as int, true),
    };
    assert(tree::configuration_asked(
        says,
        State { log: reached.log.push(r4), ..reached },
        target,
    ) == (
        Ok::<ConfigurationModel, tree::Error<E>>(told),
        State { log: reached.log.push(r4).push(r5).push(r6), ..reached },
    ));
    assert(tree::configured(says, reached, target) == (
        Ok::<(DeviceDescriptor, ConfigurationModel), tree::Error<E>>((d, told)),
        State { log, ..reached },
    ));
    assert(tree::addressed(says, taken, sized, address, depth).0 is Ok);
}

proof fn lemma_lowest(used: Seq<bool>, address: u8, from: int)
    requires
        1 <= from <= address <= 127,
        !used[address as int],
        forall|a: int| from <= a < address ==> #[trigger] used[a],
    ensures
        tree::lowest_free(used, from) == Some(address),
    decreases address - from,
{
    if from < address {
        assert(used[from]);
        lemma_lowest(used, address, from + 1);
    }
}

/// What a port's status bytes say: connected, enabled and reset, each as the bus has it.
pub open spec fn status_bytes<E>(says: Says<E>, i: int, a: u8, b: u8, c: u8, e: u8) -> bool {
    says(i) matches Ok(reply) && reply.buffer == seq![a, b, c, e]
}

/// A port without a device is asked for its status, and is empty. A device on a port is reset: the
/// port's status says when that is done and how fast the device is, both changes are
/// acknowledged, and after 10 ms the device is enumerated, one hub further down. Where that fails
/// the port is disabled. A device that is slower than a high speed hub is spoken to through
/// that hub's translator, one on a slower hub through the one which that hub uses.
#[verifier::rlimit(30)]
#[verifier::spinoff_prover]
pub proof fn ports_are_looked_at<E>(
    says: Says<E>,
    st: State,
    hub: Target,
    port: u8,
    depth: int,
    a: u8,
    b: u8,
    c: u8,
    e: u8,
    a2: u8,
    b2: u8,
    c2: u8,
    e2: u8,
)
    requires
        0 <= depth < 5,
        ({
            let n = st.log.len() as int;
            &&& status_bytes(says, n, a, b, c, e)
            &&& a % 2 == 1 ==> {
                &&& says(n + 1) is Ok
                &&& status_bytes(says, n + 3, a2, b2, c2, e2)
                &&& c2 / 16 % 2 == 1
                &&& a2 / 2 % 2 == 1
                &&& says(n + 4) is Ok
                &&& says(n + 5) is Ok
            }
        }),
    ensures
        ({
            let ask = Request::Control(hub, SetupPacket::get_port_status(port));
            let speed = if b2 / 2 % 2 == 1 {
                Speed::Low
            } else if b2 / 4 % 2 == 1 {
                Speed::High
            } else {
                Speed::Full
            };
            let translator = if hub.speed != Speed::High {
                hub.translator
            } else if speed == Speed::High {
                None
            } else {
                Some(Translator { hub: hub.address, port })
            };
            let ready = State {
                log: st.log + seq![
                    ask,
                    Request::Control(hub, SetupPacket::set_port_feature(port, PortFeature(4))),
                    Request::Delay(10),
                    ask,
                    Request::Control(hub, SetupPacket::clear_port_feature(port, PortFeature(20))),
                    Request::Control(hub, SetupPacket::clear_port_feature(port, PortFeature(16))),
                    Request::Delay(10),
                ],
                ..st
            };
            let found = tree::device_found(says, ready, speed, translator, depth + 1);
            tree::port_found(says, st, hub, port, depth) == (if a % 2 == 0 {
                (PortModel::Empty, State { log: st.log.push(ask), ..st })
            } else {
                match found.0 {
                    Ok(device) => (PortModel::Device(device), found.1),
                    Err(error) => (
                        PortModel::Failed(error),
                        State {
                            log: found.1.log.push(
                                Request::Control(
                                    hub,
                                    SetupPacket::clear_port_feature(port, PortFeature(1)),
                                ),
                            ),
                            ..found.1
                        },
                    ),
                }
            })
        }),
{
    described::ports_are_what_they_say(a, b, c, e);
    described::ports_are_what_they_say(a2, b2, c2, e2);
    let ask = Request::Control(hub, SetupPacket::get_port_status(port));
    let reset = Request::Control(hub, SetupPacket::set_port_feature(port, PortFeature(4)));
    let clear = Request::Control(hub, SetupPacket::clear_port_feature(port, PortFeature(20)));
    let again = Request::Control(hub, SetupPacket::clear_port_feature(port, PortFeature(16)));
    let wait = Request::Delay(10);
    let first = PortStatus(bytes::le32(seq![a, b, c, e], 0));
    let second = PortStatus(bytes::le32(seq![a2, b2, c2, e2], 0));
    assert(tree::status_asked(says, st, hub, port) == (
        Ok::<PortStatus, tree::Error<E>>(first),
        State { log: st.log.push(ask), ..st },
    ));
    if a % 2 == 1 {
        let log = st.log.push(ask).push(reset).push(wait).push(ask).push(clear).push(again).push(
            wait,
        );
        assert(log =~= st.log + seq![ask, reset, wait, ask, clear, again, wait]);
        let started = State { log: st.log.push(ask).push(reset), ..st };
        assert(tree::reset_awaited(says, started, hub, port, 0) == (
            Ok::<PortStatus, tree::Error<E>>(second),
            State { log: started.log.push(wait).push(ask), ..st },
        ));
        assert(tree::port_reset(says, State { log: st.log.push(ask), ..st }, hub, port).1
            == State { log, ..st });
    }
}

/// A hub that answers is asked for its descriptor, its ports are powered one after the other, and
/// once the power is good, in 510 ms at least, they are looked at in their order.
#[verifier::rlimit(30)]
#[verifier::spinoff_prover]
pub proof fn hubs_are_powered_up<E>(
    says: Says<E>,
    st: State,
    hub: Target,
    depth: int,
    ports: u8,
    characteristics: u16,
    steps: u8,
    current: u8,
    past: Seq<u8>,
)
    requires
        0 <= depth < 6,
        past.len() <= 2,
        ({
            let n = st.log.len() as int;
            let descriptor = seq![9u8, 0x29, ports] + bytes::le16_bytes(characteristics) + seq![
                steps,
                current,
            ] + past;
            &&& answers(says, n, descriptor)
            &&& forall|i: int| n < i <= n + ports ==> (#[trigger] says(i)) is Ok
        }),
    ensures
        ({
            let good = if 2 * steps > 510 {
                (2 * steps) as u32
            } else {
                510u32
            };
            let powered = State {
                log: st.log.push(Request::Control(hub, SetupPacket::get_hub_descriptor(9)))
                    + Seq::new(
                    ports as nat,
                    |i: int|
                        Request::Control(
                            hub,
                            SetupPacket::set_port_feature((i + 1) as u8, PortFeature(8)),
                        ),
                ).push(Request::Delay(good)),
                ..st
            };
            let found = tree::ports_found(says, powered, hub, ports as int, depth);
            tree::hub_found(says, st, hub, depth) == (
                Ok::<HubModel<E>, tree::Error<E>>(
                    HubModel {
                        descriptor: HubDescriptor { ports, power_on_to_good_ms: (2 * steps) as u32 },
                        ports: found.0,
                    },
                ),
                found.1,
            )
        }),
{
    let descriptor = seq![9u8, 0x29, ports] + bytes::le16_bytes(characteristics) + seq![
        steps,
        current,
    ] + past;
    described::hubs_are_what_they_say(9, ports, characteristics, steps, current, past);
    let asked = State {
        log: st.log.push(Request::Control(hub, SetupPacket::get_hub_descriptor(9))),
        ..st
    };
    let powering = Seq::new(
        ports as nat,
        |i: int|
            Request::Control(hub, SetupPacket::set_port_feature((i + 1) as u8, PortFeature(8))),
    );
    lemma_powered(says, asked, hub, 1, ports as int);
    assert(Seq::new(
        ports as nat,
        |i: int|
            Request::Control(hub, SetupPacket::set_port_feature((1 + i) as u8, PortFeature(8))),
    ) =~= powering);
    let good = if 2 * steps > 510 {
        (2 * steps) as u32
    } else {
        510u32
    };
    assert((asked.log + powering).push(Request::Delay(good)) =~= asked.log + powering.push(
        Request::Delay(good),
    ));
}

proof fn lemma_powered<E>(says: Says<E>, st: State, hub: Target, port: int, last: int)
    requires
        1 <= port <= last + 1 <= 256,
        forall|i: int| st.log.len() <= i < st.log.len() + last + 1 - port ==> (#[trigger] says(i)) is Ok,
    ensures
        tree::ports_powered(says, st, hub, port, last) == (
            Ok::<(), tree::Error<E>>(()),
            State {
                log: st.log + Seq::new(
                    (last + 1 - port) as nat,
                    |i: int|
                        Request::Control(
                            hub,
                            SetupPacket::set_port_feature((port + i) as u8, PortFeature(8)),
                        ),
                ),
                ..st
            },
        ),
    decreases last + 1 - port,
{
    let all = Seq::new(
        (last + 1 - port) as nat,
        |i: int|
            Request::Control(hub, SetupPacket::set_port_feature((port + i) as u8, PortFeature(8))),
    );
    if port > last {
        assert(st.log + all =~= st.log);
    } else {
        let one = Request::Control(
            hub,
            SetupPacket::set_port_feature(port as u8, PortFeature(8)),
        );
        let next = State { log: st.log.push(one), ..st };
        assert(says(st.log.len() as int) is Ok);
        lemma_powered(says, next, hub, port + 1, last);
        let rest = Seq::new(
            (last + 1 - (port + 1)) as nat,
            |i: int|
                Request::Control(
                    hub,
                    SetupPacket::set_port_feature((port + 1 + i) as u8, PortFeature(8)),
                ),
        );
        assert(next.log + rest =~= st.log + all);
    }
}

/// A port on which nothing came or went is left as it is. One whose device went is empty, its
/// device is reported removed, and the addresses of that and of everything behind it are free
/// again.
pub proof fn removed_devices_are_reported<E>(
    says: Says<E>,
    st: State,
    target: Target,
    gone: DeviceModel<E>,
    number: u8,
    depth: int,
    a: u8,
    b: u8,
    c: u8,
    e: u8,
)
    requires
        status_bytes(says, st.log.len() as int, a, b, c, e),
        a % 2 == 0,
    ensures
        ({
            let ask = Request::Control(target, SetupPacket::get_port_status(number));
            let clear = Request::Control(
                target,
                SetupPacket::clear_port_feature(number, PortFeature(16)),
            );
            &&& c % 2 == 0 ==> tree::port_polled(
                says,
                st,
                target,
                PortModel::Empty,
                number,
                depth,
            ) == (
                PortModel::<E>::Empty,
                Seq::<Change>::empty(),
                State { log: st.log.push(ask), ..st },
            )
            &&& c % 2 == 1 ==> tree::port_polled(
                says,
                st,
                target,
                PortModel::Device(gone),
                number,
                depth,
            ) == (
                PortModel::<E>::Empty,
                seq![Change::Removed { address: gone.address }],
                State {
                    log: st.log.push(ask).push(clear),
                    used: Seq::new(
                        st.used.len(),
                        |i: int| st.used[i] && !gone.addresses().contains(i as u8),
                    ),
                },
            )
        }),
{
    described::ports_are_what_they_say(a, b, c, e);
    if c % 2 == 1 {
        let after = tree::port_polled(says, st, target, PortModel::Device(gone), number, depth).2;
        assert(after.used =~= Seq::new(
            st.used.len(),
            |i: int| st.used[i] && !gone.addresses().contains(i as u8),
        ));
    }
}

} // verus!
