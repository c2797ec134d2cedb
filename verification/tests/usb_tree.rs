use rustypi::usb::tree::{
    enumerate, Bus, Change, Error, Port, Target, Translator, MIN_POWER_UP_MS,
};
use rustypi::usb::{DescriptorError, DescriptorType, SetupPacket, Speed};

/// A pretend device: its descriptors, and for a hub, its ports.
struct FakeDevice {
    speed: Speed,
    device: [u8; 18],
    configuration: Vec<u8>,
    hub: Option<FakeHub>,
    address: Option<u8>,
    configured: Option<u8>,
    /// Answers nothing past its device descriptor.
    broken: bool,
    /// The hub (by index) and port its transactions must be split through, if any.
    translator: Option<(usize, u8)>,
}

struct FakeHub {
    ports: Vec<FakePort>,
}

#[derive(Default)]
struct FakePort {
    device: Option<usize>,
    powered: bool,
    enabled: bool,
    reset_changed: bool,
    connection_changed: bool,
    /// Never finishes a reset.
    stuck: bool,
    /// Finishes a reset without being enabled.
    dead: bool,
}

/// A pretend bus: devices by index, the root first, reached by address.
struct FakeBus {
    devices: Vec<FakeDevice>,
    /// The device answering at address 0: the root, then each one just reset.
    default: Option<usize>,
    slept_ms: u32,
}

fn device_descriptor(class: u8, vendor: u16, product: u16, max_packet: u8) -> [u8; 18] {
    let [v0, v1] = vendor.to_le_bytes();
    let [p0, p1] = product.to_le_bytes();
    [18, 1, 0, 2, class, 0, 0, max_packet, v0, v1, p0, p1, 0, 1, 0, 0, 0, 1]
}

/// A configuration with one interface of `class` and one interrupt IN endpoint.
fn configuration(class: u8) -> Vec<u8> {
    vec![9, 2, 25, 0, 1, 1, 0, 0xE0, 0, 9, 4, 0, 0, 1, class, 0, 0, 0, 7, 5, 0x81, 3, 1, 0, 12]
}

fn fake(speed: Speed, class: u8, vendor: u16, product: u16, ports: usize) -> FakeDevice {
    let hub = (ports > 0).then(|| FakeHub { ports: (0..ports).map(|_| FakePort::default()).collect() });
    FakeDevice {
        speed,
        device: device_descriptor(class, vendor, product, if speed == Speed::High { 64 } else { 8 }),
        configuration: configuration(class),
        hub,
        address: None,
        configured: None,
        broken: false,
        translator: None,
    }
}

impl FakeBus {
    /// The Pi 3 B+: a 4-port hub (0) at the root; on its port 1 a 3-port hub (1) with the
    /// LAN7800 (2) on port 1 and a low speed keyboard (3) on port 2; a flash drive (4) on
    /// port 3 of the first hub; its ports 2 and 4 empty.
    fn pi_3b_plus() -> FakeBus {
        let mut devices = vec![
            fake(Speed::High, 9, 0x0424, 0x2514, 4),
            fake(Speed::High, 9, 0x0424, 0x2514, 3),
            fake(Speed::High, 0xFF, 0x0424, 0x7800, 0),
            fake(Speed::Low, 0, 0x046D, 0xC31C, 0),
            fake(Speed::High, 0, 0x0781, 0x5567, 0),
        ];
        devices[0].hub.as_mut().unwrap().ports[0].device = Some(1);
        devices[0].hub.as_mut().unwrap().ports[2].device = Some(4);
        devices[1].hub.as_mut().unwrap().ports[0].device = Some(2);
        devices[1].hub.as_mut().unwrap().ports[1].device = Some(3);
        devices[3].translator = Some((1, 2));
        FakeBus { devices, default: Some(0), slept_ms: 0 }
    }

    fn find(&self, address: u8) -> Option<usize> {
        if address == 0 {
            self.default
        } else {
            self.devices.iter().position(|d| d.address == Some(address))
        }
    }

    fn port_status(&self, port: &FakePort) -> u32 {
        let connected = port.device.is_some();
        let mut status = connected as u32 | (port.enabled as u32) << 1 | (port.powered as u32) << 8;
        if let (Some(device), true) = (port.device, port.enabled) {
            match self.devices[device].speed {
                Speed::Low => status |= 1 << 9,
                Speed::High => status |= 1 << 10,
                Speed::Full => {}
            }
        }
        status | (port.connection_changed as u32) << 16 | (port.reset_changed as u32) << 20
    }

    /// Pulls whatever is on `hub`'s `port` (counting from 1) out: it and everything behind
    /// it forget their addresses.
    fn unplug(&mut self, hub: usize, port: usize) {
        let fake_port = &mut self.devices[hub].hub.as_mut().unwrap().ports[port - 1];
        let Some(device) = fake_port.device.take() else { return };
        fake_port.enabled = false;
        fake_port.connection_changed = true;
        self.forget(device);
    }

    fn forget(&mut self, device: usize) {
        self.devices[device].address = None;
        self.devices[device].configured = None;
        let children: Vec<_> = self.devices[device].hub.iter().flat_map(|hub| hub.ports.iter().filter_map(|p| p.device)).collect();
        for child in children {
            self.forget(child);
        }
        if let Some(hub) = self.devices[device].hub.as_mut() {
            for port in &mut hub.ports {
                port.powered = false;
                port.enabled = false;
            }
        }
    }

    fn plug(&mut self, hub: usize, port: usize, device: usize) {
        let fake_port = &mut self.devices[hub].hub.as_mut().unwrap().ports[port - 1];
        fake_port.device = Some(device);
        fake_port.connection_changed = true;
    }
}

impl Bus for FakeBus {
    type Error = String;

    fn control(&mut self, target: Target, setup: SetupPacket, data: &mut [u8]) -> Result<usize, String> {
        let index = self.find(target.address).ok_or("nobody at that address")?;
        let device = &self.devices[index];
        assert_eq!(target.speed, device.speed, "talking to a device at the wrong speed");
        let translator = device.translator.map(|(hub, port)| Translator { hub: self.devices[hub].address.unwrap(), port });
        assert_eq!(target.translator, translator, "split through the wrong translator");
        let length = setup.length as usize;
        let reply = |bytes: &[u8], data: &mut [u8]| {
            let n = length.min(bytes.len());
            data[..n].copy_from_slice(&bytes[..n]);
            Ok(n)
        };
        let port = setup.index as usize;
        match (setup.request_type, setup.request) {
            (0x80, 6) if setup.value >> 8 == 1 => reply(&device.device.clone(), data),
            (_, _) if device.broken => Err("broken".to_string()),
            (0x80, 6) if setup.value >> 8 == 2 => reply(&device.configuration.clone(), data),
            (0x00, 5) => {
                self.devices[index].address = Some(setup.value as u8);
                self.default = None;
                Ok(0)
            }
            (0x00, 9) => {
                self.devices[index].configured = Some(setup.value as u8);
                Ok(0)
            }
            (0xA0, 6) => {
                let ports = device.hub.as_ref().ok_or("not a hub")?.ports.len() as u8;
                reply(&[9, 0x29, ports, 0, 0, 50, 0, 0, 0xFF], data)
            }
            (0xA3, 0) => {
                let status = self.port_status(&device.hub.as_ref().unwrap().ports[port - 1]);
                reply(&status.to_le_bytes(), data)
            }
            (0x23, 3) => {
                let hub_port = &mut self.devices[index].hub.as_mut().unwrap().ports[port - 1];
                match setup.value {
                    8 => hub_port.powered = true,
                    4 if hub_port.stuck => {}
                    4 if hub_port.dead => hub_port.reset_changed = true,
                    4 if hub_port.powered && hub_port.device.is_some() => {
                        hub_port.enabled = true;
                        hub_port.reset_changed = true;
                        let child = hub_port.device.unwrap();
                        assert!(self.default.is_none(), "two devices at address 0");
                        self.default = Some(child);
                    }
                    feature => return Err(format!("set feature {feature}")),
                }
                Ok(0)
            }
            (0x23, 1) => {
                let hub_port = &mut self.devices[index].hub.as_mut().unwrap().ports[port - 1];
                match setup.value {
                    1 => {
                        hub_port.enabled = false;
                        if self.default == hub_port.device {
                            self.default = None;
                        }
                    }
                    20 => hub_port.reset_changed = false,
                    16 => hub_port.connection_changed = false,
                    feature => return Err(format!("clear feature {feature}")),
                }
                Ok(0)
            }
            request => Err(format!("unexpected request {request:?}")),
        }
    }

    fn delay_ms(&mut self, ms: u32) {
        self.slept_ms += ms;
    }
}

#[test]
fn the_whole_bus_is_found_through_both_hubs() {
    let mut bus = FakeBus::pi_3b_plus();
    let root = enumerate(&mut bus, Speed::High).unwrap().root;
    let found: Vec<_> = root.walk().iter().map(|(depth, d)| (*depth, d.address, d.descriptor.product)).collect();
    // Depth first: the second hub and what's on it come before the flash drive.
    assert_eq!(found, [(0, 1, 0x2514), (1, 2, 0x2514), (2, 3, 0x7800), (2, 4, 0xC31C), (1, 5, 0x5567)]);
    // Everyone found was configured.
    for index in 0..5 {
        assert_eq!(bus.devices[index].configured, Some(1));
    }
    let hub = root.hub.as_ref().unwrap();
    assert!(matches!(hub.ports[1], Port::Empty) && matches!(hub.ports[3], Port::Empty));
    assert!(bus.devices[0].hub.as_ref().unwrap().ports.iter().all(|port| port.powered));
}

#[test]
fn slow_devices_are_reached_through_their_hubs_translator() {
    let mut bus = FakeBus::pi_3b_plus();
    let root = enumerate(&mut bus, Speed::High).unwrap().root;
    let second = root.hub.as_ref().unwrap().ports[0].device().expect("second hub");
    let keyboard = second.hub.as_ref().unwrap().ports[1].device().expect("keyboard");
    assert_eq!(keyboard.speed, Speed::Low);
    assert_eq!(keyboard.translator, Some(Translator { hub: second.address, port: 2 }));
    assert_eq!(keyboard.target().translator, keyboard.translator);
    // High speed devices need none, however deep.
    assert_eq!(second.hub.as_ref().unwrap().ports[0].device().unwrap().translator, None);
}

#[test]
fn devices_behind_a_full_speed_hub_share_its_translator() {
    let mut bus = FakeBus::pi_3b_plus();
    // A full speed hub (5) on port 4 of the first hub, with a full speed device (6) on it.
    bus.devices.push(fake(Speed::Full, 9, 0x05E3, 0x0608, 2));
    bus.devices.push(fake(Speed::Full, 3, 0x1234, 0x0001, 0));
    bus.devices[0].hub.as_mut().unwrap().ports[3].device = Some(5);
    bus.devices[5].hub.as_mut().unwrap().ports[0].device = Some(6);
    bus.devices[5].translator = Some((0, 4));
    bus.devices[6].translator = Some((0, 4));
    let root = enumerate(&mut bus, Speed::High).unwrap().root;
    let hub = root.hub.as_ref().unwrap().ports[3].device().expect("full speed hub");
    let device = hub.hub.as_ref().unwrap().ports[0].device().expect("device behind it");
    assert_eq!(device.translator, Some(Translator { hub: 1, port: 4 }));
}

#[test]
fn a_failing_device_is_reported_and_the_rest_still_found() {
    let mut bus = FakeBus::pi_3b_plus();
    bus.devices[2].broken = true; // the LAN7800
    let root = enumerate(&mut bus, Speed::High).unwrap().root;
    let Port::Device(second) = &root.hub.as_ref().unwrap().ports[0] else { panic!("second hub") };
    assert!(matches!(&second.hub.as_ref().unwrap().ports[0], Port::Failed(Error::Bus(message)) if message == "broken"));
    assert!(!bus.devices[1].hub.as_ref().unwrap().ports[0].enabled);
    // The broken device's address went back to be used again: the keyboard got it, and
    // the flash drive the next.
    let keyboard = second.hub.as_ref().unwrap().ports[1].device().expect("keyboard");
    assert_eq!(keyboard.address, 3);
    assert!(matches!(&root.hub.as_ref().unwrap().ports[2], Port::Device(drive) if drive.address == 4));
}

#[test]
fn a_broken_root_device_is_an_error() {
    let mut bus = FakeBus::pi_3b_plus();
    bus.devices[0].broken = true;
    assert!(matches!(enumerate(&mut bus, Speed::High), Err(Error::Bus(_))));
}

#[test]
fn nothing_changes_while_nothing_is_plugged_or_pulled() {
    let mut bus = FakeBus::pi_3b_plus();
    let mut tree = enumerate(&mut bus, Speed::High).unwrap();
    assert_eq!(tree.poll_changes(&mut bus), []);
    assert_eq!(tree.root.walk().len(), 5);
}

#[test]
fn a_device_pulled_out_is_forgotten_and_found_again_when_plugged_back() {
    let mut bus = FakeBus::pi_3b_plus();
    let mut tree = enumerate(&mut bus, Speed::High).unwrap();
    bus.unplug(1, 2); // the keyboard
    assert_eq!(tree.poll_changes(&mut bus), [Change::Removed { address: 4 }]);
    assert!(tree.device(4).is_none());
    assert_eq!(tree.poll_changes(&mut bus), []);

    bus.plug(1, 2, 3);
    // It gets its old address back: the lowest free one.
    assert_eq!(tree.poll_changes(&mut bus), [Change::Added { address: 4 }]);
    let keyboard = tree.device(4).expect("keyboard back");
    assert_eq!(keyboard.descriptor.product, 0xC31C);
    assert_eq!(keyboard.translator, Some(Translator { hub: 2, port: 2 }));
    assert_eq!(bus.devices[3].configured, Some(1));
}

#[test]
fn pulling_a_hub_takes_everything_behind_it() {
    let mut bus = FakeBus::pi_3b_plus();
    let mut tree = enumerate(&mut bus, Speed::High).unwrap();
    bus.unplug(0, 1); // the second hub, with the LAN7800 and the keyboard
    assert_eq!(tree.poll_changes(&mut bus), [Change::Removed { address: 2 }]);
    assert_eq!(tree.root.walk().len(), 2); // the first hub and the flash drive
    // Back again: the hub and all behind it are enumerated, reusing the freed addresses.
    bus.plug(0, 1, 1);
    assert_eq!(tree.poll_changes(&mut bus), [Change::Added { address: 2 }]);
    let found: Vec<_> = tree.root.walk().iter().map(|(_, d)| (d.address, d.descriptor.product)).collect();
    assert_eq!(found, [(1, 0x2514), (2, 0x2514), (3, 0x7800), (4, 0xC31C), (5, 0x5567)]);
}

#[test]
fn a_device_swapped_between_looks_is_both_removed_and_added() {
    let mut bus = FakeBus::pi_3b_plus();
    let mut tree = enumerate(&mut bus, Speed::High).unwrap();
    // The flash drive out, and the keyboard moved into its port from the second hub.
    bus.unplug(0, 3);
    bus.unplug(1, 2);
    bus.plug(0, 3, 3);
    bus.devices[3].translator = Some((0, 3));
    let changes = tree.poll_changes(&mut bus);
    assert!(changes.contains(&Change::Removed { address: 5 }));
    assert!(changes.contains(&Change::Removed { address: 4 }));
    let moved = tree.root.hub.as_ref().unwrap().ports[2].device().expect("keyboard, moved");
    // Straight on the first hub now: its translator is that hub's.
    assert_eq!(moved.translator, Some(Translator { hub: 1, port: 3 }));
}

#[test]
fn hubs_wait_for_their_ports_to_power_up() {
    let mut bus = FakeBus::pi_3b_plus();
    enumerate(&mut bus, Speed::High).unwrap();
    // Two hubs' power-up, at least `MIN_POWER_UP_MS` each, plus reset polling and recovery.
    assert!(bus.slept_ms >= 2 * MIN_POWER_UP_MS, "slept {} ms", bus.slept_ms);
}

#[test]
fn ports_that_fail_to_reset_are_reported() {
    let mut bus = FakeBus::pi_3b_plus();
    bus.devices[0].hub.as_mut().unwrap().ports[2].stuck = true;
    bus.devices[1].hub.as_mut().unwrap().ports[0].dead = true;
    let root = enumerate(&mut bus, Speed::High).unwrap().root;
    let ports = &root.hub.as_ref().unwrap().ports;
    assert!(matches!(&ports[2], Port::Failed(Error::ResetTimedOut)));
    let second = ports[0].device().unwrap();
    assert!(matches!(&second.hub.as_ref().unwrap().ports[0], Port::Failed(Error::NotEnabled)));
    assert_eq!(second.hub.as_ref().unwrap().ports[1].device().unwrap().address, 3);
}

#[test]
fn hubs_nest_only_so_deep() {
    let mut bus = FakeBus::pi_3b_plus();
    // A chain of hubs on port 4 of the first, each on port 1 of the one before.
    let mut above = (0, 3);
    for index in 5..12 {
        bus.devices.push(fake(Speed::High, 9, 0x0424, 0x2514, 1));
        bus.devices[above.0].hub.as_mut().unwrap().ports[above.1].device = Some(index);
        above = (index, 0);
    }
    let root = enumerate(&mut bus, Speed::High).unwrap().root;
    let mut hub = root.hub.as_ref().unwrap().ports[3].device().unwrap();
    let mut depth = 1;
    let error = loop {
        match &hub.hub.as_ref().unwrap().ports[0] {
            Port::Device(next) => hub = next,
            Port::Failed(error) => break error,
            Port::Empty => panic!("the chain goes on"),
        }
        depth += 1;
    };
    assert!(matches!(error, Error::TooDeep), "{}", error.describe("bus"));
    assert_eq!(depth, 5);
}

#[test]
fn addresses_run_out_and_are_never_shared() {
    let mut bus = FakeBus::pi_3b_plus();
    bus.devices = vec![fake(Speed::High, 9, 0x0424, 0x2514, 130)];
    for index in 1..=130 {
        bus.devices.push(fake(Speed::High, 3, 0x1234, index as u16, 0));
        bus.devices[0].hub.as_mut().unwrap().ports[index - 1].device = Some(index);
    }
    let root = enumerate(&mut bus, Speed::High).unwrap().root;
    let addresses: Vec<u8> = root.walk().iter().map(|(_, device)| device.address).collect();
    assert_eq!(addresses, (1..=127).collect::<Vec<u8>>());
    let ports = &root.hub.as_ref().unwrap().ports;
    assert!(matches!(&ports[126], Port::Failed(Error::OutOfAddresses)));
    assert!(matches!(&ports[129], Port::Failed(Error::OutOfAddresses)));
}

#[test]
fn bad_descriptors_are_reported() {
    let mut bus = FakeBus::pi_3b_plus();
    bus.devices[0].device[1] = 7;
    let error = enumerate(&mut bus, Speed::High).err().unwrap();
    assert!(matches!(error, Error::Descriptor(DescriptorError::WrongType(DescriptorType(7)))));
    assert_eq!(error.describe("bus"), "unexpected descriptor type 0x7");
}

#[test]
fn tree_errors_are_shown_in_words() {
    assert_eq!(Error::Bus(()).describe("stalled"), "stalled");
    assert_eq!(Error::<()>::Descriptor(DescriptorError::Truncated).describe(""), "descriptor cut short");
    assert_eq!(Error::<()>::OutOfAddresses.describe(""), "out of device addresses");
    assert_eq!(Error::<()>::ResetTimedOut.describe(""), "port reset timed out");
    assert_eq!(Error::<()>::NotEnabled.describe(""), "port not enabled after reset");
    assert_eq!(Error::<()>::TooDeep.describe(""), "hubs chained too deep");
}
