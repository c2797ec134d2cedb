use rustypi::usb::{
    key_to_char, Class, Configuration, DescriptorError, DescriptorType, DeviceDescriptor, Direction,
    EndpointType, HubDescriptor, KeyboardReport, PortFeature, PortStatus, SetupPacket, Speed,
};

/// A typical low-speed boot keyboard's device descriptor.
const KEYBOARD_DEVICE: [u8; 18] = [
    18, 1, 0x10, 0x01, 0, 0, 0, 8, 0x6D, 0x04, 0x1C, 0xC3, 0x00, 0x01, 1, 2, 0, 1,
];

/// Its configuration: one boot keyboard interface, a HID descriptor, an interrupt IN
/// endpoint polled every 10ms.
const KEYBOARD_CONFIGURATION: [u8; 34] = [
    9, 2, 34, 0, 1, 1, 0, 0xA0, 50, // configuration
    9, 4, 0, 0, 1, 3, 1, 1, 0, // interface 0: HID, boot, keyboard
    9, 0x21, 0x11, 0x01, 0, 1, 0x22, 63, 0, // HID
    7, 5, 0x81, 3, 8, 0, 10, // endpoint 1 IN, interrupt, 8 bytes, 10ms
];

/// A 4-port hub's descriptor, like the first hub in the Pi 3 B+'s LAN7515.
const HUB: [u8; 9] = [9, 0x29, 4, 0x09, 0, 50, 0, 0, 0xFF];

#[test]
fn setup_packets_encode_little_endian() {
    let packet = SetupPacket::get_descriptor(DescriptorType::configuration(), 0, 0x0122);
    assert_eq!(packet.to_bytes(), [0x80, 6, 0, 2, 0, 0, 0x22, 0x01]);
    assert_eq!(packet.direction(), Direction::In);
    assert_eq!(SetupPacket::set_address(5).to_bytes(), [0, 5, 5, 0, 0, 0, 0, 0]);
    assert_eq!(SetupPacket::set_address(5).direction(), Direction::Out);
}

#[test]
fn hub_and_hid_requests_go_to_the_right_recipient() {
    assert_eq!(SetupPacket::get_hub_descriptor(9).to_bytes(), [0xA0, 6, 0, 0x29, 0, 0, 9, 0]);
    assert_eq!(SetupPacket::get_port_status(2).to_bytes(), [0xA3, 0, 0, 0, 2, 0, 4, 0]);
    assert_eq!(SetupPacket::set_port_feature(3, PortFeature::reset()).to_bytes(), [0x23, 3, 4, 0, 3, 0, 0, 0]);
    assert_eq!(SetupPacket::clear_port_feature(1, PortFeature::reset_change()).to_bytes(), [0x23, 1, 20, 0, 1, 0, 0, 0]);
    assert_eq!(SetupPacket::set_protocol(0, true).to_bytes(), [0x21, 0x0B, 0, 0, 0, 0, 0, 0]);
    assert_eq!(SetupPacket::set_idle(1).to_bytes(), [0x21, 0x0A, 0, 0, 1, 0, 0, 0]);
    assert_eq!(SetupPacket::vendor(Direction::In, 0xA1, 0, 0x10, 4).to_bytes(), [0xC0, 0xA1, 0, 0, 0x10, 0, 4, 0]);
}

#[test]
fn device_descriptors_parse() {
    assert_eq!(DeviceDescriptor::max_packet_size(&KEYBOARD_DEVICE[..8]), Ok(8));
    let device = DeviceDescriptor::parse(&KEYBOARD_DEVICE).unwrap();
    assert_eq!((device.vendor, device.product), (0x046D, 0xC31C));
    assert_eq!(device.class, Class::per_interface());
    assert_eq!(device.configurations, 1);
    assert_eq!(DeviceDescriptor::parse(&KEYBOARD_DEVICE[..12]), Err(DescriptorError::Truncated));
    assert_eq!(DeviceDescriptor::parse(&HUB), Err(DescriptorError::Truncated));
    let mut wrong = KEYBOARD_DEVICE;
    wrong[1] = 2;
    assert_eq!(DeviceDescriptor::parse(&wrong), Err(DescriptorError::WrongType(DescriptorType::configuration())));
}

#[test]
fn configurations_parse_with_their_interfaces_and_endpoints() {
    assert_eq!(Configuration::total_length(&KEYBOARD_CONFIGURATION[..9]), Ok(34));
    let configuration = Configuration::parse(&KEYBOARD_CONFIGURATION).unwrap();
    assert_eq!(configuration.value, 1);
    let [interface] = configuration.interfaces.as_slice() else { panic!("one interface") };
    assert!(interface.is_boot_keyboard());
    let endpoint = interface.endpoint(EndpointType::Interrupt, Direction::In).unwrap();
    assert_eq!((endpoint.number, endpoint.max_packet_size, endpoint.interval), (1, 8, 10));
    assert_eq!(interface.endpoint(EndpointType::Bulk, Direction::In), None);
}

#[test]
fn broken_configurations_are_errors() {
    assert_eq!(Configuration::parse(&KEYBOARD_CONFIGURATION[..20]), Err(DescriptorError::Truncated));
    let mut zero_length = KEYBOARD_CONFIGURATION;
    zero_length[9] = 0;
    assert_eq!(Configuration::parse(&zero_length), Err(DescriptorError::Truncated));
    let mut overlong = KEYBOARD_CONFIGURATION;
    overlong[27] = 20;
    assert_eq!(Configuration::parse(&overlong), Err(DescriptorError::Truncated));
}

#[test]
fn hub_descriptors_and_port_status_parse() {
    let hub = HubDescriptor::parse(&HUB).unwrap();
    assert_eq!((hub.ports, hub.power_on_to_good_ms), (4, 100));
    // Connected, enabled, powered, high speed; connection changed.
    let status = PortStatus::from_bytes([0x03, 0x05, 0x01, 0x00]);
    assert!(status.connected() && status.enabled() && status.powered());
    assert_eq!(status.speed(), Speed::High);
    assert!(status.connection_changed() && !status.reset_changed());
    assert_eq!(PortStatus(1 << 9).speed(), Speed::Low);
    assert_eq!(PortStatus(0).speed(), Speed::Full);
}

#[test]
fn keyboard_reports_give_newly_pressed_keys() {
    let idle = KeyboardReport::parse(&[0; 8]).unwrap();
    // Shift and 'a' held.
    let a = KeyboardReport::parse(&[0x02, 0, 0x04, 0, 0, 0, 0, 0]).unwrap();
    assert!(a.shift());
    assert_eq!(a.pressed_since(&idle), [0x04]);
    // 'b' joins while 'a' stays held: only 'b' is new.
    let ab = KeyboardReport::parse(&[0, 0, 0x04, 0x05, 0, 0, 0, 0]).unwrap();
    assert_eq!(ab.pressed_since(&a), [0x05]);
    // Too many keys: nothing can be told apart.
    let rollover = KeyboardReport::parse(&[0, 0, 1, 1, 1, 1, 1, 1]).unwrap();
    assert_eq!(rollover.pressed_since(&idle).len(), 0);
    assert_eq!(KeyboardReport::parse(&[0; 4]), Err(DescriptorError::Truncated));
}

#[test]
fn keys_map_to_us_layout_characters() {
    assert_eq!(key_to_char(0x04, false), Some('a'));
    assert_eq!(key_to_char(0x1D, true), Some('Z'));
    assert_eq!(key_to_char(0x1E, false), Some('1'));
    assert_eq!(key_to_char(0x1F, true), Some('@'));
    assert_eq!(key_to_char(0x27, false), Some('0'));
    assert_eq!(key_to_char(0x28, false), Some('\n'));
    assert_eq!(key_to_char(0x2C, true), Some(' '));
    assert_eq!(key_to_char(0x2D, true), Some('_'));
    assert_eq!(key_to_char(0x38, false), Some('/'));
    assert_eq!(key_to_char(0x38, true), Some('?'));
    assert_eq!(key_to_char(0x3A, false), None); // F1
}

#[test]
fn port_status_bits_are_told_apart() {
    assert!(PortStatus(1 << 3).overcurrent());
    assert!(!PortStatus(!(1 << 3)).overcurrent());
    assert!(PortStatus(1 << 4).resetting());
    assert_eq!(PortFeature::enable_change(), PortFeature(17));
}
