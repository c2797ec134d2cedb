use rustypi::mailbox::tags::{
    self, GetArmMemory, GetBoardRevision, GetFirmwareRevision, GetTemperature, SensorId,
};
use rustypi::mailbox::{
    query, Batch, BusAddress, MailboxError, Message, Tag, Transport, END_TAG, REQUEST, RESPONSE_OK,
    TAG_HEADER_WORDS, TAG_RESPONSE,
};
use std::cell::RefCell;

/// Answers each tag with `respond(id, request value words)`, or leaves it unanswered on
/// `None`, like the firmware. Remembers the last message it was sent.
type Respond = Box<dyn Fn(u32, &[u32]) -> Option<Vec<u32>>>;

struct FakeFirmware {
    respond: Respond,
    last: RefCell<Vec<u32>>,
}

impl FakeFirmware {
    fn new(respond: impl Fn(u32, &[u32]) -> Option<Vec<u32>> + 'static) -> Self {
        FakeFirmware { respond: Box::new(respond), last: RefCell::new(Vec::new()) }
    }
}

impl Transport for FakeFirmware {
    fn call(&self, msg: &mut Message) {
        let buf = msg.words().to_vec();
        let words = buf[0] as usize / 4;
        *self.last.borrow_mut() = buf[..words].to_vec();
        assert_eq!(buf[1], REQUEST);
        assert_eq!(buf[words - 1], END_TAG);
        let mut i = 2;
        while buf[i] != END_TAG {
            let (id, capacity) = (buf[i], buf[i + 1] as usize / 4);
            assert_eq!(buf[i + 2], REQUEST);
            let value = i + TAG_HEADER_WORDS;
            if let Some(response) = (self.respond)(id, &buf[value..value + capacity]) {
                for (k, word) in response.iter().take(capacity).enumerate() {
                    msg.set_word(value + k, *word);
                }
                msg.set_word(i + 2, TAG_RESPONSE | (response.len() * 4) as u32);
            }
            i = value + capacity;
        }
        msg.set_word(1, RESPONSE_OK);
    }
}

fn board() -> FakeFirmware {
    FakeFirmware::new(|id, request| match id {
        GetBoardRevision::ID => Some(vec![0xa020d3]),
        GetFirmwareRevision::ID => Some(vec![1733399223]),
        GetArmMemory::ID => Some(vec![0, 948 << 20]),
        GetTemperature::ID => Some(vec![request[0], 37_000]),
        _ => None,
    })
}

#[test]
fn encodes_a_batch_and_decodes_each_reply() {
    let firmware = board();
    let mut batch = Batch::new();
    let revision = batch.add::<GetBoardRevision>(());
    let memory = batch.add::<GetArmMemory>(());
    let temperature = batch.add::<GetTemperature>(SensorId(7));
    let replies = batch.send(&firmware).unwrap();

    assert_eq!(*firmware.last.borrow(), [
        17 * 4, REQUEST,
        GetBoardRevision::ID, 4, REQUEST, 0,
        GetArmMemory::ID, 8, REQUEST, 0, 0,
        // The value buffer fits the larger of request and response.
        GetTemperature::ID, 8, REQUEST, 7, 0,
        END_TAG,
    ]);
    assert_eq!(replies.get(revision).unwrap(), 0xa020d3);
    assert_eq!(replies.get(memory).unwrap().size, 948 << 20);
    let temperature = replies.get(temperature).unwrap();
    assert_eq!((temperature.id.0, temperature.millidegrees), (7, 37_000));
}

#[test]
fn query_sends_a_single_tag() {
    assert_eq!(query::<GetFirmwareRevision, _>(&board(), ()).unwrap(), 1733399223);
}

#[test]
fn reports_unanswered_truncated_and_short_responses() {
    let silent = FakeFirmware::new(|_, _| None);
    assert!(matches!(
        query::<GetBoardRevision, _>(&silent, ()),
        Err(MailboxError::Unanswered { tag: GetBoardRevision::ID }),
    ));

    let chatty = FakeFirmware::new(|_, _| Some(vec![1, 2, 3]));
    assert!(matches!(
        query::<GetBoardRevision, _>(&chatty, ()),
        Err(MailboxError::Truncated { needed: 12, capacity: 4, .. }),
    ));

    let terse = FakeFirmware::new(|_, _| Some(vec![]));
    assert!(matches!(
        query::<GetArmMemory, _>(&terse, ()),
        Err(MailboxError::ShortResponse { len: 0, expected: 8, .. }),
    ));
}

#[test]
fn firmware_rejecting_the_message_is_an_error() {
    struct Rejecting;
    impl Transport for Rejecting {
        fn call(&self, msg: &mut Message) {
            msg.set_word(1, 0x8000_0001);
        }
    }
    assert!(matches!(query::<GetBoardRevision, _>(&Rejecting, ()), Err(MailboxError::Firmware)));
}

#[test]
fn handles_from_another_batch_are_caught() {
    let firmware = board();
    let mut first = Batch::new();
    let _ = first.add::<GetBoardRevision>(());
    let first = first.send(&firmware).unwrap();

    let mut second = Batch::new();
    let _ = second.add::<GetArmMemory>(());
    let temperature = second.add::<GetTemperature>(SensorId::soc());
    let _ = second.send(&firmware).unwrap();

    assert!(matches!(first.get(temperature), Err(MailboxError::WrongBatch { .. })));
}

#[test]
fn overfull_batches_fail_to_send() {
    let mut batch = Batch::new();
    for _ in 0..60 {
        let _ = batch.add::<GetArmMemory>(());
    }
    assert!(matches!(batch.send(&board()), Err(MailboxError::BatchFull)));
}

#[test]
fn bus_addresses_drop_their_cache_alias() {
    assert_eq!(BusAddress(0xC3C0_0000).to_arm(), 0x03C0_0000);
    assert_eq!(BusAddress(0x3C00_0000).to_arm(), 0x3C00_0000);
}

#[test]
fn arm_addresses_get_the_uncached_alias_for_dma() {
    assert_eq!(BusAddress::from_arm(0x0010_0040), BusAddress(0xC010_0040));
    assert_eq!(BusAddress::from_arm(0x0010_0040).to_arm(), 0x0010_0040);
}

#[test]
fn power_states_read_both_ways() {
    let request = tags::PowerState::on(tags::DeviceId::usb_hcd());
    assert_eq!((request.device.0, request.state), (3, 0b11));
    assert!(tags::PowerState { device: tags::DeviceId::usb_hcd(), state: 1 }.is_on());
    assert!(!tags::PowerState { device: tags::DeviceId(99), state: 0b10 }.is_on());
    assert!(!tags::PowerState { device: tags::DeviceId::usb_hcd(), state: 0 }.is_on());
}

#[test]
fn mac_addresses_fill_two_words() {
    assert_eq!(std::mem::size_of::<tags::MacAddress>(), 8);
}

/// A tag with two words either way.
struct Pair;

impl Tag for Pair {
    const ID: u32 = 0x0003_8041;
    type Request = [u32; 2];
    type Response = [u32; 2];
}

#[test]
fn word_arrays_go_both_ways() {
    let firmware = FakeFirmware::new(|id, request| (id == Pair::ID).then(|| vec![request[1], request[0] + 1]));
    assert_eq!(query::<Pair, _>(&firmware, [10, 20]).unwrap(), [20, 11]);
}

#[test]
fn mailbox_errors_are_shown_in_words() {
    let shown = [
        (MailboxError::Firmware, "firmware rejected the message"),
        (MailboxError::Unanswered { tag: 0x10002 }, "tag 0x10002 not answered"),
        (
            MailboxError::Truncated { tag: 0xAB, needed: 12, capacity: 8 },
            "tag 0xab response needs 12 bytes, room for 8",
        ),
        (
            MailboxError::ShortResponse { tag: 0, len: 0, expected: 4 },
            "tag 0x0 response is 0 bytes, expected 4",
        ),
        (MailboxError::BatchFull, "too many tags for one message"),
        (MailboxError::WrongBatch { tag: 1 }, "tag 0x1 handle is from another batch"),
    ];
    for (error, words) in shown {
        assert_eq!(error.to_string(), words);
    }
}

#[test]
fn arm_addresses_come_back() {
    for addr in [0, 0x8_0000, 0x3FFF_FFFF] {
        assert_eq!(BusAddress::from_arm(addr).to_arm(), addr);
    }
    assert_eq!(BusAddress::from_arm(0x1000).0, 0xC000_1000);
}
