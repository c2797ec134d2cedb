//! What servers send, spelled out byte by byte, and what is made of it: DNS answers and DHCP
//! replies.

use super::dhcp;
use super::dns;
use super::interface;
use super::interface::{ConfigModel, DhcpModel, InterfaceModel};
use super::ipv4;
use super::udp;
use super::wire;
use crate::bytes;
use crate::text;
use vstd::prelude::*;

verus! {

/// How a name in a DNS message ends: at the root, or with a pointer to where the rest of it
/// stands in the message.
pub enum NameEnd {
    Root,
    Pointer(u16),
}

/// A name as a DNS message has it.
pub struct NameModel {
    pub labels: Seq<Seq<u8>>,
    pub end: NameEnd,
}

/// Labels as they stand in a message: each with its length before it.
pub open spec fn spelled_labels(labels: Seq<Seq<u8>>) -> Seq<u8>
    decreases labels.len(),
{
    if labels.len() == 0 {
        Seq::empty()
    } else {
        (seq![labels[0].len() as u8] + labels[0]) + spelled_labels(labels.drop_first())
    }
}

impl NameModel {
    /// A name that a message can have: labels of 1 to 63 bytes, and a pointer of 14 bits.
    pub open spec fn valid(self) -> bool {
        &&& self.labels.len() <= 252
        &&& forall|i: int| 0 <= i < self.labels.len() ==> 1 <= #[trigger] self.labels[i].len() <= 63
        &&& self.end matches NameEnd::Pointer(place) ==> place < 0x4000
    }

    pub open spec fn ending(self) -> Seq<u8> {
        match self.end {
            NameEnd::Root => seq![0u8],
            NameEnd::Pointer(place) => seq![(192 + place / 256) as u8, (place % 256) as u8],
        }
    }

    pub open spec fn spelled(self) -> Seq<u8> {
        spelled_labels(self.labels) + self.ending()
    }
}

/// A question: about which name, and records of which type and class.
pub struct QuestionModel {
    pub name: NameModel,
    pub kind: u16,
    pub class: u16,
}

impl QuestionModel {
    pub open spec fn spelled(self) -> Seq<u8> {
        self.name.spelled() + (bytes::be16_bytes(self.kind) + bytes::be16_bytes(self.class))
    }
}

/// A record: the name it is about, its type and class, how long it holds, and its data.
pub struct RecordModel {
    pub name: NameModel,
    pub kind: u16,
    pub class: u16,
    pub seconds: u32,
    pub data: Seq<u8>,
}

impl RecordModel {
    pub open spec fn valid(self) -> bool {
        self.name.valid() && self.data.len() <= 0xFFFF
    }

    /// Whether it is an address: of type 1 (A), class 1 (the Internet), and 4 bytes long.
    pub open spec fn is_address(self) -> bool {
        self.kind == 1 && self.class == 1 && self.data.len() == 4
    }

    /// What stands between its name and its data.
    pub open spec fn fields(self) -> Seq<u8> {
        bytes::be16_bytes(self.kind) + (bytes::be16_bytes(self.class) + (bytes::be32_bytes(
            self.seconds,
        ) + bytes::be16_bytes(self.data.len() as u16)))
    }

    pub open spec fn spelled(self) -> Seq<u8> {
        self.name.spelled() + (self.fields() + self.data)
    }
}

pub open spec fn spelled_questions(questions: Seq<QuestionModel>) -> Seq<u8>
    decreases questions.len(),
{
    if questions.len() == 0 {
        Seq::empty()
    } else {
        questions[0].spelled() + spelled_questions(questions.drop_first())
    }
}

pub open spec fn spelled_records(records: Seq<RecordModel>) -> Seq<u8>
    decreases records.len(),
{
    if records.len() == 0 {
        Seq::empty()
    } else {
        records[0].spelled() + spelled_records(records.drop_first())
    }
}

/// The addresses that records tell, in order: the data of those that are addresses.
pub open spec fn told(records: Seq<RecordModel>) -> Seq<Seq<u8>> {
    records.filter(|r: RecordModel| r.is_address()).map_values(|r: RecordModel| r.data)
}

/// A DNS message: its ID and flags, what it asks and answers, and whatever follows (servers may
/// add records about other servers).
pub struct DnsMessage {
    pub id: u16,
    pub flags: u16,
    pub questions: Seq<QuestionModel>,
    pub answers: Seq<RecordModel>,
    pub authorities: u16,
    pub additions: u16,
    pub rest: Seq<u8>,
}

impl DnsMessage {
    pub open spec fn valid(self) -> bool {
        &&& self.questions.len() <= 0xFFFF
        &&& self.answers.len() <= 0xFFFF
        &&& forall|i: int| 0 <= i < self.questions.len() ==> (#[trigger] self.questions[i]).name.valid()
        &&& forall|i: int| 0 <= i < self.answers.len() ==> (#[trigger] self.answers[i]).valid()
    }

    pub open spec fn header(self) -> Seq<u8> {
        bytes::be16_bytes(self.id) + (bytes::be16_bytes(self.flags) + (bytes::be16_bytes(
            self.questions.len() as u16,
        ) + (bytes::be16_bytes(self.answers.len() as u16) + (bytes::be16_bytes(self.authorities)
            + bytes::be16_bytes(self.additions)))))
    }

    pub open spec fn spelled(self) -> Seq<u8> {
        self.header() + (spelled_questions(self.questions) + (spelled_records(self.answers)
            + self.rest))
    }
}

/// A name ends where its spelling does.
proof fn lemma_name(data: Seq<u8>, at: int, name: NameModel, left: nat)
    requires
        name.valid(),
        name.labels.len() < left,
        bytes::stands_at(data, at, name.spelled()),
    ensures
        dns::name_end(data, at, left) == Some(at + name.spelled().len()),
    decreases name.labels.len(),
{
    if name.labels.len() == 0 {
        assert(name.spelled() =~= name.ending());
        bytes::lemma_stands_byte(data, at, name.spelled(), 0);
    } else {
        let label = name.labels[0];
        let rest = NameModel { labels: name.labels.drop_first(), end: name.end };
        let first = seq![label.len() as u8] + label;
        assert(name.spelled() =~= first + rest.spelled());
        bytes::lemma_stands_in_two(data, at, first, rest.spelled());
        bytes::lemma_stands_byte(data, at, first, 0);
        assert forall|i: int| 0 <= i < rest.labels.len() implies 1
            <= #[trigger] rest.labels[i].len() <= 63 by {
            assert(rest.labels[i] == name.labels[i + 1]);
        }
        lemma_name(data, at + first.len(), rest, (left - 1) as nat);
    }
}

proof fn lemma_questions(data: Seq<u8>, at: int, questions: Seq<QuestionModel>)
    requires
        forall|i: int| 0 <= i < questions.len() ==> (#[trigger] questions[i]).name.valid(),
        bytes::stands_at(data, at, spelled_questions(questions)),
    ensures
        dns::questions_end(data, at, questions.len()) == Some(
            at + spelled_questions(questions).len(),
        ),
    decreases questions.len(),
{
    if questions.len() > 0 {
        let question = questions[0];
        let more = questions.drop_first();
        bytes::lemma_stands_in_two(data, at, question.spelled(), spelled_questions(more));
        bytes::lemma_stands_in_two(
            data,
            at,
            question.name.spelled(),
            bytes::be16_bytes(question.kind) + bytes::be16_bytes(question.class),
        );
        lemma_name(data, at, question.name, 253);
        assert forall|i: int| 0 <= i < more.len() implies (#[trigger] more[i]).name.valid() by {
            assert(more[i] == questions[i + 1]);
        }
        lemma_questions(data, at + question.spelled().len(), more);
    }
}

/// What is read of a record where it stands.
#[verifier::rlimit(40)]
#[verifier::spinoff_prover]
proof fn lemma_record(data: Seq<u8>, at: int, record: RecordModel)
    requires
        record.valid(),
        bytes::stands_at(data, at, record.spelled()),
    ensures
        ({
            let end = at + record.name.spelled().len();
            &&& dns::name_end(data, at, 253) == Some(end)
            &&& bytes::be16(data, end) == record.kind
            &&& bytes::be16(data, end + 2) == record.class
            &&& bytes::be16(data, end + 8) == record.data.len()
            &&& end + 10 + record.data.len() == at + record.spelled().len()
            &&& at + record.spelled().len() <= data.len()
            &&& data.subrange(end + 10, end + 10 + record.data.len()) == record.data
        }),
{
    let end = at + record.name.spelled().len();
    let kind = bytes::be16_bytes(record.kind);
    let class = bytes::be16_bytes(record.class);
    let seconds = bytes::be32_bytes(record.seconds);
    let length = bytes::be16_bytes(record.data.len() as u16);
    bytes::lemma_stands_in_two(data, at, record.name.spelled(), record.fields() + record.data);
    lemma_name(data, at, record.name, 253);
    bytes::lemma_stands_in_two(data, end, record.fields(), record.data);
    bytes::lemma_stands_in_two(data, end, kind, class + (seconds + length));
    bytes::lemma_stands_in_two(data, end + 2, class, seconds + length);
    bytes::lemma_stands_in_two(data, end + 4, seconds, length);
    bytes::lemma_stands_words(data, end, record.kind, 0);
    bytes::lemma_stands_words(data, end + 2, record.class, 0);
    bytes::lemma_stands_words(data, end + 8, record.data.len() as u16, 0);
}

/// What the first record tells, and then the others.
proof fn lemma_told(records: Seq<RecordModel>)
    ensures
        records.len() == 0 ==> told(records) == Seq::<Seq<u8>>::empty(),
        records.len() > 0 ==> told(records) == (if records[0].is_address() {
            seq![records[0].data] + told(records.drop_first())
        } else {
            told(records.drop_first())
        }),
{
    let wanted = |r: RecordModel| r.is_address();
    if records.len() == 0 {
        reveal(Seq::filter);
        assert(told(records) =~= Seq::<Seq<u8>>::empty());
    } else {
        let first = seq![records[0]];
        let more = records.drop_first();
        assert(records =~= first + more);
        Seq::filter_distributes_over_add(first, more, wanted);
        assert(first.filter(wanted) =~= (if records[0].is_address() {
            first
        } else {
            Seq::empty()
        })) by {
            reveal(Seq::filter);
            assert(first.drop_last() =~= Seq::<RecordModel>::empty());
            assert(Seq::<RecordModel>::empty().filter(wanted) =~= Seq::<RecordModel>::empty());
        }
        if records[0].is_address() {
            assert(told(records) =~= seq![records[0].data] + told(more));
        } else {
            assert(told(records) =~= told(more));
        }
    }
}

proof fn lemma_records(data: Seq<u8>, at: int, records: Seq<RecordModel>)
    requires
        forall|i: int| 0 <= i < records.len() ==> (#[trigger] records[i]).valid(),
        bytes::stands_at(data, at, spelled_records(records)),
    ensures
        dns::addresses_in(data, at, records.len()) == Some(told(records)),
    decreases records.len(),
{
    lemma_told(records);
    if records.len() > 0 {
        let record = records[0];
        let more = records.drop_first();
        bytes::lemma_stands_in_two(data, at, record.spelled(), spelled_records(more));
        lemma_record(data, at, record);
        assert forall|i: int| 0 <= i < more.len() implies (#[trigger] more[i]).valid() by {
            assert(more[i] == records[i + 1]);
        }
        lemma_records(data, at + record.spelled().len(), more);
    }
}

/// What is read of a message's header.
#[verifier::rlimit(40)]
#[verifier::spinoff_prover]
proof fn lemma_header(message: DnsMessage)
    requires
        message.valid(),
    ensures
        ({
            let data = message.spelled();
            &&& data.len() >= 12
            &&& bytes::be16(data, 0) == message.id
            &&& bytes::be16(data, 2) == message.flags
            &&& bytes::be16(data, 4) == message.questions.len()
            &&& bytes::be16(data, 6) == message.answers.len()
            &&& bytes::stands_at(data, 12, spelled_questions(message.questions))
            &&& bytes::stands_at(
                data,
                12int + spelled_questions(message.questions).len(),
                spelled_records(message.answers),
            )
        }),
{
    let data = message.spelled();
    let id = bytes::be16_bytes(message.id);
    let flags = bytes::be16_bytes(message.flags);
    let questions = bytes::be16_bytes(message.questions.len() as u16);
    let answers = bytes::be16_bytes(message.answers.len() as u16);
    let others = bytes::be16_bytes(message.authorities) + bytes::be16_bytes(message.additions);
    let asked = spelled_questions(message.questions);
    let answered = spelled_records(message.answers);
    assert(data.subrange(0, data.len() as int) =~= data);
    bytes::lemma_stands_in_two(data, 0, message.header(), asked + (answered + message.rest));
    bytes::lemma_stands_in_two(data, 0, id, flags + (questions + (answers + others)));
    bytes::lemma_stands_in_two(data, 2, flags, questions + (answers + others));
    bytes::lemma_stands_in_two(data, 4, questions, answers + others);
    bytes::lemma_stands_in_two(data, 6, answers, others);
    bytes::lemma_stands_in_two(data, 12, asked, answered + message.rest);
    bytes::lemma_stands_in_two(data, 12int + asked.len(), answered, message.rest);
    bytes::lemma_stands_words(data, 0, message.id, 0);
    bytes::lemma_stands_words(data, 2, message.flags, 0);
    bytes::lemma_stands_words(data, 4, message.questions.len() as u16, 0);
    bytes::lemma_stands_words(data, 6, message.answers.len() as u16, 0);
}

/// An answer gives exactly the addresses of its records of type A, in order: whatever it was
/// asked, whatever names the records are about (spelled out or pointed to), whatever other
/// records stand among them and whatever follows. It is an answer if it has our ID and the
/// response bit; a response code other than 0 says that there is no such name, or what failed.
pub proof fn answers_give_their_addresses(message: DnsMessage, id: u16)
    requires
        message.valid(),
    ensures
        dns::parsed(message.spelled(), id) == (if message.id != id || message.flags < 0x8000 {
            None
        } else if message.flags % 16 == 0 {
            Some(dns::AnswerModel::Addresses(told(message.answers)))
        } else if message.flags % 16 == 3 {
            Some(dns::AnswerModel::NoSuchName)
        } else {
            Some(dns::AnswerModel::Failed((message.flags % 16) as u8))
        }),
{
    let data = message.spelled();
    lemma_header(message);
    lemma_questions(data, 12, message.questions);
    lemma_records(
        data,
        12int + spelled_questions(message.questions).len(),
        message.answers,
    );
}

/// When all records of an answer are addresses, there are as many addresses, and each is what
/// its record says.
pub proof fn all_addresses_are_told(records: Seq<RecordModel>)
    requires
        forall|i: int| 0 <= i < records.len() ==> (#[trigger] records[i]).is_address(),
    ensures
        told(records).len() == records.len(),
        forall|i: int| 0 <= i < records.len() ==> #[trigger] told(records)[i] == records[i].data,
    decreases records.len(),
{
    lemma_told(records);
    if records.len() > 0 {
        let more = records.drop_first();
        assert forall|i: int| 0 <= i < more.len() implies (#[trigger] more[i]).is_address() by {
            assert(more[i] == records[i + 1]);
        }
        all_addresses_are_told(more);
        assert forall|i: int| 0 <= i < records.len() implies #[trigger] told(records)[i]
            == records[i].data by {
            if i > 0 {
                assert(told(records)[i] == told(more)[i - 1]);
                assert(more[i - 1] == records[i]);
            }
        }
    }
}

/// An option of a DHCP message as it stands there: a pad is just its code, the others have their
/// length and value behind it.
pub open spec fn spelled_option(option: dhcp::OptionModel) -> Seq<u8> {
    if option.code == 0 {
        seq![0u8]
    } else {
        seq![option.code, option.value.len() as u8] + option.value
    }
}

pub open spec fn spelled_options(options: Seq<dhcp::OptionModel>) -> Seq<u8>
    decreases options.len(),
{
    if options.len() == 0 {
        Seq::empty()
    } else {
        spelled_option(options[0]) + spelled_options(options.drop_first())
    }
}

/// A DHCP message: its direction (2 from a server), the transaction, the address given, whom it
/// is for, its options, and whatever stands in the fields that don't matter.
pub struct DhcpMessage {
    pub op: u8,
    /// Hardware type, address length, hops.
    pub hardware: Seq<u8>,
    pub xid: u32,
    /// Seconds, flags, the client's address so far.
    pub since: Seq<u8>,
    pub address: Seq<u8>,
    /// The next server's and the relay's address.
    pub through: Seq<u8>,
    pub mac: Seq<u8>,
    /// The rest of the hardware address, the server's name, the boot file.
    pub names: Seq<u8>,
    pub options: Seq<dhcp::OptionModel>,
    /// Past the end of the options.
    pub rest: Seq<u8>,
}

impl DhcpMessage {
    pub open spec fn valid(self) -> bool {
        &&& self.hardware.len() == 3
        &&& self.since.len() == 8
        &&& self.address.len() == 4
        &&& self.through.len() == 8
        &&& self.mac.len() == 6
        &&& self.names.len() == 202
        &&& forall|i: int|
            0 <= i < self.options.len() ==> (#[trigger] self.options[i]).code != 255
                && self.options[i].value.len() <= 255
    }

    pub open spec fn spelled(self) -> Seq<u8> {
        (seq![self.op] + self.hardware) + (bytes::be32_bytes(self.xid) + (self.since + (self.address
            + (self.through + (self.mac + (self.names + (seq![99u8, 130, 83, 99] + (
        spelled_options(self.options) + (seq![255u8] + self.rest)))))))))
    }

    /// Whether option number `i` is the last about `code`.
    pub open spec fn says(self, code: u8, i: int) -> bool {
        &&& 0 <= i < self.options.len()
        &&& self.options[i].code == code
        &&& forall|j: int| i < j < self.options.len() ==> (#[trigger] self.options[j]).code != code
    }

    /// Whether no option is about `code`.
    pub open spec fn is_silent_on(self, code: u8) -> bool {
        forall|i: int| 0 <= i < self.options.len() ==> (#[trigger] self.options[i]).code != code
    }

    /// Whether `address` is what the message says about `code`: the first address of the last
    /// option about it, or none if there is no such option.
    pub open spec fn tells_address(self, code: u8, address: Option<Seq<u8>>) -> bool {
        &&& self.is_silent_on(code) ==> address is None
        &&& forall|i: int| #[trigger]
            self.says(code, i) ==> address == (if self.options[i].value.len() >= 4 {
                Some(self.options[i].value.subrange(0, 4))
            } else {
                None::<Seq<u8>>
            })
    }

    /// Whether `secs` is how long the message says the lease is.
    pub open spec fn tells_lease(self, secs: Option<u32>) -> bool {
        &&& self.is_silent_on(51) ==> secs is None
        &&& forall|i: int| #[trigger]
            self.says(51, i) && self.options[i].value.len() == 4 ==> secs == Some(
                bytes::be32(self.options[i].value, 0),
            )
    }

    /// Whether it is a message of kind number `kind`.
    pub open spec fn is_kind(self, kind: u8) -> bool {
        exists|i: int| #[trigger] self.says(53, i) && self.options[i].value == seq![kind]
    }
}

/// The options without pads.
spec fn unpadded(options: Seq<dhcp::OptionModel>) -> Seq<dhcp::OptionModel>
    decreases options.len(),
{
    if options.len() == 0 {
        Seq::empty()
    } else if options[0].code == 0 {
        unpadded(options.drop_first())
    } else {
        seq![options[0]] + unpadded(options.drop_first())
    }
}

proof fn lemma_options(data: Seq<u8>, at: int, options: Seq<dhcp::OptionModel>)
    requires
        forall|i: int|
            0 <= i < options.len() ==> (#[trigger] options[i]).code != 255
                && options[i].value.len() <= 255,
        bytes::stands_at(data, at, spelled_options(options) + seq![255u8]),
    ensures
        dhcp::options_from(data, at) == Some(unpadded(options)),
    decreases options.len(),
{
    let end = seq![255u8];
    if options.len() == 0 {
        bytes::lemma_stands_in_two(data, at, spelled_options(options), end);
        bytes::lemma_stands_byte(data, at, end, 0);
    } else {
        let option = options[0];
        let more = options.drop_first();
        let first = spelled_option(option);
        assert(spelled_options(options) + end =~= first + (spelled_options(more) + end));
        bytes::lemma_stands_in_two(data, at, first, spelled_options(more) + end);
        bytes::lemma_stands_byte(data, at, first, 0);
        assert forall|i: int| 0 <= i < more.len() implies (#[trigger] more[i]).code != 255
            && more[i].value.len() <= 255 by {
            assert(more[i] == options[i + 1]);
        }
        lemma_options(data, at + first.len(), more);
        if option.code != 0 {
            let start = seq![option.code, option.value.len() as u8];
            bytes::lemma_stands_byte(data, at, first, 1);
            bytes::lemma_stands_in_two(data, at, start, option.value);
        }
    }
}

/// What the options without pads say last is what all of them do.
#[verifier::rlimit(40)]
#[verifier::spinoff_prover]
proof fn lemma_last_value(options: Seq<dhcp::OptionModel>, code: u8, length: Option<nat>)
    requires
        code != 0,
    ensures
        (forall|i: int| 0 <= i < options.len() ==> (#[trigger] options[i]).code != code)
            ==> dhcp::last_value(unpadded(options), code, length) is None,
        forall|i: int|
            0 <= i < options.len() && (#[trigger] options[i]).code == code && (forall|j: int|
                i < j < options.len() ==> (#[trigger] options[j]).code != code) && (
            length matches Some(n) ==> options[i].value.len() == n) ==> dhcp::last_value(
                unpadded(options),
                code,
                length,
            ) == Some(options[i].value),
    decreases options.len(),
{
    if options.len() > 0 {
        let more = options.drop_first();
        let rest = unpadded(more);
        lemma_last_value(more, code, length);
        if options[0].code != 0 {
            lemma_last_of_two(seq![options[0]], rest, code, length);
            lemma_last_of_two(Seq::empty(), seq![options[0]], code, length);
            assert(Seq::<dhcp::OptionModel>::empty() + seq![options[0]] =~= seq![options[0]]);
            assert(seq![options[0]].drop_last() =~= Seq::<dhcp::OptionModel>::empty());
            reveal_with_fuel(dhcp::last_value, 2);
        }
        assert forall|k: int| 0 <= k < more.len() implies #[trigger] more[k] == options[k + 1] by {}
        if forall|i: int| 0 <= i < options.len() ==> (#[trigger] options[i]).code != code {
            assert(dhcp::last_value(rest, code, length) is None);
        }
        assert forall|i: int|
            0 <= i < options.len() && (#[trigger] options[i]).code == code && (forall|j: int|
                i < j < options.len() ==> (#[trigger] options[j]).code != code) && (
            length matches Some(n) ==> options[i].value.len() == n) implies dhcp::last_value(
            unpadded(options),
            code,
            length,
        ) == Some(options[i].value) by {
            if i > 0 {
                assert(more[i - 1] == options[i]);
                assert forall|j: int| i - 1 < j < more.len() implies (#[trigger] more[j]).code
                    != code by {
                    assert(more[j] == options[j + 1]);
                }
                assert(dhcp::last_value(rest, code, length) == Some(options[i].value));
            } else {
                assert forall|j: int| 0 <= j < more.len() implies (#[trigger] more[j]).code
                    != code by {
                    assert(more[j] == options[j + 1]);
                }
                assert(dhcp::last_value(rest, code, length) is None);
            }
        }
    }
}

/// What is said last in two lists: what the second says, or else what the first does.
proof fn lemma_last_of_two(
    a: Seq<dhcp::OptionModel>,
    b: Seq<dhcp::OptionModel>,
    code: u8,
    length: Option<nat>,
)
    ensures
        dhcp::last_value(a + b, code, length) == (match dhcp::last_value(b, code, length) {
            Some(value) => Some(value),
            None => dhcp::last_value(a, code, length),
        }),
    decreases b.len(),
{
    if b.len() == 0 {
        assert(a + b =~= a);
    } else {
        assert((a + b).last() == b.last());
        assert((a + b).drop_last() =~= a + b.drop_last());
        lemma_last_of_two(a, b.drop_last(), code, length);
    }
}

/// What is read of a message's fixed fields.
#[verifier::rlimit(40)]
#[verifier::spinoff_prover]
proof fn lemma_fixed(message: DhcpMessage)
    requires
        message.valid(),
    ensures
        ({
            let data = message.spelled();
            &&& data.len() >= 240
            &&& data[0] == message.op
            &&& data.subrange(4, 8) == bytes::be32_bytes(message.xid)
            &&& data.subrange(16, 20) == message.address
            &&& data.subrange(28, 34) == message.mac
            &&& data.subrange(236, 240) == seq![99u8, 130, 83, 99]
            &&& bytes::stands_at(data, 240, spelled_options(message.options) + seq![255u8])
        }),
{
    let data = message.spelled();
    let end = seq![255u8];
    let options = spelled_options(message.options);
    let cookie = seq![99u8, 130, 83, 99];
    let xid = bytes::be32_bytes(message.xid);
    let start = seq![message.op] + message.hardware;
    assert(data.subrange(0, data.len() as int) =~= data);
    let a = options + (end + message.rest);
    let b = message.names + (cookie + a);
    let c = message.through + (message.mac + b);
    bytes::lemma_stands_in_two(data, 0, start, xid + (message.since + (message.address + c)));
    bytes::lemma_stands_byte(data, 0, start, 0);
    bytes::lemma_stands_in_two(data, 4, xid, message.since + (message.address + c));
    bytes::lemma_stands_in_two(data, 8, message.since, message.address + c);
    bytes::lemma_stands_in_two(data, 16, message.address, c);
    bytes::lemma_stands_in_two(data, 20, message.through, message.mac + b);
    bytes::lemma_stands_in_two(data, 28, message.mac, b);
    bytes::lemma_stands_in_two(data, 34, message.names, cookie + a);
    bytes::lemma_stands_in_two(data, 236, cookie, a);
    assert(a =~= (options + end) + message.rest);
    bytes::lemma_stands_in_two(data, 240, options + end, message.rest);
}

/// A server's message says what its fields and options do: the address given; the server (54),
/// the netmask (1), the router (3) and the name server (6), each the first address of its
/// option; and how long the lease is (51). It is an offer, an acknowledgement or a refusal by
/// the number in its message type (53). A message of another transaction, for another
/// machine or from another client says nothing.
#[verifier::rlimit(40)]
#[verifier::spinoff_prover]
pub proof fn replies_say_what_their_options_do(message: DhcpMessage, xid: u32, mac: Seq<u8>)
    requires
        message.valid(),
    ensures
        ({
            let parsed = dhcp::parsed_reply(message.spelled(), xid, mac);
            &&& (message.op != 2 || message.xid != xid || message.mac != mac
                || message.is_silent_on(53)) ==> parsed is None
            &&& (message.op == 2 && message.xid == xid && message.mac == mac && (message.is_kind(2)
                || message.is_kind(5) || message.is_kind(6))) ==> {
                &&& parsed is Some
                &&& message.is_kind(2) ==> parsed->0.kind == dhcp::Kind::Offer
                &&& message.is_kind(5) ==> parsed->0.kind == dhcp::Kind::Ack
                &&& message.is_kind(6) ==> parsed->0.kind == dhcp::Kind::Nak
                &&& parsed->0.address == message.address
                &&& message.tells_address(54, parsed->0.server)
                &&& message.tells_address(1, parsed->0.netmask)
                &&& message.tells_address(3, parsed->0.router)
                &&& message.tells_address(6, parsed->0.dns)
                &&& message.tells_lease(parsed->0.lease_secs)
            }
        }),
{
    let data = message.spelled();
    let options = unpadded(message.options);
    lemma_fixed(message);
    lemma_options(data, 240, message.options);
    lemma_last_value(message.options, 53, Some(1));
    lemma_last_value(message.options, 51, Some(4));
    lemma_last_value(message.options, 54, None);
    lemma_last_value(message.options, 1, None);
    lemma_last_value(message.options, 3, None);
    lemma_last_value(message.options, 6, None);
    if message.xid != xid {
        bytes::lemma_words_round_trip(0, message.xid);
        bytes::lemma_words_round_trip(0, xid);
        assert(bytes::be32_bytes(message.xid) != bytes::be32_bytes(xid));
    }
    assert(dhcp::magic() == seq![99u8, 130, 83, 99]);
    let parsed = dhcp::parsed_reply(data, xid, mac);
    if message.op == 2 && message.xid == xid && message.mac == mac && (message.is_kind(2)
        || message.is_kind(5) || message.is_kind(6)) {
        assert(parsed == Some(
            dhcp::ReplyModel {
                kind: dhcp::kind_option(options)->0,
                address: message.address,
                server: dhcp::address_option(options, 54),
                netmask: dhcp::address_option(options, 1),
                router: dhcp::address_option(options, 3),
                dns: dhcp::address_option(options, 6),
                lease_secs: dhcp::lease_option(options),
            },
        ));
    }
}

/// Once a REQUEST is acknowledged, every field of the configuration is what the ACK says: the
/// address given, the netmask (255.255.255.0 if it says none), the router, the name server and
/// how long the lease is (3600 seconds if it doesn't say). The lease is renewed halfway
/// through, but not within a minute, and with the server that gave it.
#[verifier::rlimit(40)]
#[verifier::spinoff_prover]
pub proof fn acknowledgements_configure(m: InterfaceModel, message: DhcpMessage, now: u64)
    requires
        message.valid(),
        message.op == 2,
        message.mac == m.mac,
        message.is_kind(5),
        m.dhcp matches DhcpModel::Requesting { xid, .. } && xid == message.xid,
        now <= interface::LATEST,
    ensures
        ({
            let (after, sent) = m.got_dhcp(message.spelled(), now);
            let config = after.config->0;
            let secs = config.lease_secs;
            &&& sent == Seq::<Seq<u8>>::empty()
            &&& after.config is Some
            &&& config.address == message.address
            &&& message.tells_address(3, config.gateway)
            &&& message.tells_address(6, config.dns)
            &&& if message.is_silent_on(1) {
                config.netmask == seq![255u8, 255, 255, 0]
            } else {
                forall|i: int| #[trigger]
                    message.says(1, i) && message.options[i].value.len() >= 4 ==> config.netmask
                        == message.options[i].value.subrange(0, 4)
            }
            &&& if message.is_silent_on(51) {
                secs == 3600
            } else {
                forall|i: int| #[trigger]
                    message.says(51, i) && message.options[i].value.len() == 4 ==> secs
                        == bytes::be32(message.options[i].value, 0)
            }
            &&& after.events == (if m.config == Some(config) {
                m.events
            } else {
                m.events.push(interface::EventModel::Configured(config))
            })
            &&& after.dhcp matches DhcpModel::Bound { server, renew_at } && {
                &&& secs >= 120 ==> renew_at == now + secs * 500_000
                &&& secs < 120 ==> renew_at == now + 60_000_000
                &&& message.is_silent_on(54) ==> server == m.dhcp->Requesting_server
                &&& forall|i: int| #[trigger]
                    message.says(54, i) && message.options[i].value.len() >= 4 ==> server
                        == message.options[i].value.subrange(0, 4)
            }
            &&& after.mac == m.mac
            &&& after.arp == m.arp
            &&& after.waiting == m.waiting
            &&& after.pings == m.pings
        }),
{
    replies_say_what_their_options_do(message, message.xid, m.mac);
}

/// What is sent to DHCP servers: to everyone, from no address yet, from port 68 to port 67.
pub proof fn servers_are_asked_by_broadcast(mac: Seq<u8>, id: u16, message: Seq<u8>)
    ensures
        ({
            let nobody = seq![0u8, 0, 0, 0];
            let everyone = seq![255u8, 255, 255, 255];
            interface::dhcp_frame(mac, id, message) == wire::wire_frame(
                seq![255u8, 255, 255, 255, 255, 255],
                mac,
                seq![8u8, 0],
                ipv4::built(
                    nobody,
                    everyone,
                    17,
                    id,
                    udp::built(nobody, 68, everyone, 67, message),
                ),
            )
        }),
{
    let nobody = seq![0u8, 0, 0, 0];
    let everyone = seq![255u8, 255, 255, 255];
    wire::frames_are_sent(
        seq![255u8, 255, 255, 255, 255, 255],
        mac,
        0x0800,
        ipv4::built(nobody, everyone, 17, id, udp::built(nobody, 68, everyone, 67, message)),
    );
}

/// The messages to DHCP servers, byte by byte: a boot request over Ethernet, whose answer is to be
/// broadcast; its kind (1 asks for any address, 3 for the one offered); which address
/// of which server is asked for; that the netmask, the router and the name server are wanted; and
/// zeros up to 300 bytes.
#[verifier::rlimit(40)]
#[verifier::spinoff_prover]
pub proof fn servers_are_asked(mac: Seq<u8>, xid: u32, address: Seq<u8>, server: Seq<u8>)
    requires
        mac.len() == 6,
        address.len() == 4,
        server.len() == 4,
    ensures
        ({
            let fixed = seq![1u8, 1, 6, 0] + bytes::be32_bytes(xid) + seq![0u8, 0, 128, 0]
                + bytes::zeros(16) + mac + bytes::zeros(202) + seq![99u8, 130, 83, 99];
            let wanted = seq![55u8, 3, 1, 3, 6, 255];
            &&& dhcp::message(mac, xid, dhcp::Kind::Discover, Seq::empty()) == fixed + seq![
                53u8,
                1,
                1,
            ] + wanted + bytes::zeros(51)
            &&& dhcp::message(
                mac,
                xid,
                dhcp::Kind::Request,
                dhcp::request_options(address, server),
            ) == fixed + seq![53u8, 1, 3, 50, 4] + address + seq![54u8, 4] + server + wanted
                + bytes::zeros(39)
        }),
{
    let fixed = seq![1u8, 1, 6, 0] + bytes::be32_bytes(xid) + seq![0u8, 0, 128, 0] + bytes::zeros(
        16,
    ) + mac + bytes::zeros(202) + seq![99u8, 130, 83, 99];
    let wanted = seq![55u8, 3, 1, 3, 6, 255];
    assert(dhcp::message(mac, xid, dhcp::Kind::Discover, Seq::empty()) =~= fixed + seq![53u8, 1, 1]
        + wanted + bytes::zeros(51));
    assert(dhcp::message(mac, xid, dhcp::Kind::Request, dhcp::request_options(address, server))
        =~= fixed + seq![53u8, 1, 3, 50, 4] + address + seq![54u8, 4] + server + wanted
        + bytes::zeros(39));
}

/// While an address is looked for, the first offer that names its server is taken: that address is
/// asked of that server, in the same transaction, and asked again in 4 seconds. Anything
/// else is passed over, and so is everything once an address is there.
#[verifier::rlimit(40)]
#[verifier::spinoff_prover]
pub proof fn offers_are_taken(m: InterfaceModel, message: DhcpMessage, i: int, now: u64)
    requires
        message.valid(),
        message.op == 2,
        message.mac == m.mac,
        message.says(54, i),
        message.options[i].value.len() >= 4,
        now <= interface::LATEST,
    ensures
        ({
            let (after, sent) = m.got_dhcp(message.spelled(), now);
            let server = message.options[i].value.subrange(0, 4);
            let id = interface::next_id(m.last_id);
            let request = dhcp::message(
                m.mac,
                message.xid,
                dhcp::Kind::Request,
                dhcp::request_options(message.address, server),
            );
            &&& (m.dhcp matches DhcpModel::Discovering { xid, .. } && xid == message.xid
                && message.is_kind(2)) ==> {
                &&& sent == seq![interface::dhcp_frame(m.mac, id, request)]
                &&& after == InterfaceModel {
                    dhcp: DhcpModel::Requesting {
                        xid: message.xid,
                        offered: message.address,
                        server,
                        next_try: (now + 4_000_000) as u64,
                        tries: 1,
                    },
                    last_id: id,
                    ..m
                }
            }
            &&& (m.dhcp matches DhcpModel::Discovering { xid, .. } && (xid != message.xid
                || message.is_kind(5) || message.is_kind(6))) ==> (after, sent) == (
                m,
                Seq::<Seq<u8>>::empty(),
            )
            &&& m.dhcp is Bound ==> (after, sent) == (m, Seq::<Seq<u8>>::empty())
            &&& (m.dhcp matches DhcpModel::Requesting { xid, .. } && (xid != message.xid
                || message.is_kind(2))) ==> (after, sent) == (m, Seq::<Seq<u8>>::empty())
        }),
{
    if let DhcpModel::Discovering { xid, next_try } = m.dhcp {
        replies_say_what_their_options_do(message, xid, m.mac);
    }
    if let DhcpModel::Requesting { xid, offered, server, next_try, tries } = m.dhcp {
        replies_say_what_their_options_do(message, xid, m.mac);
    }
}

/// DHCP's timers: an unanswered DISCOVER goes again every 4 seconds; so does an unanswered
/// REQUEST, up to three times in all, and then a DISCOVER in a new transaction; and when the
/// lease is to be renewed, the address there is is asked of its server in a new transaction.
/// Before its time nothing is sent.
pub proof fn dhcp_asks_again(m: InterfaceModel, config: ConfigModel, now: u64)
    requires
        m.config == Some(config),
        now <= interface::LATEST,
    ensures
        ({
            let (after, sent) = m.dhcp_polled(now);
            let id = interface::next_id(m.last_id);
            let fresh = interface::next_random(m.random);
            let again = (now + 4_000_000) as u64;
            match m.dhcp {
                DhcpModel::Discovering { xid, next_try } => if now < next_try {
                    (after, sent) == (m, Seq::<Seq<u8>>::empty())
                } else {
                    &&& sent == seq![
                        interface::dhcp_frame(
                            m.mac,
                            id,
                            dhcp::message(m.mac, xid, dhcp::Kind::Discover, Seq::empty()),
                        ),
                    ]
                    &&& after.dhcp == (DhcpModel::Discovering { xid, next_try: again })
                },
                DhcpModel::Requesting { xid, offered, server, next_try, tries } => if now
                    < next_try {
                    (after, sent) == (m, Seq::<Seq<u8>>::empty())
                } else if tries < 3 {
                    &&& sent == seq![
                        interface::dhcp_frame(
                            m.mac,
                            id,
                            dhcp::message(
                                m.mac,
                                xid,
                                dhcp::Kind::Request,
                                dhcp::request_options(offered, server),
                            ),
                        ),
                    ]
                    &&& after.dhcp == (DhcpModel::Requesting {
                        xid,
                        offered,
                        server,
                        next_try: again,
                        tries: (tries + 1) as u32,
                    })
                } else {
                    &&& sent == seq![
                        interface::dhcp_frame(
                            m.mac,
                            id,
                            dhcp::message(m.mac, fresh, dhcp::Kind::Discover, Seq::empty()),
                        ),
                    ]
                    &&& after.dhcp == (DhcpModel::Discovering { xid: fresh, next_try: again })
                },
                DhcpModel::Bound { server, renew_at } => if now < renew_at {
                    (after, sent) == (m, Seq::<Seq<u8>>::empty())
                } else {
                    &&& sent == seq![
                        interface::dhcp_frame(
                            m.mac,
                            id,
                            dhcp::message(
                                m.mac,
                                fresh,
                                dhcp::Kind::Request,
                                dhcp::request_options(config.address, server),
                            ),
                        ),
                    ]
                    &&& after.dhcp == (DhcpModel::Requesting {
                        xid: fresh,
                        offered: config.address,
                        server,
                        next_try: again,
                        tries: 1,
                    })
                },
            }
        }),
        m.dhcp_polled(now).0.config == m.config,
        m.dhcp_polled(now).0.events == m.events,
{
}

/// A packet waits 3 seconds for its next hop, which is asked for again every second; a ping is
/// waited for 10 seconds.
#[verifier::rlimit(40)]
#[verifier::spinoff_prover]
pub proof fn waiting_ends(m: InterfaceModel, config: ConfigModel, i: int, now: u64)
    requires
        m.config == Some(config),
        m.dhcp matches DhcpModel::Bound { renew_at, .. } && now < renew_at,
    ensures
        ({
            let (after, sent) = m.polled(now);
            &&& 0 <= i < m.waiting.len() && now < m.waiting[i].queued_at + 3_000_000
                && now < m.waiting[i].asked_at + 1_000_000 ==> after.waiting.contains(m.waiting[i])
            &&& 0 <= i < m.waiting.len() && now < m.waiting[i].queued_at + 3_000_000 && now
                >= m.waiting[i].asked_at + 1_000_000 ==> {
                &&& after.waiting.contains(
                    interface::WaitingModel { asked_at: now, ..m.waiting[i] },
                )
                &&& sent.contains(
                    interface::arp_request_frame(m.mac, config.address, m.waiting[i].next_hop),
                )
            }
            &&& 0 <= i < after.waiting.len() ==> now < after.waiting[i].queued_at + 3_000_000
            &&& 0 <= i < m.pings.len() && now < m.pings[i].1 + 10_000_000
                ==> after.pings.contains(m.pings[i])
            &&& 0 <= i < after.pings.len() ==> now < after.pings[i].1 + 10_000_000
        }),
{
    let (after, sent) = m.polled(now);
    let kept = m.waiting.filter(interface::in_time(now));
    let due = kept.filter(interface::due(now));
    broadcast use vstd::seq_lib::group_filter_ensures;

    assert(sent =~= m.asked_again(kept, now));
    if 0 <= i < m.waiting.len() && now < m.waiting[i].queued_at + 3_000_000 {
        assert(interface::in_time(now)(m.waiting[i]));
        assert(kept.contains(m.waiting[i]));
        let k = choose|k: int| 0 <= k < kept.len() && kept[k] == m.waiting[i];
        if now < m.waiting[i].asked_at + 1_000_000 {
            assert(after.waiting[k] == m.waiting[i]);
        } else {
            assert(after.waiting[k] == interface::WaitingModel { asked_at: now, ..m.waiting[i] });
            assert(interface::due(now)(kept[k]));
            assert(due.contains(kept[k]));
            let j = choose|j: int| 0 <= j < due.len() && due[j] == kept[k];
            assert(sent[j] == interface::arp_request_frame(
                m.mac,
                config.address,
                m.waiting[i].next_hop,
            ));
        }
    }
    if 0 <= i < after.waiting.len() {
        assert(interface::in_time(now)(kept[i]));
        assert(after.waiting[i].queued_at == kept[i].queued_at);
    }
    if 0 <= i < m.pings.len() && now < m.pings[i].1 + 10_000_000 {
        assert(interface::recent(now)(m.pings[i]));
    }
    if 0 <= i < after.pings.len() {
        assert(interface::recent(now)(after.pings[i]));
    }
}

/// Labels with dots between them.
pub open spec fn dotted(labels: Seq<Seq<char>>) -> Seq<char>
    decreases labels.len(),
{
    if labels.len() == 0 {
        Seq::empty()
    } else if labels.len() == 1 {
        labels[0]
    } else {
        labels[0] + seq!['.'] + dotted(labels.drop_first())
    }
}

/// The bytes of ASCII characters.
pub open spec fn ascii(label: Seq<char>) -> Seq<u8> {
    label.map_values(|c: char| c as u8)
}

/// Whether DNS can carry a label: of 1 to 63 ASCII characters.
pub open spec fn carried(label: Seq<char>) -> bool {
    &&& 1 <= label.len() <= 63
    &&& forall|i: int| 0 <= i < label.len() ==> (#[trigger] label[i] as u32) < 128
}

proof fn lemma_dotted(before: Seq<char>, labels: Seq<Seq<char>>)
    requires
        labels.len() > 0,
        forall|i: int| 0 <= i < labels.len() ==> !(#[trigger] labels[i]).contains('.'),
    ensures
        text::pieces_from(before + dotted(labels), before.len() as int, '.') == labels,
    decreases labels.len(),
{
    let s = before + dotted(labels);
    let from = before.len() as int;
    let first = labels[0];
    let at = from + first.len();
    assert forall|k: int| from <= k < at implies s[k] != '.' by {
        if s[k] == '.' {
            assert(first[k - from] == '.');
            assert(first.contains('.'));
        }
    }
    text::lemma_find_unique(s, from, '.', at);
    assert(s.subrange(from, at) =~= first);
    if labels.len() == 1 {
        assert(text::pieces_from(s, from, '.') =~= labels);
    } else {
        let more = labels.drop_first();
        let longer = before + first + seq!['.'];
        assert(s =~= longer + dotted(more));
        assert forall|i: int| 0 <= i < more.len() implies !(#[trigger] more[i]).contains('.') by {
            assert(more[i] == labels[i + 1]);
        }
        lemma_dotted(longer, more);
        assert(seq![first] + more =~= labels);
        assert(text::pieces_from(s, from, '.') =~= labels);
    }
}

proof fn lemma_dotted_end(labels: Seq<Seq<char>>)
    requires
        labels.len() > 0,
        labels.last().len() > 0,
        !labels.last().contains('.'),
    ensures
        dotted(labels).len() > 0,
        dotted(labels).last() != '.',
    decreases labels.len(),
{
    if labels.len() > 1 {
        lemma_dotted_end(labels.drop_first());
        assert(labels.drop_first().last() == labels.last());
    } else {
        let last = labels.last();
        assert(last[last.len() - 1] != '.') by {
            if last[last.len() - 1] == '.' {
                assert(last.contains('.'));
            }
        }
    }
}

proof fn lemma_undotted(name: Seq<char>, dots: nat)
    requires
        name.len() > 0,
        name.last() != '.',
    ensures
        dns::without_dots(name + Seq::new(dots, |i: int| '.')) == name,
    decreases dots,
{
    let whole = name + Seq::new(dots, |i: int| '.');
    if dots == 0 {
        assert(whole =~= name);
    } else {
        assert(whole.drop_last() =~= name + Seq::new((dots - 1) as nat, |i: int| '.'));
        lemma_undotted(name, (dots - 1) as nat);
    }
}

proof fn lemma_label_bytes(labels: Seq<Seq<char>>)
    ensures
        dns::labels_bytes(labels) == spelled_labels(labels.map_values(|l: Seq<char>| ascii(l))),
    decreases labels.len(),
{
    let to_ascii = |l: Seq<char>| ascii(l);
    let mapped = labels.map_values(to_ascii);
    if labels.len() > 0 {
        lemma_label_bytes(labels.drop_last());
        lemma_spelled_last(mapped);
        assert(mapped.drop_last() =~= labels.drop_last().map_values(to_ascii));
        assert(mapped.last() == ascii(labels.last()));
        assert(dns::label_bytes(labels.last()) =~= seq![labels.last().len() as u8] + ascii(
            labels.last(),
        ));
    }
}

proof fn lemma_spelled_last(labels: Seq<Seq<u8>>)
    requires
        labels.len() > 0,
    ensures
        spelled_labels(labels) == spelled_labels(labels.drop_last()) + (seq![
            labels.last().len() as u8,
        ] + labels.last()),
    decreases labels.len(),
{
    let last = seq![labels.last().len() as u8] + labels.last();
    if labels.len() == 1 {
        reveal_with_fuel(spelled_labels, 2);
        assert(labels.drop_first() =~= Seq::<Seq<u8>>::empty());
        assert(labels.drop_last() =~= Seq::<Seq<u8>>::empty());
        assert(spelled_labels(labels) =~= spelled_labels(labels.drop_last()) + last);
    } else {
        let more = labels.drop_first();
        lemma_spelled_last(more);
        assert(more.last() == labels.last());
        assert(more.drop_last() =~= labels.drop_last().drop_first());
        assert(labels.drop_last()[0] == labels[0]);
        assert(spelled_labels(labels) =~= spelled_labels(labels.drop_last()) + last);
    }
}

/// A query asks for the name's addresses: its ID, that recursion is desired, one question and
/// nothing else; and in the question the name's labels, the root, type A and class IN. Dots at
/// the end of the name don't matter. A name of more than 253 characters, or with a
/// label that DNS can't carry, gives no query.
#[verifier::rlimit(40)]
#[verifier::spinoff_prover]
pub proof fn queries_ask_for_the_name(labels: Seq<Seq<char>>, dots: nat, id: u16)
    requires
        labels.len() > 0,
        labels.last().len() > 0,
        forall|i: int| 0 <= i < labels.len() ==> !(#[trigger] labels[i]).contains('.'),
    ensures
        ({
            let name = dotted(labels);
            let fits = name.len() <= 253 && forall|i: int|
                0 <= i < labels.len() ==> carried(#[trigger] labels[i]);
            dns::query_for(name + Seq::new(dots, |i: int| '.'), id) == (if fits {
                Some(
                    seq![(id / 256) as u8, (id % 256) as u8, 1, 0, 0, 1, 0, 0, 0, 0, 0, 0]
                        + spelled_labels(labels.map_values(|l: Seq<char>| ascii(l))) + seq![
                        0u8,
                        0,
                        1,
                        0,
                        1,
                    ],
                )
            } else {
                None
            })
        }),
{
    let name = dotted(labels);
    assert(!labels[labels.len() - 1].contains('.'));
    lemma_dotted_end(labels);
    lemma_undotted(name, dots);
    lemma_dotted(Seq::empty(), labels);
    assert(Seq::<char>::empty() + name =~= name);
    lemma_label_bytes(labels);
    let spelled = spelled_labels(labels.map_values(|l: Seq<char>| ascii(l)));
    assert forall|i: int| 0 <= i < labels.len() implies carried(#[trigger] labels[i])
        == dns::is_label(labels[i]) by {}
    assert(text::pieces_from(name, 0, '.') == labels);
    assert(dns::is_name(name) == (name.len() <= 253 && forall|i: int|
        0 <= i < labels.len() ==> carried(#[trigger] labels[i])));
    if dns::is_name(name) {
        assert(dns::query_for(name + Seq::new(dots, |i: int| '.'), id)->0 =~= seq![
            (id / 256) as u8,
            (id % 256) as u8,
            1,
            0,
            0,
            1,
            0,
            0,
            0,
            0,
            0,
            0,
        ] + spelled + seq![0u8, 0, 1, 0, 1]);
    }
}

} // verus!
