//! Directories as other systems write them, entry by entry, and what is listed of them.

use super::entries;
use super::entries::{Cluster, EntryKind, EntryModel, FatType, LocatedModel, Stamp};
use super::laws;
use super::names;
use super::stored;
use crate::bytes;
use vstd::prelude::*;

verus! {

/// A file's or directory's own entry: the parts of its 8.3 name, its attributes and case flags,
/// when it was created and last used, where its data starts, when it was changed, and its size.
pub struct OwnEntry {
    pub base: Seq<u8>,
    pub ext: Seq<u8>,
    pub attributes: u8,
    pub case: u8,
    pub created: Seq<u8>,
    pub cluster: u32,
    pub time: u16,
    pub date: u16,
    pub size: u32,
}

/// Whether an 8.3 name may have a byte: it is neither a space nor a control character, in Latin-1.
pub open spec fn is_name_byte(b: u8) -> bool {
    0x21 <= b <= 0x7E || 0xA1 <= b
}

pub open spec fn spaces(n: int) -> Seq<u8> {
    Seq::new(n as nat, |i: int| 0x20u8)
}

/// A byte of an 8.3 name as it is shown: in Latin-1, a letter in lowercase if its flag says so.
pub open spec fn shown_byte(b: u8, lower: bool) -> char {
    if lower && (0x41 <= b <= 0x5A || (0xC0 <= b <= 0xDE && b != 0xD7)) {
        (b + 32) as char
    } else {
        b as char
    }
}

pub open spec fn shown_part(part: Seq<u8>, lower: bool) -> Seq<char> {
    part.map_values(|b: u8| shown_byte(b, lower))
}

impl OwnEntry {
    pub open spec fn valid(self) -> bool {
        &&& 1 <= self.base.len() <= 8
        &&& self.ext.len() <= 3
        &&& forall|i: int| 0 <= i < self.base.len() ==> is_name_byte(#[trigger] self.base[i])
        &&& forall|i: int| 0 <= i < self.ext.len() ==> is_name_byte(#[trigger] self.ext[i])
        &&& self.attributes % 64 != 15
        &&& self.attributes / 8 % 2 == 0
        &&& self.created.len() == 7
    }

    /// The 11 bytes of its name: both parts filled up with spaces, and 0x05 for a first byte of
    /// 0xE5, which would mark the entry deleted.
    pub open spec fn short(self) -> Seq<u8> {
        (if self.base[0] == 0xE5 {
            self.base.update(0, 5u8)
        } else {
            self.base
        }) + spaces(8 - self.base.len()) + self.ext + spaces(3 - self.ext.len())
    }

    pub open spec fn spelled(self) -> Seq<u8> {
        self.short() + seq![self.attributes, self.case] + self.created + bytes::le16_bytes(
            (self.cluster / 65536) as u16,
        ) + bytes::le16_bytes(self.time) + bytes::le16_bytes(self.date) + bytes::le16_bytes(
            (self.cluster % 65536) as u16,
        ) + bytes::le32_bytes(self.size)
    }

    /// Its 8.3 name: the parts with a dot between them, if there is a second, each in the case
    /// that its flag says.
    pub open spec fn short_name(self) -> Seq<char> {
        let base = shown_part(self.base, self.case / 8 % 2 == 1);
        if self.ext.len() == 0 {
            base
        } else {
            base + seq!['.'] + shown_part(self.ext, self.case / 16 % 2 == 1)
        }
    }

    /// What it says, by that name.
    pub open spec fn told(self, name: Seq<char>, fat_type: FatType) -> EntryModel {
        let directory = self.attributes / 16 % 2 == 1;
        EntryModel {
            name,
            kind: (if directory {
                EntryKind::Directory
            } else {
                EntryKind::File
            }),
            size: (if directory {
                0
            } else {
                self.size
            }),
            first_cluster: Cluster(
                if fat_type == FatType::Fat16 {
                    self.cluster % 65536
                } else {
                    self.cluster
                },
            ),
            modified: Stamp { date: self.date, time: self.time },
        }
    }
}

/// The checksum that ties a long name to its 8.3 name: for each byte the sum so far is rotated
/// right by a bit, and the byte is added.
pub open spec fn tie(short: Seq<u8>) -> u8
    decreases short.len(),
{
    if short.len() == 0 {
        0
    } else {
        let sum = tie(short.drop_last());
        ((sum / 2 + (if sum % 2 == 1 {
            128int
        } else {
            0
        }) + short.last()) % 256) as u8
    }
}

/// How many pieces of 13 units a long name takes.
pub open spec fn piece_count(name: Seq<char>) -> int {
    (names::utf16(name).len() as int + 12) / 13
}

/// Unit number `i` of a long name as it is stored: after the last a 0, and then padding.
pub open spec fn unit(name: Seq<char>, i: int) -> u16 {
    let units = names::utf16(name);
    if i < units.len() {
        units[i]
    } else if i == units.len() {
        0
    } else {
        0xFFFF
    }
}

/// Piece number `n` of a long name, counted from 1: its number, with 0x40 added in the last one;
/// five units, the attributes of a piece, the checksum of the 8.3 name, six units, and two.
pub open spec fn piece(name: Seq<char>, n: int, sum: u8) -> Seq<u8> {
    let at = 13 * (n - 1);
    let number = if n == piece_count(name) {
        (n + 64) as u8
    } else {
        n as u8
    };
    seq![number] + (bytes::le16_bytes(unit(name, at)) + bytes::le16_bytes(unit(name, at + 1))
        + bytes::le16_bytes(unit(name, at + 2)) + bytes::le16_bytes(unit(name, at + 3))
        + bytes::le16_bytes(unit(name, at + 4))) + seq![15u8, 0, sum] + (bytes::le16_bytes(
        unit(name, at + 5),
    ) + bytes::le16_bytes(unit(name, at + 6)) + bytes::le16_bytes(unit(name, at + 7))
        + bytes::le16_bytes(unit(name, at + 8)) + bytes::le16_bytes(unit(name, at + 9))
        + bytes::le16_bytes(unit(name, at + 10))) + seq![0u8, 0] + (bytes::le16_bytes(
        unit(name, at + 11),
    ) + bytes::le16_bytes(unit(name, at + 12)))
}

/// What may stand in a directory: what is left of a deleted entry, a volume's label, an entry with
/// an 8.3 name only, and one with a long name in pieces before it.
pub enum Item {
    Deleted(Seq<u8>),
    Label(Seq<u8>),
    Short(OwnEntry),
    Long(Seq<char>, OwnEntry),
}

impl Item {
    pub open spec fn valid(self) -> bool {
        match self {
            Item::Deleted(rest) => rest.len() == 31,
            Item::Label(slot) => slot.len() == 32 && slot[0] != 0 && slot[0] != 0xE5 && slot[11]
                % 64 != 15 && slot[11] / 8 % 2 == 1,
            Item::Short(own) => own.valid(),
            Item::Long(name, own) => own.valid() && laws::plain_name(name),
        }
    }

    /// The slots of 32 bytes that it takes.
    pub open spec fn slots(self) -> Seq<Seq<u8>> {
        match self {
            Item::Deleted(rest) => seq![seq![0xE5u8] + rest],
            Item::Label(slot) => seq![slot],
            Item::Short(own) => seq![own.spelled()],
            Item::Long(name, own) => Seq::new(
                piece_count(name) as nat,
                |i: int| piece(name, piece_count(name) - i, tie(own.short())),
            ).push(own.spelled()),
        }
    }

    /// What is listed of it, if anything: `.` and `..` are not.
    pub open spec fn told(self, fat_type: FatType) -> Seq<EntryModel> {
        match self {
            Item::Deleted(_) => Seq::empty(),
            Item::Label(_) => Seq::empty(),
            Item::Short(own) => if own.short_name() == seq!['.'] || own.short_name() == seq![
                '.',
                '.',
            ] {
                Seq::empty()
            } else {
                seq![own.told(own.short_name(), fat_type)]
            },
            Item::Long(name, own) => seq![own.told(name, fat_type)],
        }
    }
}

/// The slots of items, one after another.
pub open spec fn all_slots(items: Seq<Item>) -> Seq<Seq<u8>>
    decreases items.len(),
{
    if items.len() == 0 {
        Seq::empty()
    } else {
        all_slots(items.drop_last()) + items.last().slots()
    }
}

/// What is listed of items, in order.
pub open spec fn all_told(items: Seq<Item>, fat_type: FatType) -> Seq<EntryModel>
    decreases items.len(),
{
    if items.len() == 0 {
        Seq::empty()
    } else {
        all_told(items.drop_last(), fat_type) + items.last().told(fat_type)
    }
}

/// Slots as the bytes of a directory.
pub open spec fn laid(slots: Seq<Seq<u8>>) -> Seq<u8>
    decreases slots.len(),
{
    if slots.len() == 0 {
        Seq::empty()
    } else {
        laid(slots.drop_last()) + slots.last()
    }
}

proof fn lemma_laid(slots: Seq<Seq<u8>>, rest: Seq<u8>, i: int)
    requires
        forall|k: int| 0 <= k < slots.len() ==> (#[trigger] slots[k]).len() == 32,
    ensures
        laid(slots).len() == 32 * slots.len(),
        0 <= i < slots.len() ==> entries::slot_at(laid(slots) + rest, i) == slots[i],
    decreases slots.len(),
{
    if slots.len() > 0 {
        let front = slots.drop_last();
        let last = slots[slots.len() - 1];
        assert forall|k: int| 0 <= k < front.len() implies (#[trigger] front[k]).len() == 32 by {
            assert(front[k] == slots[k]);
        }
        lemma_laid(front, last + rest, i);
        assert(last.len() == 32);
        assert(laid(slots) + rest =~= laid(front) + (last + rest));
        if i == slots.len() - 1 {
            assert(entries::slot_at(laid(slots) + rest, i) =~= last);
        }
    }
}

proof fn lemma_tie(short: Seq<u8>)
    ensures
        names::short_checksum(short) == tie(short),
    decreases short.len(),
{
    if short.len() > 0 {
        lemma_tie(short.drop_last());
    }
}

/// A piece is read as it is written.
proof fn lemma_piece(name: Seq<char>, n: int, sum: u8)
    requires
        1 <= n <= piece_count(name) <= 20,
    ensures
        piece(name, n, sum) == stored::long_entry(
            stored::stored_units(name),
            n,
            n == piece_count(name),
            sum,
        ),
{
    reveal_with_fuel(stored::units_bytes, 7);
    let units = stored::stored_units(name);
    let at = 13 * (n - 1);
    assert forall|k: int| 0 <= k < 13 implies #[trigger] units[at + k] == unit(name, at + k) by {}
    assert(units[at + 0] == unit(name, at));
    assert(units[at + 1] == unit(name, at + 1));
    assert(units[at + 2] == unit(name, at + 2));
    assert(units[at + 3] == unit(name, at + 3));
    assert(units[at + 4] == unit(name, at + 4));
    assert(units[at + 5] == unit(name, at + 5));
    assert(units[at + 6] == unit(name, at + 6));
    assert(units[at + 7] == unit(name, at + 7));
    assert(units[at + 8] == unit(name, at + 8));
    assert(units[at + 9] == unit(name, at + 9));
    assert(units[at + 10] == unit(name, at + 10));
    assert(units[at + 11] == unit(name, at + 11));
    assert(units[at + 12] == unit(name, at + 12));
    assert(piece(name, n, sum) =~= stored::long_entry(units, n, n == piece_count(name), sum));
}

/// Spaces at the end of a part are left out.
proof fn lemma_part(part: Seq<u8>, whole: Seq<u8>, lower: bool)
    requires
        forall|i: int| 0 <= i < part.len() ==> is_name_byte(#[trigger] part[i]) || part[i] == 5,
        part.len() <= whole.len(),
        whole == part + spaces(whole.len() - part.len()),
    ensures
        names::short_part(whole, lower) == shown_part(part, lower),
{
    let chars = Seq::new(whole.len(), |i: int| whole[i] as char);
    let kept = Seq::new(part.len(), |i: int| part[i] as char);
    assert(chars.subrange(0, kept.len() as int) =~= kept);
    lemma_trim(kept, chars);
    assert(names::trimmed(chars) == kept);
    assert(names::short_part(whole, lower) =~= shown_part(part, lower));
}

proof fn lemma_trim(kept: Seq<char>, chars: Seq<char>)
    requires
        kept.len() <= chars.len(),
        chars.subrange(0, kept.len() as int) == kept,
        forall|i: int| kept.len() <= i < chars.len() ==> chars[i] == ' ',
        kept.len() > 0 ==> !names::is_space(kept.last()),
    ensures
        names::trimmed(chars) == kept,
    decreases chars.len(),
{
    if chars.len() > kept.len() {
        assert(chars.last() == ' ');
        assert(chars.drop_last().subrange(0, kept.len() as int) =~= kept);
        lemma_trim(kept, chars.drop_last());
    } else {
        assert(chars =~= kept);
    }
}

/// What is read of an entry of its own.
proof fn lemma_own(own: OwnEntry)
    requires
        own.valid(),
    ensures
        ({
            let s = own.spelled();
            &&& s.len() == 32
            &&& s[0] != 0 && s[0] != 0xE5
            &&& s[11] == own.attributes
            &&& s.subrange(0, 11) == own.short()
            &&& bytes::le16(s, 20) == own.cluster / 65536
            &&& bytes::le16(s, 22) == own.time
            &&& bytes::le16(s, 24) == own.date
            &&& bytes::le16(s, 26) == own.cluster % 65536
            &&& bytes::le32(s, 28) == own.size
            &&& names::short_name_in(s) == own.short_name()
        }),
{
    let s = own.spelled();
    let short = own.short();
    assert(short.len() == 11);
    assert(s.subrange(0, 11) =~= short);
    assert(s[0] == short[0]);
    assert(is_name_byte(own.base[0]));
    let high = (own.cluster / 65536) as u16;
    let low = (own.cluster % 65536) as u16;
    assert(s.subrange(20, 22) =~= bytes::le16_bytes(high));
    assert(s.subrange(22, 24) =~= bytes::le16_bytes(own.time));
    assert(s.subrange(24, 26) =~= bytes::le16_bytes(own.date));
    assert(s.subrange(26, 28) =~= bytes::le16_bytes(low));
    assert(s.subrange(28, 32) =~= bytes::le32_bytes(own.size));
    bytes::lemma_stands_words(s, 20, high, 0);
    bytes::lemma_stands_words(s, 22, own.time, 0);
    bytes::lemma_stands_words(s, 24, own.date, 0);
    bytes::lemma_stands_words(s, 26, low, 0);
    bytes::lemma_stands_words(s, 28, 0, own.size);
    let base = if own.base[0] == 0xE5 {
        own.base.update(0, 5u8)
    } else {
        own.base
    };
    let lower = own.case / 8 % 2 == 1;
    assert(s[12] == own.case);
    assert(s.subrange(0, 8) =~= base + spaces(8 - base.len()));
    assert(s.subrange(8, 11) =~= own.ext + spaces(3 - own.ext.len()));
    lemma_part(base, s.subrange(0, 8), lower);
    lemma_part(own.ext, s.subrange(8, 11), own.case / 16 % 2 == 1);
    if own.base[0] == 0xE5 {
        assert(shown_part(base, lower).update(0, '\u{E5}') =~= shown_part(own.base, lower));
    }
    assert(names::unescaped(shown_part(base, lower), s[0]) == shown_part(own.base, lower));
}

/// The fields of an entry, where it stands.
proof fn lemma_told(dir: Seq<u8>, i: int, own: OwnEntry, fat_type: FatType)
    requires
        own.valid(),
        entries::slot_at(dir, i) == own.spelled(),
    ensures
        entries::located_at(dir, i, fat_type).entry == own.told(
            entries::name_at(dir, i),
            fat_type,
        ),
        entries::is_own(entries::slot_at(dir, i)),
{
    lemma_own(own);
    assert((own.cluster / 65536) * 65536 + own.cluster % 65536 == own.cluster);
}

/// Every item's slots: all of 32 bytes, none the end of the directory, and the last no piece of a
/// long name.
proof fn lemma_item_slots(item: Item)
    requires
        item.valid(),
    ensures
        item.slots().len() > 0,
        forall|k: int|
            0 <= k < item.slots().len() ==> (#[trigger] item.slots()[k]).len() == 32
                && item.slots()[k][0] != 0,
        !entries::is_long(item.slots().last()),
{
    match item {
        Item::Deleted(rest) => {},
        Item::Label(slot) => {},
        Item::Short(own) => {
            lemma_own(own);
        },
        Item::Long(name, own) => {
            lemma_own(own);
            lemma_counted(name);
            let units = stored::stored_units(name);
            let n = piece_count(name);
            assert forall|k: int| 0 <= k < n implies (#[trigger] item.slots()[k]).len() == 32
                && item.slots()[k][0] != 0 by {
                lemma_piece(name, n - k, tie(own.short()));
                laws::lemma_long_entry(units, n - k, n - k == n, tie(own.short()));
            }
            assert(item.slots().last() == own.spelled());
        },
    }
}

/// How many pieces a name has.
proof fn lemma_counted(name: Seq<char>)
    requires
        laws::plain_name(name),
    ensures
        1 <= piece_count(name) <= 20,
        piece_count(name) == stored::pieces_needed(names::utf16(name).len() as int),
        stored::stored_units(name).len() == 13 * piece_count(name),
{
    names::lemma_utf16_length(name);
}

proof fn lemma_all_slots(items: Seq<Item>)
    requires
        forall|i: int| 0 <= i < items.len() ==> (#[trigger] items[i]).valid(),
    ensures
        forall|k: int|
            0 <= k < all_slots(items).len() ==> (#[trigger] all_slots(items)[k]).len() == 32
                && all_slots(items)[k][0] != 0,
        all_slots(items).len() > 0 ==> !entries::is_long(all_slots(items).last()),
    decreases items.len(),
{
    if items.len() > 0 {
        let front = items.drop_last();
        let last = items[items.len() - 1];
        assert(last.valid());
        assert forall|i: int| 0 <= i < front.len() implies (#[trigger] front[i]).valid() by {
            assert(front[i] == items[i]);
        }
        lemma_all_slots(front);
        lemma_item_slots(last);
        let n = all_slots(front).len();
        assert forall|k: int| 0 <= k < all_slots(items).len() implies (#[trigger] all_slots(
            items,
        )[k]).len() == 32 && all_slots(items)[k][0] != 0 by {
            if k < n {
                assert(all_slots(items)[k] == all_slots(front)[k]);
            } else {
                assert(all_slots(items)[k] == last.slots()[k - n]);
            }
        }
        assert(all_slots(items).last() == last.slots().last());
    }
}

/// An entry with nothing of a long name before it goes by its 8.3 name.
proof fn lemma_short_listed(dir: Seq<u8>, p: int, own: OwnEntry)
    requires
        own.valid(),
        0 <= p,
        entries::slot_at(dir, p) == own.spelled(),
        p > 0 ==> !entries::is_long(entries::slot_at(dir, p - 1)),
    ensures
        entries::name_at(dir, p) == own.short_name(),
{
    lemma_own(own);
    assert(entries::pieces_from(dir, p, 1) == 0) by {
        if p >= 1 {
            assert(!entries::is_piece(dir, p, 1));
        }
    }
}

/// An entry with the pieces of its long name before it goes by that.
proof fn lemma_long_listed(
    dir: Seq<u8>,
    p: int,
    name: Seq<char>,
    own: OwnEntry,
    fat_type: FatType,
)
    requires
        own.valid(),
        laws::plain_name(name),
        0 <= p,
        p + piece_count(name) < entries::slot_count(dir),
        forall|j: int|
            0 <= j <= piece_count(name) ==> #[trigger] entries::slot_at(dir, p + j) == Item::Long(
                name,
                own,
            ).slots()[j],
    ensures
        entries::name_at(dir, p + piece_count(name)) == name,
        forall|j: int|
            0 <= j < piece_count(name) ==> !entries::is_own(#[trigger] entries::slot_at(dir, p + j)),
{
    let n = piece_count(name);
    let units = stored::stored_units(name);
    let sum = tie(own.short());
    lemma_counted(name);
    lemma_own(own);
    lemma_tie(own.short());
    assert(entries::slot_at(dir, p + n) == own.spelled());
    assert forall|j: int| 0 <= j < n implies #[trigger] entries::slot_at(dir, p + j)
        == stored::long_entry(units, n - j, n - j == n, sum) && !entries::is_own(
        entries::slot_at(dir, p + j),
    ) by {
        lemma_piece(name, n - j, sum);
        laws::lemma_long_entry(units, n - j, n - j == n, sum);
    }
    laws::lemma_stored_name(dir, p, name, sum);
}

/// What the slots of one more item list.
#[verifier::rlimit(40)]
#[verifier::spinoff_prover]
proof fn lemma_one_more(dir: Seq<u8>, p: int, item: Item, fat_type: FatType)
    requires
        item.valid(),
        0 <= p,
        p + item.slots().len() <= entries::slot_count(dir),
        p > 0 ==> !entries::is_long(entries::slot_at(dir, p - 1)),
        forall|j: int|
            0 <= j < item.slots().len() ==> #[trigger] entries::slot_at(dir, p + j)
                == item.slots()[j],
    ensures
        entries::listed(dir, fat_type, p + item.slots().len()).map_values(
            |l: LocatedModel| l.entry,
        ) == entries::listed(dir, fat_type, p).map_values(|l: LocatedModel| l.entry) + item.told(
            fat_type,
        ),
{
    let entry = |l: LocatedModel| l.entry;
    let before = entries::listed(dir, fat_type, p);
    let known = before.map_values(entry);
    match item {
        Item::Deleted(rest) => {
            assert(entries::slot_at(dir, p + 0) == item.slots()[0]);
            assert(!entries::is_listed(dir, p));
            assert(entries::listed(dir, fat_type, p + 1) == before);
            assert(known + item.told(fat_type) =~= known);
        },
        Item::Label(slot) => {
            assert(entries::slot_at(dir, p + 0) == item.slots()[0]);
            assert(!entries::is_listed(dir, p));
            assert(entries::listed(dir, fat_type, p + 1) == before);
            assert(known + item.told(fat_type) =~= known);
        },
        Item::Short(own) => {
            assert(entries::slot_at(dir, p + 0) == item.slots()[0]);
            lemma_short_listed(dir, p, own);
            lemma_told(dir, p, own, fat_type);
            let one = entries::located_at(dir, p, fat_type);
            if entries::is_listed(dir, p) {
                assert(entries::listed(dir, fat_type, p + 1) == before.push(one));
                assert(before.push(one).map_values(entry) =~= known + item.told(fat_type));
            } else {
                assert(entries::listed(dir, fat_type, p + 1) == before);
                assert(known + item.told(fat_type) =~= known);
            }
        },
        Item::Long(name, own) => {
            let n = piece_count(name);
            lemma_counted(name);
            assert(item.slots().len() == n + 1);
            lemma_long_listed(dir, p, name, own, fat_type);
            assert(entries::slot_at(dir, p + n) == own.spelled());
            lemma_told(dir, p + n, own, fat_type);
            lemma_unlisted(dir, fat_type, p, n);
            assert(name.last() != '.');
            assert(seq!['.'].last() == '.' && seq!['.', '.'].last() == '.');
            assert(entries::is_listed(dir, p + n));
            let one = entries::located_at(dir, p + n, fat_type);
            assert(entries::listed(dir, fat_type, p + n + 1) == before.push(one));
            assert(before.push(one).map_values(entry) =~= known + item.told(fat_type));
        },
    }
}

/// What the slots of items list.
proof fn lemma_listed(dir: Seq<u8>, items: Seq<Item>, fat_type: FatType)
    requires
        forall|i: int| 0 <= i < items.len() ==> (#[trigger] items[i]).valid(),
        all_slots(items).len() <= entries::slot_count(dir),
        forall|k: int|
            0 <= k < all_slots(items).len() ==> #[trigger] entries::slot_at(dir, k) == all_slots(
                items,
            )[k],
    ensures
        entries::listed(dir, fat_type, all_slots(items).len() as int).map_values(
            |l: LocatedModel| l.entry,
        ) == all_told(items, fat_type),
    decreases items.len(),
{
    let entry = |l: LocatedModel| l.entry;
    if items.len() == 0 {
        assert(entries::listed(dir, fat_type, 0).map_values(entry) =~= Seq::<EntryModel>::empty());
    } else {
        let front = items.drop_last();
        let last = items[items.len() - 1];
        let p = all_slots(front).len() as int;
        assert(last.valid());
        assert forall|i: int| 0 <= i < front.len() implies (#[trigger] front[i]).valid() by {
            assert(front[i] == items[i]);
        }
        assert forall|k: int| 0 <= k < p implies #[trigger] entries::slot_at(dir, k) == all_slots(
            front,
        )[k] by {
            assert(all_slots(items)[k] == all_slots(front)[k]);
        }
        lemma_listed(dir, front, fat_type);
        lemma_all_slots(front);
        assert forall|j: int| 0 <= j < last.slots().len() implies #[trigger] entries::slot_at(
            dir,
            p + j,
        ) == last.slots()[j] by {
            assert(all_slots(items)[p + j] == last.slots()[j]);
        }
        if p > 0 {
            assert(entries::slot_at(dir, p - 1) == all_slots(front).last());
        }
        lemma_one_more(dir, p, last, fat_type);
    }
}

/// Slots that hold no entry of their own list nothing.
proof fn lemma_unlisted(dir: Seq<u8>, fat_type: FatType, p: int, n: int)
    requires
        0 <= p,
        0 <= n,
        forall|j: int| 0 <= j < n ==> !entries::is_own(#[trigger] entries::slot_at(dir, p + j)),
    ensures
        entries::listed(dir, fat_type, p + n) == entries::listed(dir, fat_type, p),
    decreases n,
{
    if n > 0 {
        lemma_unlisted(dir, fat_type, p, n - 1);
        assert(!entries::is_own(entries::slot_at(dir, p + (n - 1))));
    }
}

/// A directory lists what stands in it, in order, up to a slot that starts with 0, or to its end:
/// each file and directory by its long name, or else by its 8.3 name, with its kind, size,
/// first cluster and time of change; and neither deleted entries, nor volume labels, nor
/// `.` and `..`.
pub proof fn directories_list_what_they_hold(items: Seq<Item>, rest: Seq<u8>, fat_type: FatType)
    requires
        forall|i: int| 0 <= i < items.len() ==> (#[trigger] items[i]).valid(),
        rest.len() < 32 || rest[0] == 0,
    ensures
        entries::listing(laid(all_slots(items)) + rest, fat_type).map_values(
            |l: LocatedModel| l.entry,
        ) == all_told(items, fat_type),
{
    let slots = all_slots(items);
    let dir = laid(slots) + rest;
    let n = slots.len() as int;
    lemma_all_slots(items);
    lemma_laid(slots, rest, 0);
    assert forall|k: int| 0 <= k < n implies #[trigger] entries::slot_at(dir, k) == slots[k] by {
        lemma_laid(slots, rest, k);
    }
    assert(n <= entries::slot_count(dir));
    assert forall|k: int| 0 <= k < n implies dir[#[trigger] (32 * k)] != 0 by {
        assert(entries::slot_at(dir, k)[0] == dir[32 * k]);
        assert(entries::slot_at(dir, k) == slots[k]);
    }
    lemma_end(dir, 0, n);
    lemma_listed(dir, items, fat_type);
}

proof fn lemma_end(dir: Seq<u8>, from: int, n: int)
    requires
        0 <= from <= n <= entries::slot_count(dir),
        forall|k: int| from <= k < n ==> dir[#[trigger] (32 * k)] != 0,
        n < entries::slot_count(dir) ==> dir[32 * n] == 0,
    ensures
        entries::end_slot(dir, from) == n,
    decreases n - from,
{
    if from < n {
        assert(dir[32 * from] != 0);
        lemma_end(dir, from + 1, n);
    }
}

} // verus!
