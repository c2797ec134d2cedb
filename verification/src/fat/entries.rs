//! Directory entries: how a directory's bytes list files and directories.

use super::names;
use super::names::{
    decode_utf16, name_length, names_match, short_name, short_name_checksum, ATTR_LONG_NAME,
    DIR_ENTRY_SIZE, LFN_CHARS, LFN_LAST,
};
use crate::bytes;
use crate::text;
use crate::text::push_decimal;
use crate::time;
use vstd::prelude::*;

verus! {

pub const ATTR_DIRECTORY: u8 = 0x10;

pub const ATTR_VOLUME_ID: u8 = 0x08;

pub const ATTR_ARCHIVE: u8 = 0x20;

pub const ENTRY_END: u8 = 0x00;

pub const ENTRY_DELETED: u8 = 0xE5;

/// A cluster number. Data clusters start at 2.
#[derive(Clone, Copy, Debug, PartialEq, Eq, Structural)]
pub struct Cluster(pub u32);

#[derive(Clone, Copy, Debug, PartialEq, Eq, Structural)]
pub enum FatType {
    Fat16,
    Fat32,
}

#[derive(Clone, Copy, Debug, PartialEq, Eq, Structural)]
pub enum EntryKind {
    File,
    Directory,
}

/// When an entry was last changed: a date and a time as FAT stores them.
#[derive(Clone, Copy, Debug, PartialEq, Eq, Structural)]
pub struct Stamp {
    pub date: u16,
    pub time: u16,
}

impl Stamp {
    /// How it is shown, like "2026-09-21 14:13".
    pub open spec fn shown(self) -> Seq<char> {
        let year = 1980 + self.date / 0x200;
        let month = (self.date / 0x20 % 0x10) as u8;
        let day = (self.date % 0x20) as u8;
        let hour = (self.time / 0x800) as u8;
        let minute = (self.time / 0x20 % 0x40) as u8;
        text::decimal(year as nat) + seq!['-'] + time::padded(month) + seq!['-'] + time::padded(day)
            + seq![' '] + time::padded(hour) + seq![':'] + time::padded(minute)
    }

    /// How it is shown, like "2026-09-21 14:13".
    pub fn to_string(&self) -> (r: String)
        ensures
            r@ == self.shown(),
    {
        let mut out = String::new();
        push_decimal(&mut out, 1980 + (self.date / 0x200) as u64);
        out.push('-');
        time::push_padded(&mut out, (self.date / 0x20 % 0x10) as u8);
        out.push('-');
        time::push_padded(&mut out, (self.date % 0x20) as u8);
        out.push(' ');
        time::push_padded(&mut out, (self.time / 0x800) as u8);
        out.push(':');
        time::push_padded(&mut out, (self.time / 0x20 % 0x40) as u8);
        assert(out@ =~= self.shown());
        out
    }
}

#[derive(Clone, Debug, PartialEq, Eq)]
pub struct DirEntry {
    pub name: String,
    pub kind: EntryKind,
    /// Bytes; always 0 for directories.
    pub size: u32,
    pub first_cluster: Cluster,
    pub modified: Stamp,
}

impl DirEntry {
    pub fn first_cluster(&self) -> (r: Cluster)
        ensures
            r == self.first_cluster,
    {
        self.first_cluster
    }
}

/// A file or directory that a directory lists.
pub struct EntryModel {
    pub name: Seq<char>,
    pub kind: EntryKind,
    pub size: u32,
    pub first_cluster: Cluster,
    pub modified: Stamp,
}

impl DirEntry {
    pub open spec fn view(&self) -> EntryModel {
        EntryModel {
            name: self.name@,
            kind: self.kind,
            size: self.size,
            first_cluster: self.first_cluster,
            modified: self.modified,
        }
    }
}

/// An entry, and the slots it takes: from that of its long name's last piece (or its own) up to
/// its own.
pub struct Located {
    pub entry: DirEntry,
    pub first_slot: usize,
    pub slot: usize,
}

/// An entry, and the slots it takes.
pub struct LocatedModel {
    pub entry: EntryModel,
    pub first_slot: int,
    pub slot: int,
}

impl Located {
    pub open spec fn view(&self) -> LocatedModel {
        LocatedModel {
            entry: self.entry@,
            first_slot: self.first_slot as int,
            slot: self.slot as int,
        }
    }
}

/// The slots that a directory's bytes hold.
pub open spec fn slot_count(dir: Seq<u8>) -> int {
    dir.len() as int / 32
}

/// Slot number `i` of a directory.
pub open spec fn slot_at(dir: Seq<u8>, i: int) -> Seq<u8> {
    dir.subrange(32 * i, 32 * i + 32)
}

/// The slot from `from` on where a directory's entries end.
pub open spec fn end_slot(dir: Seq<u8>, from: int) -> int
    decreases slot_count(dir) - from,
{
    if from >= slot_count(dir) {
        slot_count(dir)
    } else if dir[32 * from] == ENTRY_END {
        from
    } else {
        end_slot(dir, from + 1)
    }
}

/// Whether a slot holds a piece of a long name.
pub open spec fn is_long(slot: Seq<u8>) -> bool {
    slot[0] != ENTRY_END && slot[0] != ENTRY_DELETED && slot[11] % 0x40 == ATTR_LONG_NAME
}

/// Whether a slot holds a file's or directory's own entry.
pub open spec fn is_own(slot: Seq<u8>) -> bool {
    slot[0] != ENTRY_END && slot[0] != ENTRY_DELETED && slot[11] % 0x40 != ATTR_LONG_NAME
        && slot[11] / ATTR_VOLUME_ID % 2 == 0
}

/// Whether the slot `n` before slot `i` holds piece `n` of that one's long name: it has that
/// number, and the checksum of the 8.3 name.
pub open spec fn is_piece(dir: Seq<u8>, i: int, n: int) -> bool {
    let slot = slot_at(dir, i - n);
    &&& is_long(slot)
    &&& slot[0] % 0x20 == n
    &&& slot[13] == names::short_checksum(slot_at(dir, i).subrange(0, 11))
}

/// How many pieces the long name of the entry in slot `i` has, if its first `n - 1` are there:
/// they stand before it, last piece first, and the last says so. 0 if one is missing.
pub open spec fn pieces_from(dir: Seq<u8>, i: int, n: int) -> int
    decreases 32 - n,
{
    if n > i || n > 31 || !is_piece(dir, i, n) {
        0
    } else if dir[32 * (i - n)] / LFN_LAST % 2 == 1 {
        n
    } else {
        pieces_from(dir, i, n + 1)
    }
}

/// The units in the `n` pieces before slot `i`.
pub open spec fn long_units(dir: Seq<u8>, i: int, n: int) -> Seq<u16>
    decreases n,
{
    if n <= 0 {
        Seq::empty()
    } else {
        long_units(dir, i, n - 1) + names::piece_units(slot_at(dir, i - n))
    }
}

/// The name of the entry in slot `i`: its long name, if that is complete, or its 8.3 name.
pub open spec fn name_at(dir: Seq<u8>, i: int) -> Seq<char> {
    let n = pieces_from(dir, i, 1);
    if n > 0 {
        names::decoded(names::name_units(long_units(dir, i, n)), 0)
    } else {
        names::short_name_in(slot_at(dir, i))
    }
}

/// The cluster that an entry says is the first. FAT16 entries say it in 16 bits.
pub open spec fn cluster_in(slot: Seq<u8>, fat_type: FatType) -> Cluster {
    let high = if fat_type == FatType::Fat32 {
        bytes::le16(slot, 20) as int
    } else {
        0
    };
    Cluster((high * 0x1_0000 + bytes::le16(slot, 26)) as u32)
}

/// What the entry in slot `i` says.
pub open spec fn located_at(dir: Seq<u8>, i: int, fat_type: FatType) -> LocatedModel {
    let slot = slot_at(dir, i);
    let directory = slot[11] / ATTR_DIRECTORY % 2 == 1;
    LocatedModel {
        entry: EntryModel {
            name: name_at(dir, i),
            kind: (if directory {
                EntryKind::Directory
            } else {
                EntryKind::File
            }),
            size: (if directory {
                0
            } else {
                bytes::le32(slot, 28)
            }),
            first_cluster: cluster_in(slot, fat_type),
            modified: Stamp { date: bytes::le16(slot, 24), time: bytes::le16(slot, 22) },
        },
        first_slot: i - pieces_from(dir, i, 1),
        slot: i,
    }
}

/// Whether slot `i` holds an entry that is listed: `.` and `..` are left out.
pub open spec fn is_listed(dir: Seq<u8>, i: int) -> bool {
    is_own(slot_at(dir, i)) && name_at(dir, i) != seq!['.'] && name_at(dir, i) != seq!['.', '.']
}

/// The entries in the first `n` slots.
pub open spec fn listed(dir: Seq<u8>, fat_type: FatType, n: int) -> Seq<LocatedModel>
    decreases n,
{
    if n <= 0 {
        Seq::empty()
    } else if is_listed(dir, n - 1) {
        listed(dir, fat_type, n - 1).push(located_at(dir, n - 1, fat_type))
    } else {
        listed(dir, fat_type, n - 1)
    }
}

/// The entries of a directory.
pub open spec fn listing(dir: Seq<u8>, fat_type: FatType) -> Seq<LocatedModel> {
    listed(dir, fat_type, end_slot(dir, 0))
}

/// The first slot from `from` on, and before `to`, that lists `name`, but for case; `None` if
/// none does.
pub open spec fn slot_of(dir: Seq<u8>, name: Seq<char>, from: int, to: int) -> Option<int>
    decreases to - from,
{
    if from >= to {
        None
    } else if is_listed(dir, from) && names::same_name(name_at(dir, from), name) {
        Some(from)
    } else {
        slot_of(dir, name, from + 1, to)
    }
}

/// The entry for `name` in a directory, but for case.
pub open spec fn entry_for(dir: Seq<u8>, fat_type: FatType, name: Seq<char>) -> Option<
    LocatedModel,
> {
    match slot_of(dir, name, 0, end_slot(dir, 0)) {
        Some(slot) => Some(located_at(dir, slot, fat_type)),
        None => None,
    }
}

pub proof fn lemma_end_slot(dir: Seq<u8>, from: int)
    requires
        0 <= from <= slot_count(dir),
    ensures
        from <= end_slot(dir, from) <= slot_count(dir),
        end_slot(dir, from) < slot_count(dir) ==> dir[32 * end_slot(dir, from)] == ENTRY_END,
        forall|i: int| from <= i < end_slot(dir, from) ==> dir[#[trigger] (32 * i)] != ENTRY_END,
    decreases slot_count(dir) - from,
{
    if from < slot_count(dir) && dir[32 * from] != ENTRY_END {
        lemma_end_slot(dir, from + 1);
    }
}

#[verifier::spinoff_prover]
pub proof fn lemma_pieces(dir: Seq<u8>, i: int, n: int)
    requires
        1 <= n,
    ensures
        0 <= pieces_from(dir, i, n) <= 31,
        pieces_from(dir, i, n) > 0 ==> n <= pieces_from(dir, i, n) <= i,
    decreases 32 - n,
{
    if !(n > i || n > 31 || !is_piece(dir, i, n)) {
        lemma_pieces(dir, i, n + 1);
    }
}

/// Slot number `i` of a directory.
fn get_slot(dir: &[u8], i: usize) -> (r: &[u8])
    requires
        i < slot_count(dir@),
    ensures
        r@ == slot_at(dir@, i as int),
        r@.len() == 32,
{
    assert(dir.len() == dir@.len());
    &dir[32 * i..32 * i + 32]
}

/// How many pieces the long name of the entry in slot `i` has; 0 if it has none, or not all of
/// them.
#[verifier::spinoff_prover]
fn count_pieces(dir: &[u8], i: usize) -> (r: usize)
    requires
        i < slot_count(dir@),
    ensures
        r == pieces_from(dir@, i as int, 1),
        r <= i,
        r <= 31,
{
    let checksum = short_name_checksum(&get_slot(dir, i)[0..11]);
    let mut n: usize = 1;
    while n <= i && n <= 31
        invariant
            1 <= n <= 32,
            i < slot_count(dir@),
            checksum == names::short_checksum(slot_at(dir@, i as int).subrange(0, 11)),
            pieces_from(dir@, i as int, 1) == pieces_from(dir@, i as int, n as int),
        decreases 32 - n,
    {
        let slot = get_slot(dir, i - n);
        if slot[0] == ENTRY_END || slot[0] == ENTRY_DELETED || slot[11] % 0x40 != ATTR_LONG_NAME
            || (slot[0] % 0x20) as usize != n || slot[13] != checksum {
            return 0;
        }
        assert(slot@[0] == dir@[32 * (i - n)]);
        if slot[0] / LFN_LAST % 2 == 1 {
            return n;
        }
        n += 1;
    }
    0
}

/// The units in the `n` pieces before slot `i`.
#[verifier::spinoff_prover]
fn read_units(dir: &[u8], i: usize, n: usize) -> (r: Vec<u16>)
    requires
        n <= 31,
        n <= i < slot_count(dir@),
    ensures
        r@ == long_units(dir@, i as int, n as int),
{
    let mut units: Vec<u16> = Vec::new();
    let mut k: usize = 1;
    while k <= n
        invariant
            1 <= k <= n + 1,
            n <= 31,
            n <= i < slot_count(dir@),
            units@ == long_units(dir@, i as int, k - 1),
        decreases n + 1 - k,
    {
        let slot = get_slot(dir, i - k);
        let ghost before = units@;
        let mut u: usize = 0;
        while u < LFN_CHARS
            invariant
                u <= LFN_CHARS,
                slot@.len() == 32,
                units@ == before + names::piece_units(slot@).subrange(0, u as int),
            decreases LFN_CHARS - u,
        {
            let at = names::unit_offset(u);
            units.push(bytes::le16_at(slot, at));
            u += 1;
            assert(units@ =~= before + names::piece_units(slot@).subrange(0, u as int));
        }
        assert(names::piece_units(slot@).subrange(0, u as int) =~= names::piece_units(slot@));
        k += 1;
    }
    units
}

/// What the entry in slot `i` says.
#[verifier::spinoff_prover]
fn read_located(dir: &[u8], i: usize, fat_type: FatType) -> (r: Located)
    requires
        i < slot_count(dir@),
    ensures
        r@ == located_at(dir@, i as int, fat_type),
        r.first_slot <= r.slot,
{
    let slot = get_slot(dir, i);
    let n = count_pieces(dir, i);
    let name = if n > 0 {
        let units = read_units(dir, i, n);
        let len = name_length(&units);
        let chars = decode_utf16(&units[0..len]);
        text::string_of(&chars)
    } else {
        short_name(slot)
    };
    assert(name@ == name_at(dir@, i as int));
    let directory = slot[11] / ATTR_DIRECTORY % 2 == 1;
    let high: u32 = if fat_type == FatType::Fat32 {
        bytes::le16_at(slot, 20) as u32
    } else {
        0
    };
    let entry = DirEntry {
        name,
        kind: if directory {
            EntryKind::Directory
        } else {
            EntryKind::File
        },
        size: if directory {
            0
        } else {
            bytes::le32_at(slot, 28)
        },
        first_cluster: Cluster(high * 0x1_0000 + bytes::le16_at(slot, 26) as u32),
        modified: Stamp { date: bytes::le16_at(slot, 24), time: bytes::le16_at(slot, 22) },
    };
    Located { entry, first_slot: i - n, slot: i }
}

/// The entries in a list of them.
pub open spec fn located_of(list: Seq<Located>) -> Seq<LocatedModel> {
    Seq::new(list.len(), |i: int| list[i]@)
}

/// The entries of a directory, with the slots they take.
#[verifier::spinoff_prover]
pub fn parse_located(dir: &[u8], fat_type: FatType) -> (r: Vec<Located>)
    ensures
        located_of(r@) == listing(dir@, fat_type),
        forall|k: int| 0 <= k < r@.len() ==> (#[trigger] r@[k]).first_slot <= r@[k].slot,
{
    let mut out: Vec<Located> = Vec::new();
    let slots = dir.len() / DIR_ENTRY_SIZE;
    let mut i: usize = 0;
    assert(located_of(out@) =~= listed(dir@, fat_type, 0));
    proof {
        lemma_end_slot(dir@, 0);
    }
    assert(dir.len() == dir@.len());
    while i < slots && dir[32 * i] != ENTRY_END
        invariant
            i <= slots == slot_count(dir@),
            dir@.len() <= usize::MAX,
            end_slot(dir@, 0) == end_slot(dir@, i as int),
            located_of(out@) == listed(dir@, fat_type, i as int),
            forall|k: int| 0 <= k < out@.len() ==> (#[trigger] out@[k]).first_slot <= out@[k].slot,
        decreases slots - i,
    {
        let slot = get_slot(dir, i);
        assert(slot@[0] == dir@[32 * i]);
        if slot[0] != ENTRY_DELETED && slot[11] % 0x40 != ATTR_LONG_NAME && slot[11]
            / ATTR_VOLUME_ID % 2 == 0 {
            let located = read_located(dir, i, fat_type);
            if !is_dots(&located.entry.name) {
                let ghost before = located_of(out@);
                let ghost model = located@;
                out.push(located);
                assert(located_of(out@) =~= before.push(model));
            }
        }
        i += 1;
    }
    out
}

/// Whether a name is `.` or `..`.
#[verifier::spinoff_prover]
fn is_dots(name: &str) -> (r: bool)
    ensures
        r == (name@ == seq!['.'] || name@ == seq!['.', '.']),
{
    let chars = text::chars_of(name);
    if chars.len() == 1 {
        assert(name@ == seq!['.'] <==> chars@[0] == '.') by {
            if chars@[0] == '.' {
                assert(name@ =~= seq!['.']);
            }
        }
        return chars[0] == '.';
    }
    if chars.len() == 2 {
        assert(name@ == seq!['.', '.'] <==> chars@[0] == '.' && chars@[1] == '.') by {
            if chars@[0] == '.' && chars@[1] == '.' {
                assert(name@ =~= seq!['.', '.']);
            }
        }
        return chars[0] == '.' && chars[1] == '.';
    }
    false
}

/// The entries of a directory.
#[verifier::spinoff_prover]
pub fn parse_entries(dir: &[u8], fat_type: FatType) -> (r: Vec<DirEntry>)
    ensures
        r@.len() == listing(dir@, fat_type).len(),
        forall|k: int| 0 <= k < r@.len() ==> (#[trigger] r@[k])@ == listing(dir@, fat_type)[k].entry,
{
    let mut located = parse_located(dir, fat_type);
    let ghost all = located_of(located@);
    let mut out: Vec<DirEntry> = Vec::new();
    let n = located.len();
    while located.len() > 0
        invariant
            located@.len() + out@.len() == all.len(),
            forall|k: int|
                0 <= k < located@.len() ==> (#[trigger] located@[k])@ == all[out@.len() + k],
            forall|k: int| 0 <= k < out@.len() ==> (#[trigger] out@[k])@ == all[k].entry,
        decreases located@.len(),
    {
        let ghost before = located@;
        let first = located.remove(0);
        out.push(first.entry);
        assert forall|k: int| 0 <= k < located@.len() implies (#[trigger] located@[k])@
            == all[out@.len() + k] by {
            assert(located@[k] == before[k + 1]);
        }
    }
    out
}

/// The slots that a directory lists before `to`, from `from` on, and their entries.
#[verifier::spinoff_prover]
proof fn lemma_listed_match(
    dir: Seq<u8>,
    fat_type: FatType,
    name: Seq<char>,
    n: int,
)
    requires
        0 <= n,
    ensures
        forall|k: int|
            0 <= k < listed(dir, fat_type, n).len() ==> 0 <= (#[trigger] listed(
                dir,
                fat_type,
                n,
            )[k]).slot < n,
        match slot_of(dir, name, 0, n) {
            Some(slot) => exists|k: int|
                0 <= k < listed(dir, fat_type, n).len() && (#[trigger] listed(dir, fat_type, n)[k])
                    == located_at(dir, slot, fat_type) && names::same_name(
                    listed(dir, fat_type, n)[k].entry.name,
                    name,
                ) && forall|j: int|
                    0 <= j < k ==> !names::same_name(
                        (#[trigger] listed(dir, fat_type, n)[j]).entry.name,
                        name,
                    ),
            None => forall|k: int|
                0 <= k < listed(dir, fat_type, n).len() ==> !names::same_name(
                    (#[trigger] listed(dir, fat_type, n)[k]).entry.name,
                    name,
                ),
        },
    decreases n,
{
    if n > 0 {
        lemma_listed_match(dir, fat_type, name, n - 1);
        lemma_slot_of_split(dir, name, 0, n - 1);
        let before = listed(dir, fat_type, n - 1);
        let all = listed(dir, fat_type, n);
        assert(forall|k: int| 0 <= k < before.len() ==> all[k] == #[trigger] before[k]);
        if slot_of(dir, name, 0, n - 1) is Some {
            let slot = slot_of(dir, name, 0, n - 1)->0;
            let k = choose|k: int|
                0 <= k < before.len() && (#[trigger] before[k]) == located_at(dir, slot, fat_type)
                    && names::same_name(before[k].entry.name, name) && forall|j: int|
                    0 <= j < k ==> !names::same_name((#[trigger] before[j]).entry.name, name);
            assert(all[k] == before[k]);
            assert forall|j: int| 0 <= j < k implies !names::same_name(
                (#[trigger] all[j]).entry.name,
                name,
            ) by {
                assert(all[j] == before[j]);
            }
        } else if is_listed(dir, n - 1) && names::same_name(name_at(dir, n - 1), name) {
            let k = before.len() as int;
            assert(all[k] == located_at(dir, n - 1, fat_type));
            assert forall|j: int| 0 <= j < k implies !names::same_name(
                (#[trigger] all[j]).entry.name,
                name,
            ) by {
                assert(all[j] == before[j]);
            }
        } else {
            assert forall|j: int| 0 <= j < all.len() implies !names::same_name(
                (#[trigger] all[j]).entry.name,
                name,
            ) by {
                if j < before.len() {
                    assert(all[j] == before[j]);
                }
            }
        }
    }
}

/// The slot for a name among the first slots is that among fewer of them, or the last.
#[verifier::spinoff_prover]
pub proof fn lemma_slot_of_split(dir: Seq<u8>, name: Seq<char>, from: int, n: int)
    requires
        from <= n,
    ensures
        slot_of(dir, name, from, n + 1) == (match slot_of(dir, name, from, n) {
            Some(slot) => Some(slot),
            None => if is_listed(dir, n) && names::same_name(name_at(dir, n), name) {
                Some(n)
            } else {
                None
            },
        }),
    decreases n - from,
{
    if from < n {
        lemma_slot_of_split(dir, name, from + 1, n);
    } else {
        assert(slot_of(dir, name, n + 1, n + 1) is None);
    }
}

/// The entry for `name` in a directory, but for case.
#[verifier::spinoff_prover]
pub fn find_entry(dir: &[u8], fat_type: FatType, name: &str) -> (r: Option<Located>)
    ensures
        match r {
            Some(located) => entry_for(dir@, fat_type, name@) == Some(located@)
                && located.first_slot <= located.slot < slot_count(dir@),
            None => entry_for(dir@, fat_type, name@) is None,
        },
{
    let mut list = parse_located(dir, fat_type);
    let ghost all = listing(dir@, fat_type);
    let ghost originals = list@;
    proof {
        lemma_end_slot(dir@, 0);
        lemma_listed_match(dir@, fat_type, name@, end_slot(dir@, 0));
    }
    let mut i: usize = 0;
    while i < list.len()
        invariant
            i <= list@.len(),
            list@ == originals,
            located_of(originals) == all,
            all == listing(dir@, fat_type),
            0 <= end_slot(dir@, 0) <= slot_count(dir@),
            forall|k: int|
                0 <= k < originals.len() ==> (#[trigger] originals[k]).first_slot
                    <= originals[k].slot,
            forall|k: int|
                0 <= k < all.len() ==> 0 <= (#[trigger] all[k]).slot < end_slot(dir@, 0),
            forall|k: int| 0 <= k < i ==> !names::same_name((#[trigger] all[k]).entry.name, name@),
            match slot_of(dir@, name@, 0, end_slot(dir@, 0)) {
                Some(slot) => exists|k: int|
                    0 <= k < all.len() && (#[trigger] all[k]) == located_at(dir@, slot, fat_type)
                        && names::same_name(all[k].entry.name, name@) && forall|j: int|
                        0 <= j < k ==> !names::same_name((#[trigger] all[j]).entry.name, name@),
                None => forall|k: int|
                    0 <= k < all.len() ==> !names::same_name((#[trigger] all[k]).entry.name, name@),
            },
        decreases list@.len() - i,
    {
        assert(all[i as int] == originals[i as int]@);
        if names_match(&list[i].entry.name, name) {
            let found = list.remove(i);
            return Some(found);
        }
        i += 1;
    }
    None
}

} // verus!
