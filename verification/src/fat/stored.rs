//! The entries that are stored for new files and directories, and where in a directory they
//! go.

use super::entries;
use super::entries::{Stamp, ENTRY_DELETED, ENTRY_END};
use super::names;
use super::names::{
    alias, encode_utf16, exact_short_name, short_name_checksum, ATTR_LONG_NAME, DIR_ENTRY_SIZE,
    LFN_CHARS, LFN_LAST,
};
use crate::bytes;
use vstd::prelude::*;

verus! {

/// The end of an entry: where its data is and how much there is, and when it was changed.
pub open spec fn pointer(cluster: u32, size: u32, stamp: Stamp) -> Seq<u8> {
    bytes::le16_bytes((cluster / 0x1_0000) as u16) + bytes::le16_bytes(stamp.time)
        + bytes::le16_bytes(stamp.date) + bytes::le16_bytes((cluster % 0x1_0000) as u16)
        + bytes::le32_bytes(size)
}

/// The 8.3 entry for a file or directory, created and modified at `stamp`.
pub open spec fn own_entry(
    short: Seq<u8>,
    case: u8,
    attr: u8,
    cluster: u32,
    size: u32,
    stamp: Stamp,
) -> Seq<u8> {
    short + seq![attr, case, 0u8] + bytes::le16_bytes(stamp.time) + bytes::le16_bytes(stamp.date)
        + bytes::le16_bytes(stamp.date) + pointer(cluster, size, stamp)
}

fn push_pointer(out: &mut Vec<u8>, cluster: u32, size: u32, stamp: Stamp)
    ensures
        final(out)@ == old(out)@ + pointer(cluster, size, stamp),
{
    bytes::push_le16(out, (cluster / 0x1_0000) as u16);
    bytes::push_le16(out, stamp.time);
    bytes::push_le16(out, stamp.date);
    bytes::push_le16(out, (cluster % 0x1_0000) as u16);
    bytes::push_le32(out, size);
    assert(out@ =~= old(out)@ + pointer(cluster, size, stamp));
}

/// Appends the 8.3 entry for a file or directory.
pub fn push_own_entry(
    out: &mut Vec<u8>,
    short: &[u8],
    case: u8,
    attr: u8,
    cluster: u32,
    size: u32,
    stamp: Stamp,
)
    ensures
        final(out)@ == old(out)@ + own_entry(short@, case, attr, cluster, size, stamp),
{
    bytes::push_all(out, short);
    out.push(attr);
    out.push(case);
    out.push(0);
    bytes::push_le16(out, stamp.time);
    bytes::push_le16(out, stamp.date);
    bytes::push_le16(out, stamp.date);
    push_pointer(out, cluster, size, stamp);
    assert(out@ =~= old(out)@ + own_entry(short@, case, attr, cluster, size, stamp));
}

/// Points the entry at slot `slot` of a directory at other data.
pub fn repoint(dir: &mut Vec<u8>, slot: usize, cluster: u32, size: u32, stamp: Stamp)
    requires
        slot < entries::slot_count(old(dir)@),
    ensures
        final(dir)@ == bytes::splice(
            old(dir)@,
            32 * slot + 20,
            pointer(cluster, size, stamp),
        ),
        final(dir)@.len() == old(dir)@.len(),
{
    assert(dir.len() == dir@.len());
    let mut tail: Vec<u8> = Vec::new();
    push_pointer(&mut tail, cluster, size, stamp);
    assert(tail@ =~= pointer(cluster, size, stamp));
    bytes::overwrite(dir, 32 * slot + 20, &tail);
}

/// How many pieces a long name of `units` units takes.
pub open spec fn pieces_needed(units: int) -> int {
    (units + 12) / 13
}

/// The units of a long name as they are stored: a terminator if there's room, then padding.
pub open spec fn stored_units(name: Seq<char>) -> Seq<u16> {
    let units = names::utf16(name);
    Seq::new(
        (13 * pieces_needed(units.len() as int)) as nat,
        |i: int|
            if i < units.len() {
                units[i]
            } else if i == units.len() {
                0
            } else {
                0xFFFF
            },
    )
}

/// The bytes of the units from `from` to `to`.
pub open spec fn units_bytes(units: Seq<u16>, from: int, to: int) -> Seq<u8>
    decreases to - from,
{
    if from >= to {
        Seq::empty()
    } else {
        units_bytes(units, from, to - 1) + bytes::le16_bytes(units[to - 1])
    }
}

pub proof fn lemma_units_length(units: Seq<u16>, from: int, to: int)
    requires
        from <= to,
    ensures
        units_bytes(units, from, to).len() == 2 * (to - from),
    decreases to - from,
{
    if from < to {
        lemma_units_length(units, from, to - 1);
    }
}

/// The entry for piece `piece` of a long name, that starts at unit `13 * (piece - 1)`.
pub open spec fn long_entry(units: Seq<u16>, piece: int, last: bool, checksum: u8) -> Seq<u8> {
    let first = 13 * (piece - 1);
    let number = if last {
        (piece + LFN_LAST) as u8
    } else {
        piece as u8
    };
    seq![number] + units_bytes(units, first, first + 5) + seq![ATTR_LONG_NAME, 0u8, checksum]
        + units_bytes(units, first + 5, first + 11) + seq![0u8, 0u8] + units_bytes(
        units,
        first + 11,
        first + 13,
    )
}

/// The entries for the first `n` of a long name's `pieces` pieces, in the order they are stored
/// (last piece first).
pub open spec fn long_entries(units: Seq<u16>, n: int, pieces: int, checksum: u8) -> Seq<u8>
    decreases n,
{
    if n <= 0 {
        Seq::empty()
    } else {
        long_entry(units, n, n == pieces, checksum) + long_entries(units, n - 1, pieces, checksum)
    }
}

/// The entries for `name`: an 8.3 entry if that says it all, else its long name and an alias
/// that none of `taken` is. `None` if there is no such alias.
pub open spec fn new_entries(
    name: Seq<char>,
    taken: Seq<Seq<u8>>,
    attr: u8,
    cluster: u32,
    size: u32,
    stamp: Stamp,
) -> Option<Seq<u8>> {
    match names::exact_short(name) {
        Some((short, case)) => Some(own_entry(short, case, attr, cluster, size, stamp)),
        None => match names::alias_of(name, taken) {
            Some(short) => {
                let pieces = pieces_needed(names::utf16(name).len() as int);
                Some(
                    long_entries(
                        stored_units(name),
                        pieces,
                        pieces,
                        names::short_checksum(short),
                    ) + own_entry(short, 0, attr, cluster, size, stamp),
                )
            },
            None => None,
        },
    }
}

fn push_units(out: &mut Vec<u8>, units: &Vec<u16>, from: usize, to: usize)
    requires
        from <= to <= units@.len(),
    ensures
        final(out)@ == old(out)@ + units_bytes(units@, from as int, to as int),
{
    let mut i: usize = from;
    assert(out@ =~= old(out)@ + units_bytes(units@, from as int, from as int));
    while i < to
        invariant
            from <= i <= to <= units@.len(),
            out@ == old(out)@ + units_bytes(units@, from as int, i as int),
        decreases to - i,
    {
        bytes::push_le16(out, units[i]);
        i += 1;
        assert(out@ =~= old(out)@ + units_bytes(units@, from as int, i as int));
    }
}

/// The units of a long name as they are stored.
fn make_stored_units(name: &str) -> (r: Vec<u16>)
    requires
        names::utf16(name@).len() <= names::MAX_NAME,
    ensures
        r@ == stored_units(name@),
{
    let mut units = encode_utf16(name);
    let n = units.len();
    let total: usize = (n + 12) / LFN_CHARS * LFN_CHARS;
    while units.len() < total
        invariant
            n <= units@.len() <= total,
            n == names::utf16(name@).len(),
            total == 13 * pieces_needed(n as int),
            units@ == stored_units(name@).subrange(0, units@.len() as int),
        decreases total - units@.len(),
    {
        let unit: u16 = if units.len() == n {
            0
        } else {
            0xFFFF
        };
        units.push(unit);
        assert(units@ =~= stored_units(name@).subrange(0, units@.len() as int));
    }
    assert(units@ =~= stored_units(name@));
    units
}

/// The entries for `name`: an 8.3 entry if that says it all, else its long name and an alias
/// that none of `taken` is. `None` if there is no such alias.
pub fn make_entries(
    name: &str,
    taken: &Vec<Vec<u8>>,
    attr: u8,
    cluster: u32,
    size: u32,
    stamp: Stamp,
) -> (r: Option<Vec<u8>>)
    requires
        names::utf16(name@).len() <= names::MAX_NAME,
    ensures
        match r {
            Some(stored) => new_entries(
                name@,
                names::names_of(taken@),
                attr,
                cluster,
                size,
                stamp,
            ) == Some(stored@) && stored@.len() % 32 == 0 && 32 <= stored@.len() <= 672,
            None => new_entries(name@, names::names_of(taken@), attr, cluster, size, stamp) is None,
        },
{
    let mut out: Vec<u8> = Vec::new();
    match exact_short_name(name) {
        Some((short, case)) => {
            push_own_entry(&mut out, &short, case, attr, cluster, size, stamp);
            assert(out@ =~= own_entry(short@, case, attr, cluster, size, stamp));
            return Some(out);
        },
        None => {},
    }
    let short = alias(name, taken)?;
    let checksum = short_name_checksum(&short);
    let units = make_stored_units(name);
    let pieces: usize = units.len() / LFN_CHARS;
    let mut n: usize = pieces;
    let ghost all = long_entries(units@, pieces as int, pieces as int, checksum);
    assert(out@ + all =~= all);
    while n > 0
        invariant
            n <= pieces <= 20,
            units@.len() == 13 * pieces,
            all == out@ + long_entries(units@, n as int, pieces as int, checksum),
            out@.len() == 32 * (pieces - n),
        decreases n,
    {
        let ghost before = out@;
        let number: u8 = if n == pieces {
            n as u8 + LFN_LAST
        } else {
            n as u8
        };
        let first: usize = LFN_CHARS * (n - 1);
        out.push(number);
        push_units(&mut out, &units, first, first + 5);
        out.push(ATTR_LONG_NAME);
        out.push(0);
        out.push(checksum);
        push_units(&mut out, &units, first + 5, first + 11);
        out.push(0);
        out.push(0);
        push_units(&mut out, &units, first + 11, first + 13);
        assert(out@ =~= before + long_entry(units@, n as int, n == pieces, checksum));
        proof {
            lemma_units_length(units@, first as int, first + 5);
            lemma_units_length(units@, first + 5, first + 11);
            lemma_units_length(units@, first + 11, first + 13);
        }
        n -= 1;
        assert(all =~= out@ + long_entries(units@, n as int, pieces as int, checksum));
    }
    assert(out@ =~= all);
    push_own_entry(&mut out, &short, 0, attr, cluster, size, stamp);
    Some(out)
}

/// The 8.3 names in use in the first `n` slots, which a new alias mustn't repeat.
pub open spec fn short_names_in(dir: Seq<u8>, n: int) -> Seq<Seq<u8>>
    decreases n,
{
    if n <= 0 {
        Seq::empty()
    } else {
        let slot = entries::slot_at(dir, n - 1);
        let before = short_names_in(dir, n - 1);
        if slot[0] != ENTRY_DELETED && slot[11] % 0x40 != ATTR_LONG_NAME {
            before.push(slot.subrange(0, 11))
        } else {
            before
        }
    }
}

/// The 8.3 names in use in a directory.
pub open spec fn taken_names(dir: Seq<u8>) -> Seq<Seq<u8>> {
    short_names_in(dir, entries::end_slot(dir, 0))
}

/// The 8.3 names in use in a directory, which a new alias mustn't repeat.
pub fn short_names(dir: &[u8]) -> (r: Vec<Vec<u8>>)
    ensures
        names::names_of(r@) == taken_names(dir@),
{
    let mut out: Vec<Vec<u8>> = Vec::new();
    let slots = dir.len() / DIR_ENTRY_SIZE;
    let mut i: usize = 0;
    assert(names::names_of(out@) =~= Seq::<Seq<u8>>::empty());
    assert(dir.len() == dir@.len());
    while i < slots && dir[32 * i] != ENTRY_END
        invariant
            i <= slots == entries::slot_count(dir@),
            dir@.len() <= usize::MAX,
            entries::end_slot(dir@, 0) == entries::end_slot(dir@, i as int),
            names::names_of(out@) == short_names_in(dir@, i as int),
        decreases slots - i,
    {
        let ghost slot = entries::slot_at(dir@, i as int);
        assert(slot[0] == dir@[32 * i] && slot[11] == dir@[32 * i + 11]);
        if dir[32 * i] != ENTRY_DELETED && dir[32 * i + 11] % 0x40 != ATTR_LONG_NAME {
            let ghost before = names::names_of(out@);
            let name = vstd::slice::slice_to_vec(&dir[32 * i..32 * i + 11]);
            assert(name@ =~= slot.subrange(0, 11));
            out.push(name);
            assert(names::names_of(out@) =~= before.push(slot.subrange(0, 11)));
        }
        i += 1;
    }
    out
}

/// Whether a slot is free: deleted, or after the end marker.
pub open spec fn is_free(dir: Seq<u8>, i: int) -> bool {
    i >= entries::end_slot(dir, 0) || dir[32 * i] == ENTRY_DELETED
}

/// Whether `count` slots from `at` on are there, and free.
pub open spec fn fits_at(dir: Seq<u8>, at: int, count: int) -> bool {
    &&& at + count <= entries::slot_count(dir)
    &&& forall|i: int| at <= i < at + count ==> #[trigger] is_free(dir, i)
}

/// The first place from `from` on where `count` slots are free.
pub open spec fn run_from(dir: Seq<u8>, from: int, count: int) -> Option<int>
    decreases entries::slot_count(dir) - from,
{
    if from + count > entries::slot_count(dir) || from >= entries::slot_count(dir) {
        None
    } else if fits_at(dir, from, count) {
        Some(from)
    } else {
        run_from(dir, from + 1, count)
    }
}

proof fn lemma_run(dir: Seq<u8>, from: int, count: int, at: int)
    requires
        0 <= from <= at < entries::slot_count(dir),
        count > 0,
        forall|a: int| from <= a < at ==> !#[trigger] fits_at(dir, a, count),
        fits_at(dir, at, count),
    ensures
        run_from(dir, from, count) == Some(at),
    decreases at - from,
{
    if from < at {
        lemma_run(dir, from + 1, count, at);
    }
}

proof fn lemma_no_run(dir: Seq<u8>, from: int, count: int)
    requires
        0 <= from,
        count > 0,
        forall|a: int|
            from <= a < entries::slot_count(dir) ==> !#[trigger] fits_at(dir, a, count),
    ensures
        run_from(dir, from, count) is None,
    decreases entries::slot_count(dir) - from,
{
    if from < entries::slot_count(dir) {
        assert(!fits_at(dir, from, count));
        lemma_no_run(dir, from + 1, count);
    }
}

/// Where `count` slots don't fit anywhere, there are fewer after the end.
pub proof fn lemma_no_room(dir: Seq<u8>, from: int, count: int)
    requires
        0 <= from <= entries::end_slot(dir, 0),
        count > 0,
        run_from(dir, from, count) is None,
    ensures
        entries::end_slot(dir, 0) + count > entries::slot_count(dir),
    decreases entries::end_slot(dir, 0) - from,
{
    let end = entries::end_slot(dir, 0);
    if end + count <= entries::slot_count(dir) {
        if from == end {
            assert(fits_at(dir, end, count));
        } else {
            lemma_no_room(dir, from + 1, count);
        }
    }
}

/// Where a run of free slots was found, it is.
pub proof fn lemma_run_fits(dir: Seq<u8>, from: int, count: int)
    requires
        0 <= from,
        count > 0,
    ensures
        run_from(dir, from, count) matches Some(at) ==> from <= at && fits_at(dir, at, count)
            && forall|a: int| from <= a < at ==> !#[trigger] fits_at(dir, a, count),
    decreases entries::slot_count(dir) - from,
{
    if from + count <= entries::slot_count(dir) && from < entries::slot_count(dir) && !fits_at(
        dir,
        from,
        count,
    ) {
        lemma_run_fits(dir, from + 1, count);
    }
}

/// The first run of `count` free slots: deleted ones, or any after the end marker.
pub fn free_run(dir: &[u8], count: usize) -> (r: Option<usize>)
    requires
        0 < count,
    ensures
        match r {
            Some(at) => run_from(dir@, 0, count as int) == Some(at as int),
            None => run_from(dir@, 0, count as int) is None,
        },
{
    let slots = dir.len() / DIR_ENTRY_SIZE;
    let mut run: usize = 0;
    let mut i: usize = 0;
    assert(dir.len() == dir@.len());
    proof {
        entries::lemma_end_slot(dir@, 0);
    }
    let ghost end = entries::end_slot(dir@, 0);
    while i < slots
        invariant
            run <= i <= slots == entries::slot_count(dir@),
            run < count,
            dir@.len() <= usize::MAX,
            end == entries::end_slot(dir@, 0),
            end == entries::end_slot(dir@, i as int),
            i <= end <= slots,
            forall|k: int| i - run <= k < i ==> #[trigger] is_free(dir@, k),
            forall|a: int| 0 <= a < i - run ==> !#[trigger] fits_at(dir@, a, count as int),
        decreases slots - i,
    {
        if dir[32 * i] == ENTRY_END {
            // Everything from here on is free.
            assert(end == i);
            if count <= slots - (i - run) {
                assert(fits_at(dir@, i - run, count as int));
                proof {
                    lemma_run(dir@, 0, count as int, i - run);
                }
                return Some(i - run);
            }
            proof {
                lemma_no_run(dir@, 0, count as int);
            }
            return None;
        }
        if dir[32 * i] == ENTRY_DELETED {
            run += 1;
            assert(is_free(dir@, i as int));
            if run == count {
                assert(fits_at(dir@, i + 1 - count, count as int));
                proof {
                    lemma_run(dir@, 0, count as int, i + 1 - count);
                }
                return Some(i + 1 - count);
            }
        } else {
            proof {
                assert(i < end) by {
                    entries::lemma_end_slot(dir@, i as int);
                }
                assert(!is_free(dir@, i as int));
                assert forall|a: int| 0 <= a < i + 1 implies !#[trigger] fits_at(
                    dir@,
                    a,
                    count as int,
                ) by {
                    if a >= i - run {
                        assert(a <= i < a + count);
                    }
                }
            }
            run = 0;
        }
        i += 1;
        proof {
            entries::lemma_end_slot(dir@, i as int);
        }
    }
    proof {
        assert forall|a: int| 0 <= a < slots implies !#[trigger] fits_at(dir@, a, count as int) by {
            if a >= slots - run {
                assert(a + count > slots);
            }
        }
        lemma_no_run(dir@, 0, count as int);
    }
    None
}

/// An entry as it is stored: its name, attributes and case flags; 0, and when it was created, and
/// used last; the high half of its first cluster, when it was changed, the low half, and its
/// size; the low bytes first.
pub proof fn entries_are_laid_out(
    short: Seq<u8>,
    case: u8,
    attr: u8,
    cluster: u32,
    size: u32,
    stamp: Stamp,
)
    ensures
        ({
            let (t0, t1) = ((stamp.time % 256) as u8, (stamp.time / 256) as u8);
            let (d0, d1) = ((stamp.date % 256) as u8, (stamp.date / 256) as u8);
            own_entry(short, case, attr, cluster, size, stamp) == short + seq![
                attr,
                case,
                0,
                t0,
                t1,
                d0,
                d1,
                d0,
                d1,
                (cluster / 65536 % 256) as u8,
                (cluster / 16777216) as u8,
                t0,
                t1,
                d0,
                d1,
                (cluster % 256) as u8,
                (cluster / 256 % 256) as u8,
                (size % 256) as u8,
                (size / 256 % 256) as u8,
                (size / 65536 % 256) as u8,
                (size / 16777216) as u8,
            ]
        }),
{
    let (t0, t1) = ((stamp.time % 256) as u8, (stamp.time / 256) as u8);
    let (d0, d1) = ((stamp.date % 256) as u8, (stamp.date / 256) as u8);
    let high = (cluster / 65536) as u16;
    let low = (cluster % 65536) as u16;
    assert(cluster / 65536 / 256 == cluster / 16777216 && cluster % 65536 % 256 == cluster % 256
        && cluster % 65536 / 256 == cluster / 256 % 256) by (bit_vector);
    assert(own_entry(short, case, attr, cluster, size, stamp) =~= short + seq![
        attr,
        case,
        0,
        t0,
        t1,
        d0,
        d1,
        d0,
        d1,
        (cluster / 65536 % 256) as u8,
        (cluster / 16777216) as u8,
        t0,
        t1,
        d0,
        d1,
        (cluster % 256) as u8,
        (cluster / 256 % 256) as u8,
        (size % 256) as u8,
        (size / 256 % 256) as u8,
        (size / 65536 % 256) as u8,
        (size / 16777216) as u8,
    ]);
}

} // verus!
