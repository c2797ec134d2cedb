//! What directories list before a change and after it: every entry where it was, but for the one
//! that is added, changed or removed.

use super::change;
use super::change::{ImageModel, Volume};
use super::cuts;
use super::entries;
use super::entries::{EntryModel, FatType};
use super::laws;
use super::names;
use super::others;
use super::paths;
use super::stored;
use super::volume;
use super::volume::{Dir, Disk, Fault, Layout};
use crate::bytes;
use crate::text;
use vstd::prelude::*;

verus! {

/// The entries in slots `from` to `to` of a directory.
pub open spec fn entries_in(dir: Seq<u8>, fat_type: FatType, from: int, to: int) -> Seq<EntryModel>
    decreases to - from,
{
    if to <= from {
        Seq::empty()
    } else {
        let before = entries_in(dir, fat_type, from, to - 1);
        if entries::is_listed(dir, to - 1) {
            before.push(entries::located_at(dir, to - 1, fat_type).entry)
        } else {
            before
        }
    }
}

/// The entries that a directory lists.
pub open spec fn shown(dir: Seq<u8>, fat_type: FatType) -> Seq<EntryModel> {
    entries_in(dir, fat_type, 0, entries::end_slot(dir, 0))
}

/// What a directory shows is what its listing holds.
pub proof fn lemma_shown(dir: Seq<u8>, fat_type: FatType, n: int)
    ensures
        entries_in(dir, fat_type, 0, n).len() == entries::listed(dir, fat_type, n).len(),
        forall|k: int|
            0 <= k < entries_in(dir, fat_type, 0, n).len() ==> #[trigger] entries_in(
                dir,
                fat_type,
                0,
                n,
            )[k] == entries::listed(dir, fat_type, n)[k].entry,
    decreases n,
{
    if n > 0 {
        lemma_shown(dir, fat_type, n - 1);
        let before = entries_in(dir, fat_type, 0, n - 1);
        let all = entries_in(dir, fat_type, 0, n);
        assert forall|k: int| 0 <= k < all.len() implies #[trigger] all[k] == entries::listed(
            dir,
            fat_type,
            n,
        )[k].entry by {
            if k < before.len() {
                assert(all[k] == before[k]);
            }
        }
    }
}

proof fn lemma_in_two(dir: Seq<u8>, fat_type: FatType, a: int, b: int, c: int)
    requires
        a <= b <= c,
    ensures
        entries_in(dir, fat_type, a, c) == entries_in(dir, fat_type, a, b) + entries_in(
            dir,
            fat_type,
            b,
            c,
        ),
    decreases c - b,
{
    if b < c {
        lemma_in_two(dir, fat_type, a, b, c - 1);
        let x = entries_in(dir, fat_type, a, b);
        let y = entries_in(dir, fat_type, b, c - 1);
        let e = entries::located_at(dir, c - 1, fat_type).entry;
        assert((x + y).push(e) =~= x + y.push(e));
    } else {
        assert(entries_in(dir, fat_type, a, b) + Seq::<EntryModel>::empty() =~= entries_in(
            dir,
            fat_type,
            a,
            b,
        ));
    }
}

/// Whether a slot says the same in two directories.
pub open spec fn slot_same(x: Seq<u8>, y: Seq<u8>, i: int) -> bool {
    &&& entries::is_listed(x, i) == entries::is_listed(y, i)
    &&& entries::name_at(x, i) == entries::name_at(y, i)
    &&& entries::slot_at(x, i) == entries::slot_at(y, i)
}

proof fn lemma_same_part(x: Seq<u8>, y: Seq<u8>, fat_type: FatType, from: int, to: int)
    requires
        forall|i: int| from <= i < to ==> #[trigger] slot_same(x, y, i),
    ensures
        entries_in(x, fat_type, from, to) == entries_in(y, fat_type, from, to),
    decreases to - from,
{
    if from < to {
        lemma_same_part(x, y, fat_type, from, to - 1);
        assert(slot_same(x, y, to - 1));
    }
}

/// Slots that list nothing.
proof fn lemma_nothing_in(dir: Seq<u8>, fat_type: FatType, from: int, to: int)
    requires
        forall|i: int| from <= i < to ==> !entries::is_own(#[trigger] entries::slot_at(dir, i)),
    ensures
        entries_in(dir, fat_type, from, to) == Seq::<EntryModel>::empty(),
    decreases to - from,
{
    if from < to {
        lemma_nothing_in(dir, fat_type, from, to - 1);
        assert(!entries::is_own(entries::slot_at(dir, to - 1)));
    }
}

/// What two directories show that differ in some slots only.
proof fn lemma_around(x: Seq<u8>, y: Seq<u8>, fat_type: FatType, from: int, to: int, n: int)
    requires
        0 <= from <= to <= n <= entries::slot_count(x),
        x.len() == y.len(),
        forall|j: int|
            0 <= j < entries::slot_count(x) && !(from <= j < to) ==> #[trigger] entries::slot_at(
                x,
                j,
            ) == entries::slot_at(y, j),
        from < to < n ==> !entries::is_long(entries::slot_at(x, to - 1)) && !entries::is_long(
            entries::slot_at(y, to - 1),
        ),
    ensures
        entries_in(y, fat_type, 0, from) == entries_in(x, fat_type, 0, from),
        entries_in(y, fat_type, to, n) == entries_in(x, fat_type, to, n),
        entries_in(x, fat_type, 0, n) == entries_in(x, fat_type, 0, from) + entries_in(
            x,
            fat_type,
            from,
            to,
        ) + entries_in(x, fat_type, to, n),
        entries_in(y, fat_type, 0, n) == entries_in(x, fat_type, 0, from) + entries_in(
            y,
            fat_type,
            from,
            to,
        ) + entries_in(x, fat_type, to, n),
{
    assert forall|i: int| 0 <= i < from implies #[trigger] slot_same(x, y, i) by {
        others::lemma_name_kept(x, y, from, to, i);
        assert(entries::slot_at(x, i) == entries::slot_at(y, i));
    }
    assert forall|i: int| to <= i < n implies #[trigger] slot_same(x, y, i) by {
        others::lemma_name_kept(x, y, from, to, i);
        assert(entries::slot_at(x, i) == entries::slot_at(y, i));
    }
    lemma_same_part(x, y, fat_type, 0, from);
    lemma_same_part(x, y, fat_type, to, n);
    lemma_in_two(x, fat_type, 0, from, to);
    lemma_in_two(x, fat_type, 0, to, n);
    lemma_in_two(y, fat_type, 0, from, to);
    lemma_in_two(y, fat_type, 0, to, n);
}

/// One slot that lists an entry, after slots that list nothing.
proof fn lemma_one_in(dir: Seq<u8>, fat_type: FatType, from: int, slot: int)
    requires
        from <= slot,
        forall|i: int| from <= i < slot ==> !entries::is_own(#[trigger] entries::slot_at(dir, i)),
        entries::is_listed(dir, slot),
    ensures
        entries_in(dir, fat_type, from, slot + 1) == seq![
            entries::located_at(dir, slot, fat_type).entry,
        ],
{
    lemma_nothing_in(dir, fat_type, from, slot);
    assert(Seq::<EntryModel>::empty().push(entries::located_at(dir, slot, fat_type).entry) =~= seq![
        entries::located_at(dir, slot, fat_type).entry,
    ]);
}

/// Whether `now` is `before` without `entry`.
pub open spec fn one_out(before: Seq<EntryModel>, now: Seq<EntryModel>, entry: EntryModel) -> bool {
    exists|i: int|
        0 <= i < before.len() && #[trigger] before[i] == entry && now == before.remove(i)
}

/// What a directory shows without the entry for a name.
pub proof fn lemma_shown_without(dir: Seq<u8>, fat_type: FatType, name: Seq<char>)
    requires
        entries::entry_for(dir, fat_type, name) is Some,
    ensures
        ({
            let located = entries::entry_for(dir, fat_type, name)->0;
            let after = change::with_deleted(dir, located.first_slot, located.slot + 1);
            one_out(shown(dir, fat_type), shown(after, fat_type), located.entry)
        }),
{
    let end = entries::end_slot(dir, 0);
    entries::lemma_end_slot(dir, 0);
    laws::lemma_slot_first(dir, name, 0, end);
    let located = entries::entry_for(dir, fat_type, name)->0;
    let slot = located.slot;
    let from = located.first_slot;
    entries::lemma_pieces(dir, slot, 1);
    let after = change::with_deleted(dir, from, slot + 1);
    laws::lemma_deleted(dir, from, slot + 1);
    let count = entries::slot_count(dir);
    assert forall|j: int| 0 <= j < count && !(from <= j < slot + 1) implies #[trigger] entries::slot_at(
        dir,
        j,
    ) == entries::slot_at(after, j) by {
        assert(entries::slot_at(dir, j) =~= entries::slot_at(after, j));
    }
    assert forall|j: int| from <= j < slot implies !entries::is_own(
        #[trigger] entries::slot_at(dir, j),
    ) by {
        laws::lemma_pieces_there(dir, slot, 1, slot - j);
        assert(entries::is_piece(dir, slot, slot - j));
    }
    assert forall|j: int| from <= j < slot + 1 implies !entries::is_own(
        #[trigger] entries::slot_at(after, j),
    ) && !entries::is_long(entries::slot_at(after, j)) by {
        assert(entries::slot_at(after, j)[0] == after[32 * j]);
    }
    lemma_one_in(dir, fat_type, from, slot);
    lemma_nothing_in(after, fat_type, from, slot + 1);
    lemma_end_same(dir, after, end);
    lemma_around(dir, after, fat_type, from, slot + 1, end);
    let a = entries_in(dir, fat_type, 0, from);
    let b = entries_in(dir, fat_type, slot + 1, end);
    let i = a.len() as int;
    assert(shown(dir, fat_type)[i] == located.entry);
    assert(shown(after, fat_type) =~= shown(dir, fat_type).remove(i));
}

/// A directory ends where it did if no slot before is an end marker, and the marker stays.
pub proof fn lemma_end_same(dir: Seq<u8>, after: Seq<u8>, end: int)
    requires
        after.len() == dir.len(),
        end == entries::end_slot(dir, 0),
        forall|j: int| 0 <= j < end ==> after[#[trigger] (32 * j)] != entries::ENTRY_END,
        end < entries::slot_count(dir) ==> after[32 * end] == dir[32 * end],
    ensures
        entries::end_slot(after, 0) == end,
{
    entries::lemma_end_slot(dir, 0);
    laws::lemma_end_after(after, 0, end);
    assert(entries::end_slot(after, end) == end);
}

/// What a directory shows once the entry for a name points at other data: every entry where it
/// was, and of that one the name, the kind, and all that is stored before the pointer.
pub proof fn lemma_shown_repointed(
    dir: Seq<u8>,
    fat_type: FatType,
    name: Seq<char>,
    cluster: u32,
    size: u32,
    stamp: entries::Stamp,
)
    requires
        entries::entry_for(dir, fat_type, name) is Some,
        (entries::entry_for(dir, fat_type, name)->0).entry.kind == entries::EntryKind::File,
        fat_type == FatType::Fat16 ==> cluster < 0x1_0000,
    ensures
        ({
            let located = entries::entry_for(dir, fat_type, name)->0;
            let slot = located.slot;
            let after = bytes::splice(dir, 32 * slot + 20, stored::pointer(cluster, size, stamp));
            let found = entries::located_at(after, slot, fat_type).entry;
            &&& found.name == located.entry.name
            &&& found.kind == located.entry.kind
            &&& entries::slot_at(after, slot).subrange(0, 20) == entries::slot_at(
                dir,
                slot,
            ).subrange(0, 20)
            &&& exists|i: int|
                {
                    &&& 0 <= i < shown(dir, fat_type).len()
                    &&& #[trigger] shown(dir, fat_type)[i] == located.entry
                    &&& shown(after, fat_type) == shown(dir, fat_type).update(i, found)
                }
        }),
{
    let end = entries::end_slot(dir, 0);
    entries::lemma_end_slot(dir, 0);
    laws::lemma_slot_first(dir, name, 0, end);
    let located = entries::entry_for(dir, fat_type, name)->0;
    let slot = located.slot;
    let after = bytes::splice(dir, 32 * slot + 20, stored::pointer(cluster, size, stamp));
    let count = entries::slot_count(dir);
    let found = entries::located_at(after, slot, fat_type).entry;
    assert forall|i: int| 0 <= i < count implies laws::same_head(
        #[trigger] entries::slot_at(dir, i),
        entries::slot_at(after, i),
    ) && (i != slot ==> entries::slot_at(dir, i) == entries::slot_at(after, i)) by {
        let x = entries::slot_at(dir, i);
        let y = entries::slot_at(after, i);
        assert(x.subrange(0, 20) =~= y.subrange(0, 20));
        if i != slot {
            assert(x =~= y);
        }
    }
    laws::lemma_names_alike(dir, after, count, slot);
    laws::lemma_heads(entries::slot_at(dir, slot), entries::slot_at(after, slot));
    assert(entries::slot_at(dir, slot)[11] == entries::slot_at(dir, slot).subrange(0, 20)[11]);
    assert(entries::slot_at(after, slot)[11] == entries::slot_at(after, slot).subrange(0, 20)[11]);
    assert forall|j: int| 0 <= j < end implies after[#[trigger] (32 * j)] != entries::ENTRY_END by {
        assert(dir[32 * j] != entries::ENTRY_END);
    }
    lemma_end_same(dir, after, end);
    lemma_one_in(dir, fat_type, slot, slot);
    lemma_one_in(after, fat_type, slot, slot);
    lemma_around(dir, after, fat_type, slot, slot + 1, end);
    let i = entries_in(dir, fat_type, 0, slot).len() as int;
    assert(shown(dir, fat_type)[i] == located.entry);
    assert(shown(after, fat_type) =~= shown(dir, fat_type).update(i, found));
}

/// What a directory shows once entries for a new name are stored: one entry more.
#[verifier::spinoff_prover]
pub proof fn lemma_shown_added(
    dir: Seq<u8>,
    fat_type: FatType,
    name: Seq<char>,
    taken: Seq<Seq<u8>>,
    attr: u8,
    cluster: u32,
    size: u32,
    stamp: entries::Stamp,
    at: int,
)
    requires
        laws::plain_name(name),
        attr == entries::ATTR_ARCHIVE || attr == entries::ATTR_DIRECTORY,
        fat_type == FatType::Fat16 ==> cluster < 0x1_0000,
        stored::new_entries(name, taken, attr, cluster, size, stamp) is Some,
        entries::entry_for(dir, fat_type, name) is None,
        laws::no_stray_pieces(dir),
        cuts::tidy(dir),
        0 <= at <= entries::end_slot(dir, 0),
        ({
            let new = stored::new_entries(name, taken, attr, cluster, size, stamp)->0;
            stored::fits_at(dir, at, new.len() as int / 32)
        }),
    ensures
        ({
            let new = stored::new_entries(name, taken, attr, cluster, size, stamp)->0;
            let after = bytes::splice(dir, 32 * at, new);
            let found = entries::entry_for(after, fat_type, name);
            &&& found is Some
            &&& (found->0).entry.name == name
            &&& cuts::tidy(after)
            &&& exists|i: int|
                {
                    &&& 0 <= i <= shown(dir, fat_type).len()
                    &&& shown(after, fat_type) == #[trigger] shown(dir, fat_type).insert(
                        i,
                        (found->0).entry,
                    )
                }
        }),
{
    let new = stored::new_entries(name, taken, attr, cluster, size, stamp)->0;
    let after = bytes::splice(dir, 32 * at, new);
    let m = laws::made(name, taken);
    let pieces = m.pieces;
    let own = stored::own_entry(m.short, m.case, attr, cluster, size, stamp);
    let units = stored::stored_units(name);
    let checksum = names::short_checksum(m.short);
    laws::lemma_made(name, taken, attr, cluster, size, stamp);
    laws::lemma_own_entry(m.short, m.case, attr, cluster, size, stamp);
    assert(new.len() == 32 * (pieces + 1));
    laws::lemma_placed(dir, at, pieces, units, checksum, own);
    laws::lemma_entries_found(dir, fat_type, name, taken, attr, cluster, size, stamp, at);
    let slot = at + pieces;
    let to = slot + 1;
    let end = entries::end_slot(dir, 0);
    let count = entries::slot_count(dir);
    entries::lemma_end_slot(dir, 0);
    laws::lemma_slot_first(after, name, 0, entries::end_slot(after, 0));
    let found = entries::entry_for(after, fat_type, name)->0;
    assert(found.slot == slot);
    assert(entries::is_listed(after, slot));
    lemma_slots_added(dir, after, at, pieces, units, checksum, own);
    lemma_shown_inserted(dir, after, fat_type, at, slot);
}

#[verifier::spinoff_prover]
proof fn lemma_shown_inserted(dir: Seq<u8>, after: Seq<u8>, fat_type: FatType, at: int, slot: int)
    requires
        0 <= at <= entries::end_slot(dir, 0),
        at <= slot < entries::slot_count(dir),
        after.len() == dir.len(),
        cuts::tidy(dir),
        forall|j: int|
            0 <= j < entries::slot_count(dir) && !(at <= j < slot + 1) ==> #[trigger] entries::slot_at(
                dir,
                j,
            ) == entries::slot_at(after, j),
        forall|j: int|
            at <= j < slot + 1 ==> !entries::is_own(#[trigger] entries::slot_at(dir, j))
                && !entries::is_long(entries::slot_at(dir, j)),
        forall|j: int|
            at <= j < slot ==> !entries::is_own(#[trigger] entries::slot_at(after, j)),
        !entries::is_long(entries::slot_at(after, slot)),
        entries::is_listed(after, slot),
        forall|j: int|
            0 <= j < slot + 1 || j < entries::end_slot(dir, 0) && 0 <= j ==> after[
            #[trigger] (32 * j)] != entries::ENTRY_END,
    ensures
        cuts::tidy(after),
        exists|i: int|
            {
                &&& 0 <= i <= shown(dir, fat_type).len()
                &&& shown(after, fat_type) == #[trigger] shown(dir, fat_type).insert(
                    i,
                    entries::located_at(after, slot, fat_type).entry,
                )
            },
{
    let to = slot + 1;
    let end = entries::end_slot(dir, 0);
    let count = entries::slot_count(dir);
    entries::lemma_end_slot(dir, 0);
    lemma_one_in(after, fat_type, at, slot);
    lemma_nothing_in(dir, fat_type, at, to);
    let last = if to <= end {
        end
    } else {
        to
    };
    assert forall|i: int| last <= i < count implies #[trigger] cuts::unused(after, i) by {
        assert(cuts::unused(dir, i));
        assert(entries::slot_at(dir, i)[0] == dir[32 * i]);
        assert(entries::slot_at(after, i)[0] == after[32 * i]);
    }
    laws::lemma_end_after(after, 0, last);
    assert(entries::end_slot(after, last) == last) by {
        if last < count {
            assert(cuts::unused(after, last));
        }
    }
    lemma_around(dir, after, fat_type, at, to, last);
    if to > end {
        lemma_in_two(dir, fat_type, 0, at, end);
        lemma_nothing_in(dir, fat_type, at, end);
        assert(entries_in(dir, fat_type, to, to) =~= Seq::<EntryModel>::empty());
    }
    let e = entries::located_at(after, slot, fat_type).entry;
    let i = entries_in(dir, fat_type, 0, at).len() as int;
    assert(shown(after, fat_type) =~= shown(dir, fat_type).insert(i, e));
}

/// What the slots hold that new entries are stored in, before and after.
pub proof fn lemma_slots_added(
    dir: Seq<u8>,
    after: Seq<u8>,
    at: int,
    pieces: int,
    units: Seq<u16>,
    checksum: u8,
    own: Seq<u8>,
)
    requires
        0 <= pieces <= 20,
        units.len() >= 13 * pieces,
        0 <= at <= entries::end_slot(dir, 0),
        at + pieces < entries::slot_count(dir),
        after.len() == dir.len(),
        forall|i: int|
            0 <= i < dir.len() && !(32 * at <= i < 32 * (at + pieces + 1)) ==> #[trigger] after[i]
                == dir[i],
        stored::fits_at(dir, at, pieces + 1),
        laws::placed(after, at, pieces, units, checksum, own),
        entries::is_own(own),
        cuts::tidy(dir),
    ensures
        forall|j: int|
            0 <= j < entries::slot_count(dir) && !(at <= j < at + pieces + 1)
                ==> #[trigger] entries::slot_at(dir, j) == entries::slot_at(after, j),
        forall|j: int|
            at <= j < at + pieces + 1 ==> !entries::is_own(#[trigger] entries::slot_at(dir, j))
                && !entries::is_long(entries::slot_at(dir, j)),
        forall|j: int|
            at <= j < at + pieces ==> !entries::is_own(#[trigger] entries::slot_at(after, j)),
        !entries::is_long(entries::slot_at(after, at + pieces)),
        forall|j: int|
            0 <= j < at + pieces + 1 || j < entries::end_slot(dir, 0) && 0 <= j ==> after[
            #[trigger] (32 * j)] != entries::ENTRY_END,
{
    let end = entries::end_slot(dir, 0);
    entries::lemma_end_slot(dir, 0);
    assert forall|j: int|
        0 <= j < entries::slot_count(dir) && !(at <= j < at + pieces + 1) implies #[trigger] entries::slot_at(
        dir,
        j,
    ) == entries::slot_at(after, j) by {
        assert(entries::slot_at(dir, j) =~= entries::slot_at(after, j));
    }
    assert forall|j: int| at <= j < at + pieces + 1 implies !entries::is_own(
        #[trigger] entries::slot_at(dir, j),
    ) && !entries::is_long(entries::slot_at(dir, j)) by {
        assert(stored::is_free(dir, j));
        assert(entries::slot_at(dir, j)[0] == dir[32 * j]);
        if j >= end {
            assert(cuts::unused(dir, j));
        }
    }
    assert forall|j: int| at <= j < at + pieces implies !entries::is_own(
        #[trigger] entries::slot_at(after, j),
    ) && entries::slot_at(after, j)[0] != entries::ENTRY_END by {
        let k = j - at;
        assert(entries::slot_at(after, at + k) == stored::long_entry(
            units,
            pieces - k,
            pieces - k == pieces,
            checksum,
        ));
        laws::lemma_long_entry(units, pieces - k, pieces - k == pieces, checksum);
    }
    assert forall|j: int|
        0 <= j < at + pieces + 1 || j < end && 0 <= j implies after[#[trigger] (32 * j)]
        != entries::ENTRY_END by {
        assert(entries::slot_at(after, j)[0] == after[32 * j]);
        if at <= j < at + pieces {
        } else if j == at + pieces {
            assert(entries::slot_at(after, j) == own);
        } else {
            assert(dir[32 * j] != entries::ENTRY_END);
            assert(entries::slot_at(dir, j)[0] == dir[32 * j]);
            assert(entries::slot_at(dir, j) == entries::slot_at(after, j));
        }
    }
}

/// A directory that grew shows what it showed.
proof fn lemma_shown_grown(dir: Seq<u8>, fat_type: FatType, zeros: nat)
    requires
        dir.len() % 512 == 0,
        zeros % 32 == 0,
        32 * entries::end_slot(dir, 0) < dir.len() + zeros,
    ensures
        shown(dir + bytes::zeros(zeros), fat_type) == shown(dir, fat_type),
{
    let more = dir + bytes::zeros(zeros);
    let end = entries::end_slot(dir, 0);
    let n = entries::slot_count(dir);
    entries::lemma_end_slot(dir, 0);
    laws::lemma_grown_slots(dir, zeros);
    laws::lemma_grown_end(dir, zeros);
    assert forall|i: int| 0 <= i < end implies #[trigger] slot_same(dir, more, i) by {
        laws::lemma_names_alike(dir, more, n, i);
        assert(entries::slot_at(more, i) == entries::slot_at(dir, i));
    }
    lemma_same_part(dir, more, fat_type, 0, end);
}

/// What a directory shows once a file or directory is added to it.
#[verifier::rlimit(40)]
#[verifier::spinoff_prover]
pub proof fn lemma_added_shown(
    v: Volume,
    w: Volume,
    new: Seq<u32>,
    dir: Dir,
    places: Seq<int>,
    name: Seq<char>,
    data: Seq<u8>,
    first: u32,
    attr: u8,
    size: u32,
)
    requires
        laws::sound(v.layout, v.disk),
        laws::put_in(v, w, new, data),
        laws::plain_name(name),
        attr == entries::ATTR_ARCHIVE || attr == entries::ATTR_DIRECTORY,
        v.layout.fat_type == FatType::Fat16 ==> first < 0x1_0000,
        v.layout.dir_sectors(v.disk, dir) == Ok::<Seq<int>, Fault>(places),
        entries::entry_for(
            v.layout.bytes_at(v.disk, places),
            v.layout.fat_type,
            name,
        ) is None,
        laws::no_stray_pieces(v.layout.bytes_at(v.disk, places)),
        cuts::tidy(v.layout.bytes_at(v.disk, places)),
        w.entry_added(
            dir,
            (ImageModel { places, bytes: v.layout.bytes_at(v.disk, places) }),
            name,
            attr,
            first,
            size,
        ).0 is Ok,
    ensures
        ({
            let layout = v.layout;
            let held = layout.bytes_at(v.disk, places);
            let now = laws::dir_with(
                w,
                dir,
                (ImageModel { places, bytes: held }),
                name,
                attr,
                first,
                size,
            );
            let found = entries::entry_for(now, layout.fat_type, name);
            &&& found is Some
            &&& (found->0).entry.name == name
            &&& cuts::tidy(now)
            &&& exists|i: int|
                {
                    &&& 0 <= i <= shown(held, layout.fat_type).len()
                    &&& shown(now, layout.fat_type) == #[trigger] shown(
                        held,
                        layout.fat_type,
                    ).insert(i, (found->0).entry)
                }
        }),
{
    let layout = v.layout;
    let d = v.disk;
    let held = layout.bytes_at(d, places);
    let image = ImageModel { places, bytes: held };
    let taken = stored::taken_names(held);
    let made = stored::new_entries(name, taken, attr, first, size, w.stamp)->0;
    let count = made.len() as int / 32;
    laws::lemma_made(name, taken, attr, first, size, w.stamp);
    assert(made.len() == 32 * (laws::made(name, taken).pieces + 1));
    match stored::run_from(held, 0, count) {
        Some(at) => {
            stored::lemma_run_fits(held, 0, count);
            laws::lemma_run_place(held, count);
            lemma_shown_added(
                held,
                layout.fat_type,
                name,
                taken,
                attr,
                first,
                size,
                w.stamp,
                at,
            );
        },
        None => {
            laws::lemma_dir_sectors(layout, d, dir);
            laws::lemma_dir_unchanged(v, w, new, data, dir);
            laws::lemma_held_length(layout, d, places);
            entries::lemma_end_slot(held, 0);
            stored::lemma_no_room(held, 0, count);
            laws::lemma_dir_grown(w, dir, places, count);
            let (result, g) = w.dir_grown(dir, image, count);
            let (at, more) = result->Ok_0;
            let by = w.clusters_for(32 * (count - (entries::slot_count(held) - at)));
            let zeros = (by * layout.cluster_bytes()) as nat;
            laws::lemma_multiple(by, layout.sectors_per_cluster as int);
            laws::lemma_grown_dir(held, layout.fat_type, name, zeros, count);
            cuts::lemma_grown_tidy(held, zeros);
            lemma_shown_grown(held, layout.fat_type, zeros);
            lemma_shown_added(
                more.bytes,
                layout.fat_type,
                name,
                taken,
                attr,
                first,
                size,
                w.stamp,
                at,
            );
        },
    }
}

/// What the directory at a path lists.
pub open spec fn shown_of(layout: Layout, disk: Disk, path: Seq<char>) -> Result<
    Seq<EntryModel>,
    Fault,
> {
    match layout.dir_of(disk, path) {
        Ok(dir) => match layout.dir_bytes(disk, dir) {
            Ok(held) => Ok(shown(held, layout.fat_type)),
            Err(fault) => Err(fault),
        },
        Err(fault) => Err(fault),
    }
}

/// What a directory lists at a path is what it shows, entry by entry.
pub proof fn listings_are_what_is_shown(layout: Layout, disk: Disk, path: Seq<char>)
    ensures
        match layout.list_of(disk, path) {
            Ok(list) => shown_of(layout, disk, path) matches Ok(all) && all.len() == list.len()
                && forall|k: int| 0 <= k < all.len() ==> #[trigger] all[k] == list[k].entry,
            Err(fault) => shown_of(layout, disk, path) == Err::<Seq<EntryModel>, Fault>(fault),
        },
{
    if let Ok(dir) = layout.dir_of(disk, path) {
        if let Ok(held) = layout.dir_bytes(disk, dir) {
            lemma_shown(held, layout.fat_type, entries::end_slot(held, 0));
        }
    }
}

/// Once a change is finished, a directory that holds `now` is found, and shows that.
pub proof fn lemma_finished_shown(
    v: Volume,
    z: Volume,
    dir: Dir,
    parent: Seq<char>,
    touched: Seq<int>,
    now: Seq<u8>,
)
    requires
        laws::sound(v.layout, v.disk),
        z.layout == v.layout,
        laws::sound(v.layout, z.disk),
        laws::spared(v.layout, v.disk, z.disk, touched),
        v.layout.dir_of(v.disk, parent) == Ok::<Dir, Fault>(dir),
        laws::way_clear(
            v.layout,
            v.disk,
            Dir::Root,
            text::pieces_from(parent, 0, '/'),
            touched,
        ),
        v.layout.dir_bytes(z.disk, dir) == Ok::<Seq<u8>, Fault>(now),
    ensures
        v.layout.dir_of(z.finished().disk, parent) == Ok::<Dir, Fault>(dir),
        v.layout.dir_bytes(z.finished().disk, dir) == Ok::<Seq<u8>, Fault>(now),
        shown_of(v.layout, z.finished().disk, parent) == Ok::<Seq<EntryModel>, Fault>(
            shown(now, v.layout.fat_type),
        ),
{
    laws::lemma_finished(z);
    laws::lemma_fat_end(v.layout);
    laws::lemma_bytes_kept(v.layout, z.disk, z.finished().disk, dir);
    laws::lemma_finished_spared(v, z, dir, parent, touched);
}

/// What the directory holds that a file is written in, and how it shows it.
pub open spec fn shows_written(
    v: Volume,
    held: Seq<u8>,
    now: Seq<u8>,
    name: Seq<char>,
    data: Seq<u8>,
) -> bool {
    let fat_type = v.layout.fat_type;
    let before = shown(held, fat_type);
    &&& entries::entry_for(now, fat_type, name) matches Some(found)
    &&& found.entry.kind == entries::EntryKind::File
    &&& found.entry.size == data.len()
    &&& match entries::entry_for(held, fat_type, name) {
        Some(located) => found.entry.name == located.entry.name && exists|i: int|
            0 <= i < before.len() && #[trigger] before[i] == located.entry && shown(now, fat_type)
                == before.update(i, found.entry),
        None => found.entry.name == name && exists|i: int|
            0 <= i <= before.len() && shown(now, fat_type) == #[trigger] before.insert(
                i,
                found.entry,
            ),
    }
}

/// What the directory holds once a file in it is replaced.
#[verifier::spinoff_prover]
proof fn lemma_replaced_shown(v: Volume, dir: Dir, places: Seq<int>, name: Seq<char>, data: Seq<u8>)
    requires
        laws::sound(v.layout, v.disk),
        data.len() <= u32::MAX,
        v.layout.dir_sectors(v.disk, dir) == Ok::<Seq<int>, Fault>(places),
        ({
            let held = v.layout.bytes_at(v.disk, places);
            let old = laws::old_start(v, held, name);
            &&& entries::entry_for(held, v.layout.fat_type, name) is Some
            &&& old != 0 ==> v.layout.chain(v.disk, old) is Ok
            &&& laws::apart(places, laws::sectors_from(v.layout, v.disk, old))
            &&& v.file_put(dir, (ImageModel { places, bytes: held }), name, data).0 is Ok
        }),
    ensures
        ({
            let held = v.layout.bytes_at(v.disk, places);
            let z = v.file_put(dir, (ImageModel { places, bytes: held }), name, data).1;
            v.layout.dir_bytes(z.disk, dir) matches Ok(now) && shows_written(
                v,
                held,
                now,
                name,
                data,
            )
        }),
{
    let layout = v.layout;
    let held = layout.bytes_at(v.disk, places);
    let image = ImageModel { places, bytes: held };
    let b = v.begun();
    let w = b.chain_written(data).1;
    let first = b.chain_written(data).0->Ok_0;
    let new = laws::clusters_taken(b, data);
    let size = data.len() as u32;
    let located = entries::entry_for(held, layout.fat_type, name)->0;
    let old = located.entry.first_cluster.0;
    laws::lemma_chain_written(b, data);
    let changed = cuts::pointed(image, located.slot, first, size, v.stamp);
    let x = w.dir_stored(changed, located.slot, located.slot + 1);
    laws::lemma_repointed_disk(b, w, new, dir, places, name, data, first);
    laws::lemma_freed_after(b, x, new, dir, places, changed.bytes, data, old);
    assert(v.file_put(dir, image, name, data).1 == x.chain_freed(old).1);
    lemma_shown_repointed(held, layout.fat_type, name, first, size, v.stamp);
    lemma_repointed_slot(held, layout.fat_type, name, first, size, v.stamp);
}

/// What the directory holds once a file is new in it.
#[verifier::spinoff_prover]
proof fn lemma_new_shown(v: Volume, dir: Dir, places: Seq<int>, name: Seq<char>, data: Seq<u8>)
    requires
        laws::sound(v.layout, v.disk),
        laws::plain_name(name),
        data.len() <= u32::MAX,
        v.layout.dir_sectors(v.disk, dir) == Ok::<Seq<int>, Fault>(places),
        ({
            let held = v.layout.bytes_at(v.disk, places);
            &&& laws::no_stray_pieces(held)
            &&& cuts::tidy(held)
            &&& entries::entry_for(held, v.layout.fat_type, name) is None
            &&& v.file_put(dir, (ImageModel { places, bytes: held }), name, data).0 is Ok
        }),
    ensures
        ({
            let held = v.layout.bytes_at(v.disk, places);
            let z = v.file_put(dir, (ImageModel { places, bytes: held }), name, data).1;
            v.layout.dir_bytes(z.disk, dir) matches Ok(now) && shows_written(
                v,
                held,
                now,
                name,
                data,
            )
        }),
{
    let layout = v.layout;
    let held = layout.bytes_at(v.disk, places);
    let image = ImageModel { places, bytes: held };
    let b = v.begun();
    let w = b.chain_written(data).1;
    let first = b.chain_written(data).0->Ok_0;
    let new = laws::clusters_taken(b, data);
    let size = data.len() as u32;
    let attr = entries::ATTR_ARCHIVE;
    laws::lemma_chain_written(b, data);
    laws::lemma_added(b, w, new, dir, places, name, data, first, attr, size);
    lemma_added_shown(b, w, new, dir, places, name, data, first, attr, size);
    assert(v.file_put(dir, image, name, data).1 == w.entry_added(
        dir,
        image,
        name,
        attr,
        first,
        size,
    ).1);
}

/// Writing a file adds one entry to what its directory lists, or changes one: the others stay
/// where they are, in their order. The entry goes by the name, and says how long the data is;
/// of one that was there, the name stays as it was.
#[verifier::spinoff_prover]
pub proof fn writing_lists_one_entry(v: Volume, path: Seq<char>, data: Seq<u8>)
    requires
        laws::in_order(v, path),
        cuts::tidy_place(v, path),
        v.file_written(path, data).0 is Ok,
    ensures
        ({
            let (parent, name) = volume::split_path(path);
            let after = v.file_written(path, data).1.disk;
            let dir = v.layout.dir_of(v.disk, parent)->Ok_0;
            let held = v.layout.dir_bytes(v.disk, dir)->Ok_0;
            let now = v.layout.dir_bytes(after, dir)->Ok_0;
            &&& v.layout.dir_of(after, parent) == Ok::<Dir, Fault>(dir)
            &&& v.layout.dir_bytes(after, dir) is Ok
            &&& shows_written(v, held, now, name, data)
        }),
{
    let layout = v.layout;
    let (parent, name) = volume::split_path(path);
    let dir = layout.dir_of(v.disk, parent)->Ok_0;
    let places = layout.dir_sectors(v.disk, dir)->Ok_0;
    let held = layout.bytes_at(v.disk, places);
    let touched = places + laws::sectors_from(layout, v.disk, laws::old_start(v, held, name));
    let z = v.file_changed(path, data).1;
    assert(z == v.file_put(dir, (ImageModel { places, bytes: held }), name, data).1);
    laws::lemma_file_put(v, dir, places, name, data);
    if entries::entry_for(held, layout.fat_type, name) is Some {
        lemma_replaced_shown(v, dir, places, name, data);
    } else {
        lemma_new_shown(v, dir, places, name, data);
    }
    let now = layout.dir_bytes(z.disk, dir)->Ok_0;
    lemma_finished_shown(v, z, dir, parent, touched, now);
}

/// Whether one entry goes by `name`, but for case, at most.
pub open spec fn once_at_most(all: Seq<EntryModel>, name: Seq<char>) -> bool {
    forall|i: int, j: int|
        0 <= i < j < all.len() ==> !(names::same_name((#[trigger] all[i]).name, name)
            && names::same_name((#[trigger] all[j]).name, name))
}

/// Whether exactly one entry goes by `name`, but for case.
pub open spec fn once(all: Seq<EntryModel>, name: Seq<char>) -> bool {
    once_at_most(all, name) && exists|i: int|
        0 <= i < all.len() && names::same_name((#[trigger] all[i]).name, name)
}

/// Once a file is written, its directory lists exactly one entry by its name, but for case, if it
/// didn't list more before.
#[verifier::spinoff_prover]
pub proof fn written_names_are_listed_once(v: Volume, path: Seq<char>, data: Seq<u8>)
    requires
        laws::in_order(v, path),
        cuts::tidy_place(v, path),
        v.file_written(path, data).0 is Ok,
        shown_of(v.layout, v.disk, volume::split_path(path).0) matches Ok(before) && once_at_most(
            before,
            volume::split_path(path).1,
        ),
    ensures
        shown_of(v.layout, v.file_written(path, data).1.disk, volume::split_path(path).0) matches Ok(
            now,
        ) && once(now, volume::split_path(path).1),
{
    let layout = v.layout;
    let (parent, name) = volume::split_path(path);
    let after = v.file_written(path, data).1.disk;
    let dir = layout.dir_of(v.disk, parent)->Ok_0;
    let held = layout.dir_bytes(v.disk, dir)->Ok_0;
    writing_lists_one_entry(v, path, data);
    let now = layout.dir_bytes(after, dir)->Ok_0;
    lemma_listed_once(v, held, now, name, data);
}

proof fn lemma_listed_once(
    v: Volume,
    held: Seq<u8>,
    now: Seq<u8>,
    name: Seq<char>,
    data: Seq<u8>,
)
    requires
        shows_written(v, held, now, name, data),
        once_at_most(shown(held, v.layout.fat_type), name),
    ensures
        once(shown(now, v.layout.fat_type), name),
{
    let fat_type = v.layout.fat_type;
    let before = shown(held, fat_type);
    let all = shown(now, fat_type);
    let found = entries::entry_for(now, fat_type, name)->0;
    entries::lemma_end_slot(held, 0);
    match entries::entry_for(held, fat_type, name) {
        Some(located) => {
            let i = choose|i: int|
                0 <= i < before.len() && #[trigger] before[i] == located.entry && all
                    == before.update(i, found.entry);
            laws::lemma_slot_first(held, name, 0, entries::end_slot(held, 0));
            assert(names::same_name(all[i].name, name));
            assert forall|j: int, k: int| 0 <= j < k < all.len() implies !(names::same_name(
                (#[trigger] all[j]).name,
                name,
            ) && names::same_name((#[trigger] all[k]).name, name)) by {
                assert(names::same_name(all[j].name, name) == names::same_name(
                    before[j].name,
                    name,
                ));
                assert(names::same_name(all[k].name, name) == names::same_name(
                    before[k].name,
                    name,
                ));
            }
        },
        None => {
            let i = choose|i: int|
                0 <= i <= before.len() && all == #[trigger] before.insert(i, found.entry);
            lemma_shown(held, fat_type, entries::end_slot(held, 0));
            paths::lemma_found_in_listing(held, fat_type, name, entries::end_slot(held, 0));
            assert forall|j: int| 0 <= j < before.len() implies !names::same_name(
                (#[trigger] before[j]).name,
                name,
            ) by {
                let list = entries::listing(held, fat_type);
                assert(before[j] == list[j].entry);
                assert(!names::same_name(list[j].entry.name, name));
            }
            assert(names::same_name(all[i].name, name));
            assert forall|j: int| 0 <= j < all.len() && j != i implies !names::same_name(
                (#[trigger] all[j]).name,
                name,
            ) by {
                if j < i {
                    assert(all[j] == before[j]);
                } else {
                    assert(all[j] == before[j - 1]);
                }
            }
        },
    }
}

/// An entry that points at other data is found where it was.
pub proof fn lemma_repointed_slot(
    dir: Seq<u8>,
    fat_type: FatType,
    name: Seq<char>,
    cluster: u32,
    size: u32,
    stamp: entries::Stamp,
)
    requires
        entries::entry_for(dir, fat_type, name) is Some,
    ensures
        ({
            let slot = (entries::entry_for(dir, fat_type, name)->0).slot;
            let after = bytes::splice(dir, 32 * slot + 20, stored::pointer(cluster, size, stamp));
            entries::entry_for(after, fat_type, name) == Some(
                entries::located_at(after, slot, fat_type),
            )
        }),
{
    let end = entries::end_slot(dir, 0);
    entries::lemma_end_slot(dir, 0);
    laws::lemma_slot_first(dir, name, 0, end);
    let slot = (entries::entry_for(dir, fat_type, name)->0).slot;
    let after = bytes::splice(dir, 32 * slot + 20, stored::pointer(cluster, size, stamp));
    let count = entries::slot_count(dir);
    assert forall|i: int| 0 <= i < count implies laws::same_head(
        #[trigger] entries::slot_at(dir, i),
        entries::slot_at(after, i),
    ) by {
        let x = entries::slot_at(dir, i);
        let y = entries::slot_at(after, i);
        assert(x.subrange(0, 20) =~= y.subrange(0, 20));
        if i != slot {
            assert(x =~= y);
        }
    }
    assert forall|j: int| 0 <= j < end implies after[#[trigger] (32 * j)] != entries::ENTRY_END by {
        assert(dir[32 * j] != entries::ENTRY_END);
    }
    lemma_end_same(dir, after, end);
    laws::lemma_names_alike(dir, after, count, slot);
    assert forall|i: int| 0 <= i < slot implies !(entries::is_listed(after, i)
        && names::same_name(#[trigger] entries::name_at(after, i), name)) by {
        laws::lemma_names_alike(dir, after, count, i);
        assert(!(entries::is_listed(dir, i) && names::same_name(
            entries::name_at(dir, i),
            name,
        )));
    }
    laws::lemma_slot_found(after, name, 0, slot, end);
}

/// What a directory holds once an entry in it is removed.
#[verifier::spinoff_prover]
pub proof fn lemma_removed_bytes(v: Volume, path: Seq<char>, dir: Dir, places: Seq<int>)
    requires
        laws::ready(v, path),
        v.removed(path).0 is Ok,
        v.layout.dir_of(v.disk, volume::split_path(path).0) == Ok::<Dir, Fault>(dir),
        v.layout.dir_sectors(v.disk, dir) == Ok::<Seq<int>, Fault>(places),
    ensures
        ({
            let (parent, name) = volume::split_path(path);
            let held = v.layout.bytes_at(v.disk, places);
            let located = entries::entry_for(held, v.layout.fat_type, name)->0;
            let after = v.removed(path).1.disk;
            &&& entries::entry_for(held, v.layout.fat_type, name) is Some
            &&& v.layout.dir_of(after, parent) == Ok::<Dir, Fault>(dir)
            &&& v.layout.dir_bytes(after, dir) == Ok::<Seq<u8>, Fault>(
                change::with_deleted(held, located.first_slot, located.slot + 1),
            )
        }),
{
    let layout = v.layout;
    let (parent, name) = volume::split_path(path);
    let image = v.image_of(dir)->Ok_0;
    let located = entries::entry_for(image.bytes, layout.fat_type, name)->0;
    let old = located.entry.first_cluster.0;
    let b = v.begun();
    let changed = cuts::without(image, located.first_slot, located.slot);
    let x = b.dir_stored(changed, located.first_slot, located.slot + 1);
    let none = Seq::<u32>::empty();
    others::lemma_deleted_part(image.bytes, layout.fat_type, name);
    laws::lemma_dir_sectors(layout, v.disk, dir);
    laws::lemma_held_length(layout, v.disk, places);
    laws::lemma_dir_stored(
        layout,
        b.disk,
        dir,
        places,
        changed.bytes,
        located.first_slot,
        located.slot + 1,
    );
    assert(layout.sectors_of(none) + places =~= places);
    laws::lemma_dir_kept(layout, b.disk, x.disk, dir);
    laws::lemma_freed_after(b, x, none, dir, places, changed.bytes, Seq::empty(), old);
    let z = v.path_removed(path).1;
    assert(z == x.chain_freed(old).1);
    lemma_finished_shown(
        v,
        z,
        dir,
        parent,
        places + laws::sectors_from(layout, v.disk, old),
        changed.bytes,
    );
}

/// Removing a file or directory takes its entry out of what its directory lists; the others stay
/// where they are, in their order.
#[verifier::rlimit(30)]
#[verifier::spinoff_prover]
pub proof fn removing_lists_the_rest(v: Volume, path: Seq<char>)
    requires
        laws::ready(v, path),
        v.removed(path).0 is Ok,
    ensures
        ({
            let (parent, name) = volume::split_path(path);
            let after = v.removed(path).1.disk;
            let dir = v.layout.dir_of(v.disk, parent)->Ok_0;
            let entry = (v.layout.lookup(v.disk, dir, name)->Ok_0).entry;
            &&& shown_of(v.layout, v.disk, parent) matches Ok(before)
            &&& shown_of(v.layout, after, parent) matches Ok(now)
            &&& one_out(before, now, entry)
        }),
{
    let layout = v.layout;
    let (parent, name) = volume::split_path(path);
    let dir = layout.dir_of(v.disk, parent)->Ok_0;
    let places = layout.dir_sectors(v.disk, dir)->Ok_0;
    lemma_removed_bytes(v, path, dir, places);
    lemma_shown_without(layout.bytes_at(v.disk, places), layout.fat_type, name);
}

/// Whether what a directory at a path lists has nothing to do with a change of the file or
/// directory at `path`: neither it nor a directory on the way to it has a sector among those
/// that the change touches.
pub open spec fn listed_elsewhere(v: Volume, path: Seq<char>, other: Seq<char>) -> bool {
    let (parent, name) = volume::split_path(path);
    v.layout.dir_of(v.disk, parent) matches Ok(dir) ==> (v.layout.dir_sectors(
        v.disk,
        dir,
    ) matches Ok(places) ==> {
        let touched = places + laws::sectors_from(
            v.layout,
            v.disk,
            laws::old_start(v, v.layout.bytes_at(v.disk, places), name),
        );
        &&& others::way_beside(
            v.layout,
            v.disk,
            Dir::Root,
            text::pieces_from(other, 0, '/'),
            dir,
            name,
            touched,
        )
        &&& v.layout.dir_of(v.disk, other) matches Ok(there) ==> (v.layout.dir_sectors(
            v.disk,
            there,
        ) matches Ok(sectors) ==> laws::apart(sectors, touched))
    })
}

/// What a directory lists stays where a change has nothing to do with it.
proof fn lemma_listed_elsewhere(
    v: Volume,
    after: Disk,
    path: Seq<char>,
    other: Seq<char>,
    dir: Dir,
    touched: Seq<int>,
)
    requires
        laws::sound(v.layout, v.disk),
        listed_elsewhere(v, path, other),
        v.layout.dir_of(v.disk, volume::split_path(path).0) == Ok::<Dir, Fault>(dir),
        ({
            let name = volume::split_path(path).1;
            let places = v.layout.dir_sectors(v.disk, dir)->Ok_0;
            let old = laws::old_start(v, v.layout.bytes_at(v.disk, places), name);
            &&& v.layout.dir_sectors(v.disk, dir) is Ok
            &&& touched == places + laws::sectors_from(v.layout, v.disk, old)
            &&& others::changed_only(v.layout, v.disk, after, dir, name, touched)
        }),
    ensures
        shown_of(v.layout, v.disk, other) is Ok ==> shown_of(v.layout, after, other) == shown_of(
            v.layout,
            v.disk,
            other,
        ),
{
    let layout = v.layout;
    let name = volume::split_path(path).1;
    if shown_of(layout, v.disk, other) is Ok {
        let there = layout.dir_of(v.disk, other)->Ok_0;
        others::lemma_way_beside(
            layout,
            v.disk,
            after,
            Dir::Root,
            text::pieces_from(other, 0, '/'),
            dir,
            name,
            touched,
        );
        laws::lemma_dir_spared(layout, v.disk, after, there, touched);
    }
}

/// Writing a file leaves what other directories list as it was.
pub proof fn writing_leaves_other_listings(
    v: Volume,
    path: Seq<char>,
    data: Seq<u8>,
    other: Seq<char>,
)
    requires
        laws::in_order(v, path),
        v.file_written(path, data).0 is Ok,
        listed_elsewhere(v, path, other),
        shown_of(v.layout, v.disk, other) is Ok,
    ensures
        shown_of(v.layout, v.file_written(path, data).1.disk, other) == shown_of(
            v.layout,
            v.disk,
            other,
        ),
{
    let layout = v.layout;
    let (parent, name) = volume::split_path(path);
    let dir = layout.dir_of(v.disk, parent)->Ok_0;
    let places = layout.dir_sectors(v.disk, dir)->Ok_0;
    let held = layout.bytes_at(v.disk, places);
    let touched = places + laws::sectors_from(layout, v.disk, laws::old_start(v, held, name));
    let z = v.file_changed(path, data).1;
    laws::lemma_file_put(v, dir, places, name, data);
    others::lemma_finished_only(v, z, dir, name, touched);
    lemma_listed_elsewhere(v, z.finished().disk, path, other, dir, touched);
}

/// Removing a file or directory leaves what other directories list as it was.
pub proof fn removing_leaves_other_listings(v: Volume, path: Seq<char>, other: Seq<char>)
    requires
        laws::ready(v, path),
        v.removed(path).0 is Ok,
        listed_elsewhere(v, path, other),
        shown_of(v.layout, v.disk, other) is Ok,
    ensures
        shown_of(v.layout, v.removed(path).1.disk, other) == shown_of(v.layout, v.disk, other),
{
    let layout = v.layout;
    let (parent, name) = volume::split_path(path);
    let dir = layout.dir_of(v.disk, parent)->Ok_0;
    let places = layout.dir_sectors(v.disk, dir)->Ok_0;
    let held = layout.bytes_at(v.disk, places);
    let touched = places + laws::sectors_from(layout, v.disk, laws::old_start(v, held, name));
    others::lemma_removed_only(v, path, dir, places);
    lemma_listed_elsewhere(v, v.removed(path).1.disk, path, other, dir, touched);
}

} // verus!
