//! Directories in order, and changes that keep them so.

use super::change;
use super::change::{ImageModel, Volume};
use super::cuts;
use super::entries;
use super::entries::{EntryModel, FatType};
use super::laws;
use super::listings;
use super::names;
use super::others;
use super::stored;
use super::volume::{Dir, Fault};
use crate::bytes;
use vstd::prelude::*;

verus! {

/// Whether slot `i` of a directory lists something.
pub open spec fn lists_at(dir: Seq<u8>, i: int) -> bool {
    0 <= i < entries::end_slot(dir, 0) && entries::is_listed(dir, i)
}

/// The entry in slot `i` of a directory.
pub open spec fn entry_at(dir: Seq<u8>, fat_type: FatType, i: int) -> EntryModel {
    entries::located_at(dir, i, fat_type).entry
}

/// Whether the long name of the entry in slot `i` is complete, and slot `j` is a piece of it.
pub open spec fn owns_piece(dir: Seq<u8>, i: int, j: int) -> bool {
    &&& j < i < entries::end_slot(dir, 0)
    &&& entries::is_own(entries::slot_at(dir, i))
    &&& i - entries::pieces_from(dir, i, 1) <= j
}

/// Whether slot `j`, if it is a piece of a long name, is one of a complete name.
pub open spec fn piece_owned(dir: Seq<u8>, j: int) -> bool {
    entries::is_long(entries::slot_at(dir, j)) ==> exists|i: int| #[trigger] owns_piece(dir, i, j)
}

/// Whether two slots list different names.
pub open spec fn names_differ(dir: Seq<u8>, i: int, j: int) -> bool {
    lists_at(dir, i) && lists_at(dir, j) && i != j ==> !names::same_name(
        entries::name_at(dir, i),
        entries::name_at(dir, j),
    )
}

/// Whether a directory is in order: every piece of a long name belongs to an entry, no slot after
/// the end marker was ever used, and no name is listed twice.
pub open spec fn neat(dir: Seq<u8>) -> bool {
    &&& forall|j: int| 0 <= j < entries::end_slot(dir, 0) ==> #[trigger] piece_owned(dir, j)
    &&& cuts::tidy(dir)
    &&& forall|i: int, j: int| #[trigger] names_differ(dir, i, j)
}

/// Whether two directories have the same in slot `i`.
pub open spec fn slot_kept(a: Seq<u8>, b: Seq<u8>, i: int) -> bool {
    &&& entries::slot_at(a, i) == entries::slot_at(b, i)
    &&& lists_at(a, i) == lists_at(b, i)
    &&& entries::name_at(a, i) == entries::name_at(b, i)
}

/// In a directory in order, no piece of a long name is stray.
pub proof fn lemma_neat_unstrayed(dir: Seq<u8>)
    requires
        neat(dir),
    ensures
        laws::no_stray_pieces(dir),
{
    let end = entries::end_slot(dir, 0);
    entries::lemma_end_slot(dir, 0);
    assert forall|i: int|
        0 < i <= entries::slot_count(dir) && #[trigger] stored::is_free(dir, i) implies !entries::is_long(
        entries::slot_at(dir, i - 1),
    ) by {
        let j = i - 1;
        let slot = entries::slot_at(dir, j);
        assert(slot[0] == dir[32 * j]);
        if entries::is_long(slot) {
            if j >= end {
                assert(cuts::unused(dir, j));
            } else {
                assert(piece_owned(dir, j));
                let o = choose|o: int| #[trigger] owns_piece(dir, o, j);
                assert(entries::slot_at(dir, i)[0] == dir[32 * i]);
                if o != i {
                    laws::lemma_pieces_there(dir, o, 1, o - i);
                    assert(entries::is_piece(dir, o, o - i));
                }
            }
        }
    }
}

/// What a change of the slots `from` to `to` leaves alone: every other slot, the names of
/// entries there, and that the directory is in order, if what changed is.
#[verifier::spinoff_prover]
pub proof fn lemma_neat_changed(a: Seq<u8>, b: Seq<u8>, from: int, to: int)
    requires
        neat(a),
        a.len() == b.len(),
        0 <= from < to <= entries::slot_count(a),
        forall|j: int|
            0 <= j < entries::slot_count(a) && !(from <= j < to) ==> #[trigger] entries::slot_at(
                a,
                j,
            ) == entries::slot_at(b, j),
        !entries::is_long(entries::slot_at(a, to - 1)),
        !entries::is_long(entries::slot_at(b, to - 1)),
        cuts::tidy(b),
        forall|j: int|
            #![trigger entries::slot_at(a, j)]
            0 <= j < entries::slot_count(a) && !(from <= j < to) ==> (j < entries::end_slot(a, 0)
                <==> j < entries::end_slot(b, 0)),
        forall|j: int|
            from <= j < to && j < entries::end_slot(b, 0) ==> #[trigger] piece_owned(b, j),
        forall|i: int|
            from <= i < to && i < entries::end_slot(a, 0) && entries::is_own(
                #[trigger] entries::slot_at(a, i),
            ) ==> i - entries::pieces_from(a, i, 1) >= from,
        forall|i: int, j: int|
            from <= i < to && !(from <= j < i) ==> #[trigger] names_differ(b, i, j),
    ensures
        neat(b),
        forall|i: int|
            0 <= i < entries::slot_count(a) && !(from <= i < to) ==> #[trigger] slot_kept(a, b, i),
{
    let end = entries::end_slot(b, 0);
    entries::lemma_end_slot(a, 0);
    entries::lemma_end_slot(b, 0);
    assert forall|i: int| 0 <= i < entries::slot_count(a) && !(from <= i < to) implies slot_kept(
        a,
        b,
        i,
    ) && entries::pieces_from(a, i, 1) == entries::pieces_from(b, i, 1) by {
        assert(entries::slot_at(a, i) == entries::slot_at(b, i));
        others::lemma_name_kept(a, b, from, to, i);
        if i < from {
            assert forall|j: int| 0 <= j < from implies laws::same_head(
                #[trigger] entries::slot_at(a, j),
                entries::slot_at(b, j),
            ) by {
                assert(entries::slot_at(a, j) == entries::slot_at(b, j));
            }
            laws::lemma_names_alike(a, b, from, i);
        } else {
            laws::lemma_pieces_past(a, b, to - 1, i, 1);
        }
    }
    assert forall|j: int| 0 <= j < end implies #[trigger] piece_owned(b, j) by {
        if !(from <= j < to) && entries::is_long(entries::slot_at(b, j)) {
            assert(entries::slot_at(a, j) == entries::slot_at(b, j));
            assert(piece_owned(a, j));
            let o = choose|o: int| #[trigger] owns_piece(a, o, j);
            assert(entries::is_own(entries::slot_at(a, o)));
            assert(!(from <= o < to));
            assert(slot_kept(a, b, o));
            assert(entries::slot_at(a, o) == entries::slot_at(b, o));
            assert(owns_piece(b, o, j));
        }
    }
    assert forall|i: int, j: int| #[trigger] names_differ(b, i, j) by {
        if lists_at(b, i) && lists_at(b, j) && i != j {
            if from <= i < to && !(from <= j < i) {
            } else if from <= j < to && !(from <= i < j) {
                assert(names_differ(b, j, i));
            } else {
                assert(!(from <= i < to) && !(from <= j < to));
                assert(slot_kept(a, b, i));
                assert(slot_kept(a, b, j));
                assert(names_differ(a, i, j));
            }
        }
    }
}

/// A directory that grew is in order, and lists what it did.
pub proof fn lemma_neat_grown(dir: Seq<u8>, zeros: nat)
    requires
        neat(dir),
        dir.len() % 512 == 0,
        zeros % 32 == 0,
        32 * entries::end_slot(dir, 0) < dir.len() + zeros,
    ensures
        neat(dir + bytes::zeros(zeros)),
        entries::end_slot(dir + bytes::zeros(zeros), 0) == entries::end_slot(dir, 0),
        forall|i: int|
            0 <= i < entries::slot_count(dir) ==> #[trigger] slot_kept(
                dir,
                dir + bytes::zeros(zeros),
                i,
            ),
{
    let more = dir + bytes::zeros(zeros);
    let n = entries::slot_count(dir);
    let end = entries::end_slot(dir, 0);
    entries::lemma_end_slot(dir, 0);
    laws::lemma_grown_slots(dir, zeros);
    laws::lemma_grown_end(dir, zeros);
    cuts::lemma_grown_tidy(dir, zeros);
    assert forall|i: int| 0 <= i < n implies #[trigger] slot_kept(dir, more, i)
        && entries::pieces_from(dir, i, 1) == entries::pieces_from(more, i, 1) by {
        laws::lemma_names_alike(dir, more, n, i);
        assert(entries::slot_at(more, i) == entries::slot_at(dir, i));
    }
    assert forall|j: int| 0 <= j < end implies #[trigger] piece_owned(more, j) by {
        assert(slot_kept(dir, more, j));
        assert(piece_owned(dir, j));
        if entries::is_long(entries::slot_at(more, j)) {
            let o = choose|o: int| #[trigger] owns_piece(dir, o, j);
            assert(slot_kept(dir, more, o));
            assert(owns_piece(more, o, j));
        }
    }
    assert forall|i: int, j: int| #[trigger] names_differ(more, i, j) by {
        if lists_at(more, i) && lists_at(more, j) {
            assert(slot_kept(dir, more, i));
            assert(slot_kept(dir, more, j));
            assert(names_differ(dir, i, j));
        }
    }
}

/// A new directory is in order, and lists nothing.
pub proof fn lemma_neat_dots(v: Volume, cluster: u32, dir: Dir, length: int)
    requires
        length >= 512,
        length % 32 == 0,
    ensures
        neat(change::padded(v.dots(cluster, dir), length)),
        forall|i: int| !#[trigger] lists_at(change::padded(v.dots(cluster, dir), length), i),
{
    let all = change::padded(v.dots(cluster, dir), length);
    laws::lemma_dots_empty(v, cluster, dir, length);
    assert(v.dots(cluster, dir).len() == 64);
    assert forall|i: int| 2 <= i < entries::slot_count(all) implies #[trigger] cuts::unused(all, i) by {
        assert(all[32 * i] == bytes::zeros((length - 64) as nat)[32 * i - 64]);
    }
    assert forall|j: int| 0 <= j < 2 implies #[trigger] piece_owned(all, j) by {
        assert(!entries::is_long(entries::slot_at(all, j)));
    }
    assert forall|i: int| !#[trigger] lists_at(all, i) by {
        if 0 <= i < 2 {
            assert(!entries::is_long(entries::slot_at(all, i)));
        }
    }
}

/// Pointing an entry at other data keeps a directory in order, and every other slot.
pub proof fn lemma_neat_repointed(
    dir: Seq<u8>,
    fat_type: FatType,
    name: Seq<char>,
    pointer: Seq<u8>,
)
    requires
        neat(dir),
        entries::entry_for(dir, fat_type, name) is Some,
        pointer.len() == 12,
    ensures
        ({
            let slot = (entries::entry_for(dir, fat_type, name)->0).slot;
            let after = bytes::splice(dir, 32 * slot + 20, pointer);
            &&& neat(after)
            &&& lists_at(dir, slot)
            &&& lists_at(after, slot)
            &&& forall|i: int|
                0 <= i < entries::slot_count(dir) && i != slot ==> #[trigger] slot_kept(
                    dir,
                    after,
                    i,
                )
        }),
{
    let end = entries::end_slot(dir, 0);
    entries::lemma_end_slot(dir, 0);
    laws::lemma_slot_first(dir, name, 0, end);
    let slot = (entries::entry_for(dir, fat_type, name)->0).slot;
    let after = bytes::splice(dir, 32 * slot + 20, pointer);
    let count = entries::slot_count(dir);
    assert forall|i: int| 0 <= i < count implies laws::same_head(
        #[trigger] entries::slot_at(dir, i),
        entries::slot_at(after, i),
    ) && (i != slot ==> entries::slot_at(dir, i) == entries::slot_at(after, i)) by {
        let x = entries::slot_at(dir, i);
        let y = entries::slot_at(after, i);
        assert(x.subrange(0, 20) =~= y.subrange(0, 20));
        if i != slot {
            assert(x =~= y);
        }
    }
    assert forall|j: int| 0 <= j < end implies after[#[trigger] (32 * j)] != entries::ENTRY_END by {
        assert(dir[32 * j] != entries::ENTRY_END);
    }
    listings::lemma_end_same(dir, after, end);
    laws::lemma_names_alike(dir, after, count, slot);
    laws::lemma_heads(entries::slot_at(dir, slot), entries::slot_at(after, slot));
    entries::lemma_pieces(dir, slot, 1);
    assert(cuts::tidy(after)) by {
        assert forall|i: int| end <= i < count implies #[trigger] cuts::unused(after, i) by {
            assert(cuts::unused(dir, i));
        }
    }
    assert forall|j: int| names_differ(after, slot, j) by {
        if lists_at(after, j) && j != slot {
            laws::lemma_names_alike(dir, after, count, j);
            assert(names_differ(dir, slot, j));
        }
    }
    lemma_neat_around(dir, after, slot);
}

/// One slot that changed and is no piece.
proof fn lemma_neat_around(a: Seq<u8>, b: Seq<u8>, slot: int)
    requires
        neat(a),
        a.len() == b.len(),
        0 <= slot < entries::slot_count(a),
        forall|j: int|
            0 <= j < entries::slot_count(a) && j != slot ==> #[trigger] entries::slot_at(a, j)
                == entries::slot_at(b, j),
        laws::alike(a, b, entries::slot_count(a)),
        entries::is_own(entries::slot_at(a, slot)),
        entries::is_own(entries::slot_at(b, slot)),
        entries::end_slot(a, 0) == entries::end_slot(b, 0),
        cuts::tidy(b),
        forall|j: int| #[trigger] names_differ(b, slot, j),
    ensures
        neat(b),
        forall|i: int|
            0 <= i < entries::slot_count(a) && i != slot ==> #[trigger] slot_kept(a, b, i),
{
    let count = entries::slot_count(a);
    let end = entries::end_slot(a, 0);
    entries::lemma_end_slot(a, 0);
    assert forall|i: int| 0 <= i < count && i != slot implies #[trigger] slot_kept(a, b, i) by {
        laws::lemma_names_alike(a, b, count, i);
    }
    assert forall|j: int| 0 <= j < end implies #[trigger] piece_owned(b, j) by {
        if entries::is_long(entries::slot_at(b, j)) {
            assert(entries::slot_at(a, j) == entries::slot_at(b, j));
            assert(piece_owned(a, j));
            let o = choose|o: int| #[trigger] owns_piece(a, o, j);
            laws::lemma_names_alike(a, b, count, o);
            if o != slot {
                assert(entries::slot_at(a, o) == entries::slot_at(b, o));
            }
            assert(owns_piece(b, o, j));
        }
    }
    assert forall|i: int, j: int| #[trigger] names_differ(b, i, j) by {
        if lists_at(b, i) && lists_at(b, j) && i != j {
            if i == slot {
            } else if j == slot {
                assert(names_differ(b, j, i));
            } else {
                assert(slot_kept(a, b, i));
                assert(slot_kept(a, b, j));
                assert(names_differ(a, i, j));
            }
        }
    }
}

/// Marking an entry's slots deleted keeps a directory in order, and every other slot.
pub proof fn lemma_neat_deleted(dir: Seq<u8>, fat_type: FatType, name: Seq<char>)
    requires
        neat(dir),
        entries::entry_for(dir, fat_type, name) is Some,
    ensures
        ({
            let located = entries::entry_for(dir, fat_type, name)->0;
            let after = change::with_deleted(dir, located.first_slot, located.slot + 1);
            &&& neat(after)
            &&& lists_at(dir, located.slot)
            &&& entries::end_slot(after, 0) == entries::end_slot(dir, 0)
            &&& forall|i: int|
                0 <= i < entries::slot_count(dir) && i != located.slot ==> lists_at(dir, i)
                    == #[trigger] lists_at(after, i) && (lists_at(dir, i) ==> slot_kept(
                    dir,
                    after,
                    i,
                ))
            &&& !lists_at(after, located.slot)
        }),
{
    let end = entries::end_slot(dir, 0);
    entries::lemma_end_slot(dir, 0);
    laws::lemma_slot_first(dir, name, 0, end);
    let located = entries::entry_for(dir, fat_type, name)->0;
    let slot = located.slot;
    let from = located.first_slot;
    entries::lemma_pieces(dir, slot, 1);
    let after = change::with_deleted(dir, from, slot + 1);
    laws::lemma_deleted(dir, from, slot + 1);
    let count = entries::slot_count(dir);
    assert forall|j: int| 0 <= j < count && !(from <= j < slot + 1) implies #[trigger] entries::slot_at(
        dir,
        j,
    ) == entries::slot_at(after, j) by {
        assert(entries::slot_at(dir, j) =~= entries::slot_at(after, j));
    }
    assert forall|j: int| from <= j < slot implies !entries::is_own(
        #[trigger] entries::slot_at(dir, j),
    ) by {
        laws::lemma_pieces_there(dir, slot, 1, slot - j);
        assert(entries::is_piece(dir, slot, slot - j));
    }
    assert forall|j: int| from <= j < slot + 1 implies !entries::is_own(
        #[trigger] entries::slot_at(after, j),
    ) && !entries::is_long(entries::slot_at(after, j)) by {
        assert(entries::slot_at(after, j)[0] == after[32 * j]);
    }
    assert forall|j: int| 0 <= j < end implies after[#[trigger] (32 * j)] != entries::ENTRY_END by {
        assert(dir[32 * j] != entries::ENTRY_END);
    }
    listings::lemma_end_same(dir, after, end);
    assert(cuts::tidy(after)) by {
        assert forall|i: int| end <= i < count implies #[trigger] cuts::unused(after, i) by {
            assert(cuts::unused(dir, i));
        }
    }
    assert forall|j: int| from <= j < slot + 1 implies #[trigger] piece_owned(after, j) by {
        assert(!entries::is_long(entries::slot_at(after, j)));
    }
    assert forall|i: int, j: int| from <= i < slot + 1 implies #[trigger] names_differ(
        after,
        i,
        j,
    ) by {
        assert(!entries::is_own(entries::slot_at(after, i)));
    }
    assert(entries::is_own(entries::slot_at(dir, slot)));
    lemma_neat_changed(dir, after, from, slot + 1);
    assert forall|i: int| 0 <= i < count && i != slot implies lists_at(dir, i)
        == #[trigger] lists_at(after, i) && (lists_at(dir, i) ==> slot_kept(dir, after, i)) by {
        if from <= i < slot {
            assert(!entries::is_own(entries::slot_at(dir, i)));
            assert(!entries::is_own(entries::slot_at(after, i)));
        } else {
            assert(slot_kept(dir, after, i));
        }
    }
    assert(!entries::is_own(entries::slot_at(after, slot)));
}

/// Storing entries for a new name keeps a directory in order, and every other slot.
#[verifier::rlimit(30)]
#[verifier::spinoff_prover]
pub proof fn lemma_neat_added(
    dir: Seq<u8>,
    fat_type: FatType,
    name: Seq<char>,
    taken: Seq<Seq<u8>>,
    attr: u8,
    cluster: u32,
    size: u32,
    stamp: entries::Stamp,
    at: int,
)
    requires
        laws::plain_name(name),
        attr == entries::ATTR_ARCHIVE || attr == entries::ATTR_DIRECTORY,
        fat_type == FatType::Fat16 ==> cluster < 0x1_0000,
        stored::new_entries(name, taken, attr, cluster, size, stamp) is Some,
        entries::entry_for(dir, fat_type, name) is None,
        neat(dir),
        0 <= at <= entries::end_slot(dir, 0),
        ({
            let new = stored::new_entries(name, taken, attr, cluster, size, stamp)->0;
            stored::fits_at(dir, at, new.len() as int / 32)
        }),
    ensures
        ({
            let new = stored::new_entries(name, taken, attr, cluster, size, stamp)->0;
            let after = bytes::splice(dir, 32 * at, new);
            let slot = at + new.len() as int / 32 - 1;
            &&& neat(after)
            &&& after.len() == dir.len()
            &&& 0 <= slot < entries::slot_count(dir)
            &&& !lists_at(dir, slot)
            &&& lists_at(after, slot)
            &&& entries::name_at(after, slot) == name
            &&& entry_at(after, fat_type, slot).first_cluster.0 == cluster
            &&& entry_at(after, fat_type, slot).kind == (if attr == entries::ATTR_DIRECTORY {
                entries::EntryKind::Directory
            } else {
                entries::EntryKind::File
            })
            &&& attr == entries::ATTR_ARCHIVE ==> entry_at(after, fat_type, slot).size == size
            &&& forall|i: int|
                0 <= i < entries::slot_count(dir) && i != slot ==> lists_at(dir, i)
                    == #[trigger] lists_at(after, i) && (lists_at(dir, i) ==> slot_kept(
                    dir,
                    after,
                    i,
                ))
        }),
{
    lemma_neat_unstrayed(dir);
    let new = stored::new_entries(name, taken, attr, cluster, size, stamp)->0;
    let after = bytes::splice(dir, 32 * at, new);
    let m = laws::made(name, taken);
    let pieces = m.pieces;
    let own = stored::own_entry(m.short, m.case, attr, cluster, size, stamp);
    let units = stored::stored_units(name);
    let checksum = names::short_checksum(m.short);
    let end = entries::end_slot(dir, 0);
    let count = entries::slot_count(dir);
    entries::lemma_end_slot(dir, 0);
    laws::lemma_made(name, taken, attr, cluster, size, stamp);
    laws::lemma_own_entry(m.short, m.case, attr, cluster, size, stamp);
    let slot = at + pieces;
    assert(new.len() == 32 * (pieces + 1));
    laws::lemma_placed(dir, at, pieces, units, checksum, own);
    laws::lemma_entries_found(dir, fat_type, name, taken, attr, cluster, size, stamp, at);
    listings::lemma_slots_added(dir, after, at, pieces, units, checksum, own);
    let last = if slot + 1 <= end { end } else { slot + 1 };
    assert forall|i: int| last <= i < count implies #[trigger] cuts::unused(after, i) by {
        assert(cuts::unused(dir, i));
        assert(entries::slot_at(dir, i)[0] == dir[32 * i]);
        assert(entries::slot_at(after, i)[0] == after[32 * i]);
    }
    laws::lemma_end_after(after, 0, last);
    assert(entries::end_slot(after, last) == last) by {
        if last < count {
            assert(cuts::unused(after, last));
        }
    }
    laws::lemma_slot_first(after, name, 0, last);
    assert(lists_at(after, slot));
    assert(!lists_at(dir, slot)) by {
        assert(!entries::is_own(entries::slot_at(dir, slot)));
    }
    lemma_added_pieces(after, at, pieces, units, checksum, own);
    lemma_added_names(dir, after, fat_type, name, at, slot);
    lemma_neat_changed(dir, after, at, slot + 1);
    assert forall|i: int| 0 <= i < count && i != slot implies lists_at(dir, i)
        == #[trigger] lists_at(after, i) && (lists_at(dir, i) ==> slot_kept(dir, after, i)) by {
        if at <= i < slot {
            assert(!entries::is_own(entries::slot_at(dir, i)));
            assert(!entries::is_own(entries::slot_at(after, i)));
        } else {
            assert(slot_kept(dir, after, i));
        }
    }
}

/// The pieces that are stored for a name are its entry's.
proof fn lemma_added_pieces(
    after: Seq<u8>,
    at: int,
    pieces: int,
    units: Seq<u16>,
    checksum: u8,
    own: Seq<u8>,
)
    requires
        0 <= at,
        0 <= pieces <= 20,
        units.len() >= 13 * pieces,
        laws::placed(after, at, pieces, units, checksum, own),
        at + pieces < entries::end_slot(after, 0) <= entries::slot_count(after),
        own.len() == 32,
        entries::is_own(own),
        checksum == names::short_checksum(own.subrange(0, 11)),
    ensures
        forall|j: int| at <= j < at + pieces + 1 ==> #[trigger] piece_owned(after, j),
{
    let slot = at + pieces;
    assert forall|j: int| at <= j < slot + 1 implies #[trigger] piece_owned(after, j) by {
        if j < slot {
            laws::lemma_pieces_stored(after, at, pieces, 1, units, checksum);
            assert(owns_piece(after, slot, j));
        }
    }
}

/// A name that a directory doesn't list is unlike those it lists.
proof fn lemma_added_names(
    dir: Seq<u8>,
    after: Seq<u8>,
    fat_type: FatType,
    name: Seq<char>,
    at: int,
    slot: int,
)
    requires
        a_run_changed(dir, after, at, slot + 1),
        entries::entry_for(dir, fat_type, name) is None,
        entries::name_at(after, slot) == name,
        forall|j: int|
            at <= j < slot ==> !entries::is_own(#[trigger] entries::slot_at(after, j)),
        forall|j: int|
            0 <= j < entries::slot_count(dir) && !(at <= j < slot + 1) && j < entries::end_slot(
                after,
                0,
            ) ==> #[trigger] lies_before(dir, j),
    ensures
        forall|i: int, j: int|
            at <= i < slot + 1 && !(at <= j < i) ==> #[trigger] names_differ(after, i, j),
{
    let end = entries::end_slot(dir, 0);
    entries::lemma_end_slot(dir, 0);
    entries::lemma_end_slot(after, 0);
    laws::lemma_slot_first(dir, name, 0, end);
    assert forall|i: int, j: int|
        at <= i < slot + 1 && !(at <= j < i) implies #[trigger] names_differ(after, i, j) by {
        if i < slot {
            assert(!entries::is_own(entries::slot_at(after, i)));
        } else if lists_at(after, j) && j != slot {
            if at <= j < slot {
                assert(!entries::is_own(entries::slot_at(after, j)));
            } else {
                others::lemma_name_kept(dir, after, at, slot + 1, j);
                assert(lies_before(dir, j));
                assert(!(entries::is_listed(dir, j) && names::same_name(
                    entries::name_at(dir, j),
                    name,
                )));
            }
        }
    }
}

/// Whether a slot is before the end marker.
pub open spec fn lies_before(dir: Seq<u8>, j: int) -> bool {
    j < entries::end_slot(dir, 0)
}

/// Whether two directories differ in the slots `from` to `to` only, the last of which is no
/// piece of a long name in either.
pub open spec fn a_run_changed(a: Seq<u8>, b: Seq<u8>, from: int, to: int) -> bool {
    &&& a.len() == b.len()
    &&& 0 <= from < to <= entries::slot_count(a)
    &&& forall|j: int|
        0 <= j < entries::slot_count(a) && !(from <= j < to) ==> #[trigger] entries::slot_at(a, j)
            == entries::slot_at(b, j)
    &&& !entries::is_long(entries::slot_at(a, to - 1))
    &&& !entries::is_long(entries::slot_at(b, to - 1))
}

/// Whether slot `i` says the same in two directories.
pub open spec fn stays_in(a: Seq<u8>, b: Seq<u8>, fat_type: FatType, i: int) -> bool {
    &&& lists_at(a, i) == lists_at(b, i)
    &&& lists_at(a, i) ==> entry_at(a, fat_type, i) == entry_at(b, fat_type, i)
}

/// A directory is in order once a file or directory is added to it, and every slot but one says
/// what it did.
#[verifier::rlimit(30)]
#[verifier::spinoff_prover]
pub proof fn lemma_neat_with(
    v: Volume,
    w: Volume,
    new: Seq<u32>,
    dir: Dir,
    places: Seq<int>,
    name: Seq<char>,
    data: Seq<u8>,
    first: u32,
    attr: u8,
    size: u32,
) -> (s: int)
    requires
        laws::sound(v.layout, v.disk),
        laws::put_in(v, w, new, data),
        laws::plain_name(name),
        attr == entries::ATTR_ARCHIVE || attr == entries::ATTR_DIRECTORY,
        v.layout.fat_type == FatType::Fat16 ==> first < 0x1_0000,
        v.layout.dir_sectors(v.disk, dir) == Ok::<Seq<int>, Fault>(places),
        entries::entry_for(
            v.layout.bytes_at(v.disk, places),
            v.layout.fat_type,
            name,
        ) is None,
        neat(v.layout.bytes_at(v.disk, places)),
        w.entry_added(
            dir,
            (ImageModel { places, bytes: v.layout.bytes_at(v.disk, places) }),
            name,
            attr,
            first,
            size,
        ).0 is Ok,
    ensures
        ({
            let fat_type = v.layout.fat_type;
            let held = v.layout.bytes_at(v.disk, places);
            let now = laws::dir_with(
                w,
                dir,
                (ImageModel { places, bytes: held }),
                name,
                attr,
                first,
                size,
            );
            &&& neat(now)
            &&& !lists_at(held, s)
            &&& lists_at(now, s)
            &&& entry_at(now, fat_type, s).first_cluster.0 == first
            &&& entry_at(now, fat_type, s).kind == (if attr == entries::ATTR_DIRECTORY {
                entries::EntryKind::Directory
            } else {
                entries::EntryKind::File
            })
            &&& attr == entries::ATTR_ARCHIVE ==> entry_at(now, fat_type, s).size == size
            &&& forall|i: int| i != s ==> #[trigger] stays_in(held, now, fat_type, i)
        }),
{
    let layout = v.layout;
    let d = v.disk;
    let held = layout.bytes_at(d, places);
    let image = ImageModel { places, bytes: held };
    let taken = stored::taken_names(held);
    let made = stored::new_entries(name, taken, attr, first, size, w.stamp)->0;
    let count = made.len() as int / 32;
    laws::lemma_made(name, taken, attr, first, size, w.stamp);
    assert(made.len() == 32 * (laws::made(name, taken).pieces + 1));
    entries::lemma_end_slot(held, 0);
    match stored::run_from(held, 0, count) {
        Some(at) => {
            stored::lemma_run_fits(held, 0, count);
            laws::lemma_run_place(held, count);
            lemma_neat_added(
                held,
                layout.fat_type,
                name,
                taken,
                attr,
                first,
                size,
                w.stamp,
                at,
            );
            let now = bytes::splice(held, 32 * at, made);
            let s = at + count - 1;
            entries::lemma_end_slot(now, 0);
            assert forall|i: int| i != s implies #[trigger] stays_in(
                held,
                now,
                layout.fat_type,
                i,
            ) by {
                if 0 <= i < entries::slot_count(held) {
                    assert(lists_at(held, i) == lists_at(now, i));
                }
            }
            s
        },
        None => {
            laws::lemma_dir_sectors(layout, d, dir);
            laws::lemma_dir_unchanged(v, w, new, data, dir);
            laws::lemma_held_length(layout, d, places);
            stored::lemma_no_room(held, 0, count);
            laws::lemma_dir_grown(w, dir, places, count);
            let (result, g) = w.dir_grown(dir, image, count);
            let (at, more) = result->Ok_0;
            let by = w.clusters_for(32 * (count - (entries::slot_count(held) - at)));
            let zeros = (by * layout.cluster_bytes()) as nat;
            laws::lemma_multiple(by, layout.sectors_per_cluster as int);
            lemma_neat_unstrayed(held);
            laws::lemma_grown_dir(held, layout.fat_type, name, zeros, count);
            lemma_neat_grown(held, zeros);
            lemma_neat_added(
                more.bytes,
                layout.fat_type,
                name,
                taken,
                attr,
                first,
                size,
                w.stamp,
                at,
            );
            let now = bytes::splice(more.bytes, 32 * at, made);
            let s = at + count - 1;
            entries::lemma_end_slot(now, 0);
            entries::lemma_end_slot(more.bytes, 0);
            if 0 <= s < entries::slot_count(held) {
                assert(slot_kept(held, more.bytes, s));
            }
            assert forall|i: int| i != s implies #[trigger] stays_in(
                held,
                now,
                layout.fat_type,
                i,
            ) by {
                if 0 <= i < entries::slot_count(more.bytes) {
                    assert(lists_at(more.bytes, i) == lists_at(now, i));
                    if i < entries::slot_count(held) {
                        assert(slot_kept(held, more.bytes, i));
                    }
                }
            }
            s
        },
    }
}

} // verus!
