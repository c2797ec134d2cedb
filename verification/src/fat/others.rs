//! What changes to one file leave alone: every other file and directory.

use super::change;
use super::change::{ImageModel, Volume};
use super::entries;
use super::entries::{EntryKind, FatType};
use super::laws;
use super::names;
use super::read;
use super::stored;
use super::volume;
use super::volume::{Dir, Disk, Layout};
use crate::bytes;
use crate::text;
use vstd::prelude::*;

verus! {

/// Whether a directory still says of `other` what it said.
pub open spec fn still_says(a: Seq<u8>, b: Seq<u8>, fat_type: FatType, other: Seq<char>) -> bool {
    entries::entry_for(a, fat_type, other) matches Some(located) ==> (entries::entry_for(
        b,
        fat_type,
        other,
    ) matches Some(found) && found.entry == located.entry)
}

/// Whether a directory still says what it said of every name but `name`.
pub open spec fn others_listed(
    a: Seq<u8>,
    b: Seq<u8>,
    fat_type: FatType,
    name: Seq<char>,
) -> bool {
    forall|other: Seq<char>|
        !names::same_name(other, name) ==> #[trigger] still_says(a, b, fat_type, other)
}

/// The name in a slot that isn't changed, nor behind pieces that are, is what it was.
pub proof fn lemma_name_kept(a: Seq<u8>, b: Seq<u8>, from: int, to: int, i: int)
    requires
        0 <= from <= to <= entries::slot_count(a),
        a.len() == b.len(),
        forall|j: int|
            0 <= j < entries::slot_count(a) && !(from <= j < to) ==> #[trigger] entries::slot_at(
                a,
                j,
            ) == entries::slot_at(b, j),
        0 <= i < entries::slot_count(a),
        !(from <= i < to),
        i >= to > from ==> !entries::is_long(entries::slot_at(a, to - 1)) && !entries::is_long(
            entries::slot_at(b, to - 1),
        ),
    ensures
        entries::name_at(a, i) == entries::name_at(b, i),
        entries::is_listed(a, i) == entries::is_listed(b, i),
{
    let n = if from == to {
        entries::slot_count(a)
    } else {
        from
    };
    assert(entries::slot_at(a, i) == entries::slot_at(b, i));
    if i < n {
        assert forall|j: int| 0 <= j < n implies laws::same_head(
            #[trigger] entries::slot_at(a, j),
            entries::slot_at(b, j),
        ) by {
            assert(entries::slot_at(a, j) == entries::slot_at(b, j));
        }
        laws::lemma_names_alike(a, b, n, i);
    } else {
        laws::lemma_pieces_past(a, b, to - 1, i, 1);
        entries::lemma_pieces(a, i, 1);
        laws::lemma_units_past(a, b, to - 1, i, entries::pieces_from(a, i, 1));
    }
}

/// A directory that changes in some slots, none of which lists `other` before or after, still
/// says of it what it said.
pub proof fn lemma_other_found(
    a: Seq<u8>,
    b: Seq<u8>,
    fat_type: FatType,
    other: Seq<char>,
    from: int,
    to: int,
)
    requires
        0 <= from <= to <= entries::slot_count(a),
        a.len() == b.len(),
        forall|j: int|
            0 <= j < entries::slot_count(a) && !(from <= j < to) ==> #[trigger] entries::slot_at(
                a,
                j,
            ) == entries::slot_at(b, j),
        from < to < entries::end_slot(a, 0) ==> !entries::is_long(entries::slot_at(a, to - 1))
            && !entries::is_long(entries::slot_at(b, to - 1)),
        forall|j: int|
            from <= j < to && j < entries::end_slot(a, 0) ==> !#[trigger] laws::lists(a, other, j)
                && !laws::lists(b, other, j) && b[32 * j] != entries::ENTRY_END,
    ensures
        still_says(a, b, fat_type, other),
{
    let end = entries::end_slot(a, 0);
    entries::lemma_end_slot(a, 0);
    laws::lemma_slot_first(a, other, 0, end);
    if let Some(slot) = entries::slot_of(a, other, 0, end) {
        assert(laws::lists(a, other, slot));
        assert(!(from <= slot < to));
        assert forall|i: int| 0 <= i < slot + 1 implies b[#[trigger] (32 * i)]
            != entries::ENTRY_END by {
            assert(a[32 * i] != entries::ENTRY_END);
            if from <= i < to {
                assert(!laws::lists(a, other, i));
            } else {
                assert(entries::slot_at(a, i) == entries::slot_at(b, i));
                assert(a[32 * i] == entries::slot_at(a, i)[0]);
                assert(b[32 * i] == entries::slot_at(b, i)[0]);
            }
        }
        laws::lemma_end_after(b, 0, slot + 1);
        assert forall|i: int| 0 <= i < slot implies !(entries::is_listed(b, i)
            && names::same_name(#[trigger] entries::name_at(b, i), other)) by {
            if from <= i < to {
                assert(!laws::lists(a, other, i));
                assert(!laws::lists(b, other, i));
            } else {
                lemma_name_kept(a, b, from, to, i);
                assert(!(entries::is_listed(a, i) && names::same_name(
                    entries::name_at(a, i),
                    other,
                )));
            }
        }
        lemma_name_kept(a, b, from, to, slot);
        laws::lemma_slot_found(b, other, 0, slot, entries::end_slot(b, 0));
        assert(entries::slot_at(a, slot) == entries::slot_at(b, slot));
    }
}

/// A directory in which an entry is pointed at other data still says what it said of the rest.
pub proof fn lemma_repointed_others(
    dir: Seq<u8>,
    fat_type: FatType,
    name: Seq<char>,
    pointer: Seq<u8>,
)
    requires
        entries::entry_for(dir, fat_type, name) is Some,
        pointer.len() == 12,
    ensures
        others_listed(
            dir,
            bytes::splice(
                dir,
                32 * (entries::entry_for(dir, fat_type, name)->0).slot + 20,
                pointer,
            ),
            fat_type,
            name,
        ),
{
    let end = entries::end_slot(dir, 0);
    entries::lemma_end_slot(dir, 0);
    laws::lemma_slot_first(dir, name, 0, end);
    let slot = entries::slot_of(dir, name, 0, end)->0;
    let after = bytes::splice(dir, 32 * slot + 20, pointer);
    let count = entries::slot_count(dir);
    assert forall|i: int| 0 <= i < count implies laws::same_head(
        #[trigger] entries::slot_at(dir, i),
        entries::slot_at(after, i),
    ) by {
        let x = entries::slot_at(dir, i);
        let y = entries::slot_at(after, i);
        assert(x.subrange(0, 20) =~= y.subrange(0, 20));
        if i != slot {
            assert(x =~= y);
        }
    }
    laws::lemma_names_alike(dir, after, count, slot);
    laws::lemma_heads(entries::slot_at(dir, slot), entries::slot_at(after, slot));
    assert(dir[32 * slot] != entries::ENTRY_END);
    assert forall|other: Seq<char>| !names::same_name(other, name) implies #[trigger] still_says(
        dir,
        after,
        fat_type,
        other,
    ) by {
        assert forall|j: int| 0 <= j < count && !(slot <= j < slot + 1) implies #[trigger] entries::slot_at(dir, j)
            == entries::slot_at(after, j) by {
            assert(entries::slot_at(dir, j) =~= entries::slot_at(after, j));
        }
        lemma_other_found(dir, after, fat_type, other, slot, slot + 1);
    }
}

/// A directory in which entries are marked deleted still says what it said of the rest.
pub proof fn lemma_deleted_others(dir: Seq<u8>, fat_type: FatType, name: Seq<char>)
    requires
        entries::entry_for(dir, fat_type, name) is Some,
    ensures
        ({
            let located = entries::entry_for(dir, fat_type, name)->0;
            others_listed(
                dir,
                change::with_deleted(dir, located.first_slot, located.slot + 1),
                fat_type,
                name,
            )
        }),
{
    let end = entries::end_slot(dir, 0);
    entries::lemma_end_slot(dir, 0);
    laws::lemma_slot_first(dir, name, 0, end);
    let located = entries::entry_for(dir, fat_type, name)->0;
    let slot = located.slot;
    let from = located.first_slot;
    entries::lemma_pieces(dir, slot, 1);
    let after = change::with_deleted(dir, from, slot + 1);
    laws::lemma_deleted(dir, from, slot + 1);
    let count = entries::slot_count(dir);
    assert forall|other: Seq<char>| !names::same_name(other, name) implies #[trigger] still_says(
        dir,
        after,
        fat_type,
        other,
    ) by {
        assert forall|j: int| 0 <= j < count && !(from <= j < slot + 1) implies #[trigger] entries::slot_at(dir, j)
            == entries::slot_at(after, j) by {
            assert(entries::slot_at(dir, j) =~= entries::slot_at(after, j));
        }
        assert forall|j: int|
            from <= j < slot + 1 && j < end implies !#[trigger] laws::lists(dir, other, j)
            && !laws::lists(after, other, j) && after[32 * j] != entries::ENTRY_END by {
            assert(entries::slot_at(after, j)[0] == after[32 * j]);
            if j < slot {
                laws::lemma_pieces_there(dir, slot, 1, slot - j);
                assert(entries::is_piece(dir, slot, slot - j));
            }
        }
        assert(entries::slot_at(after, slot)[0] == after[32 * slot]);
        lemma_other_found(dir, after, fat_type, other, from, slot + 1);
    }
}

/// A directory that grew still says what it said.
pub proof fn lemma_grown_others(dir: Seq<u8>, fat_type: FatType, name: Seq<char>, zeros: nat)
    requires
        dir.len() % 512 == 0,
        zeros % 32 == 0,
        32 * entries::end_slot(dir, 0) < dir.len() + zeros,
    ensures
        others_listed(dir, dir + bytes::zeros(zeros), fat_type, name),
{
    let more = dir + bytes::zeros(zeros);
    let n = entries::slot_count(dir);
    let end = entries::end_slot(dir, 0);
    entries::lemma_end_slot(dir, 0);
    laws::lemma_grown_slots(dir, zeros);
    laws::lemma_grown_end(dir, zeros);
    assert forall|other: Seq<char>| !names::same_name(other, name) implies #[trigger] still_says(
        dir,
        more,
        fat_type,
        other,
    ) by {
        laws::lemma_slot_first(dir, other, 0, end);
        if let Some(slot) = entries::slot_of(dir, other, 0, end) {
            assert forall|i: int| 0 <= i < slot implies !(entries::is_listed(more, i)
                && names::same_name(#[trigger] entries::name_at(more, i), other)) by {
                laws::lemma_names_alike(dir, more, n, i);
                assert(!(entries::is_listed(dir, i) && names::same_name(
                    entries::name_at(dir, i),
                    other,
                )));
            }
            laws::lemma_names_alike(dir, more, n, slot);
            laws::lemma_slot_found(more, other, 0, slot, end);
            assert(entries::slot_at(more, slot) == entries::slot_at(dir, slot));
        }
    }
}

/// A directory in which entries for a new name are stored still says what it said of the rest.
pub proof fn lemma_stored_others(
    dir: Seq<u8>,
    fat_type: FatType,
    name: Seq<char>,
    taken: Seq<Seq<u8>>,
    attr: u8,
    cluster: u32,
    size: u32,
    stamp: entries::Stamp,
    at: int,
)
    requires
        laws::plain_name(name),
        attr == entries::ATTR_ARCHIVE || attr == entries::ATTR_DIRECTORY,
        stored::new_entries(name, taken, attr, cluster, size, stamp) is Some,
        laws::no_stray_pieces(dir),
        0 <= at <= entries::end_slot(dir, 0),
        ({
            let new = stored::new_entries(name, taken, attr, cluster, size, stamp)->0;
            stored::fits_at(dir, at, new.len() as int / 32)
        }),
    ensures
        others_listed(
            dir,
            bytes::splice(
                dir,
                32 * at,
                stored::new_entries(name, taken, attr, cluster, size, stamp)->0,
            ),
            fat_type,
            name,
        ),
{
    let new = stored::new_entries(name, taken, attr, cluster, size, stamp)->0;
    let after = bytes::splice(dir, 32 * at, new);
    let m = laws::made(name, taken);
    let pieces = m.pieces;
    let own = stored::own_entry(m.short, m.case, attr, cluster, size, stamp);
    let units = stored::stored_units(name);
    let checksum = names::short_checksum(m.short);
    laws::lemma_made(name, taken, attr, cluster, size, stamp);
    laws::lemma_own_entry(m.short, m.case, attr, cluster, size, stamp);
    let slot = at + pieces;
    assert(new.len() == 32 * (pieces + 1));
    laws::lemma_placed(dir, at, pieces, units, checksum, own);
    assert(stored::is_free(dir, at));
    laws::lemma_name_stored(dir, after, name, taken, at, own);
    let count = entries::slot_count(dir);
    let end = entries::end_slot(dir, 0);
    assert(after[32 * slot] == entries::slot_at(after, slot)[0]);
    assert forall|other: Seq<char>| !names::same_name(other, name) implies #[trigger] still_says(
        dir,
        after,
        fat_type,
        other,
    ) by {
        lemma_stored_other(dir, after, fat_type, name, other, at, pieces, units, checksum, own);
    }
}

/// Slots in which the pieces of a long name and the entry of another name are stored, where they
/// were free, don't change what a directory says of a name.
#[verifier::spinoff_prover]
proof fn lemma_stored_other(
    dir: Seq<u8>,
    after: Seq<u8>,
    fat_type: FatType,
    name: Seq<char>,
    other: Seq<char>,
    at: int,
    pieces: int,
    units: Seq<u16>,
    checksum: u8,
    own: Seq<u8>,
)
    requires
        0 <= pieces <= 20,
        units.len() >= 13 * pieces,
        0 <= at,
        at + pieces < entries::slot_count(dir),
        after.len() == dir.len(),
        forall|i: int|
            0 <= i < dir.len() && !(32 * at <= i < 32 * (at + pieces + 1)) ==> #[trigger] after[i]
                == dir[i],
        stored::fits_at(dir, at, pieces + 1),
        laws::placed(after, at, pieces, units, checksum, own),
        entries::is_own(own),
        entries::name_at(after, at + pieces) == name,
        !names::same_name(other, name),
    ensures
        still_says(dir, after, fat_type, other),
{
    let slot = at + pieces;
    let count = entries::slot_count(dir);
    let end = entries::end_slot(dir, 0);
    assert forall|j: int| 0 <= j < count && !(at <= j < slot + 1) implies #[trigger] entries::slot_at(dir, j)
        == entries::slot_at(after, j) by {
        assert(entries::slot_at(dir, j) =~= entries::slot_at(after, j));
    }
    assert forall|j: int|
        at <= j < slot + 1 && j < end implies !#[trigger] laws::lists(dir, other, j)
        && !laws::lists(after, other, j) && after[32 * j] != entries::ENTRY_END by {
        assert(stored::is_free(dir, j));
        assert(entries::slot_at(dir, j)[0] == dir[32 * j]);
        assert(entries::slot_at(after, j)[0] == after[32 * j]);
        if j < slot {
            assert(entries::slot_at(after, at + (j - at)) == stored::long_entry(
                units,
                pieces - (j - at),
                pieces - (j - at) == pieces,
                checksum,
            ));
            laws::lemma_long_entry(units, pieces - (j - at), pieces - (j - at) == pieces, checksum);
        }
    }
    if slot + 1 < end {
        assert(stored::is_free(dir, slot));
        assert(entries::slot_at(dir, slot)[0] == dir[32 * slot]);
    }
    lemma_other_found(dir, after, fat_type, other, at, slot + 1);
}

/// Two changes after one another.
pub proof fn lemma_others_twice(
    a: Seq<u8>,
    b: Seq<u8>,
    c: Seq<u8>,
    fat_type: FatType,
    name: Seq<char>,
)
    requires
        others_listed(a, b, fat_type, name),
        others_listed(b, c, fat_type, name),
    ensures
        others_listed(a, c, fat_type, name),
{
    assert forall|other: Seq<char>| !names::same_name(other, name) implies #[trigger] still_says(
        a,
        c,
        fat_type,
        other,
    ) by {
        assert(still_says(a, b, fat_type, other));
        assert(still_says(b, c, fat_type, other));
    }
}

// Paths.
/// Whether looking `other` up in a directory has nothing to do with a change of `name` in
/// `changed` in which the sectors `touched` change: it is that directory, and another name; or
/// none of its sectors are among them.
pub open spec fn beside(
    layout: Layout,
    disk: Disk,
    dir: Dir,
    other: Seq<char>,
    changed: Dir,
    name: Seq<char>,
    touched: Seq<int>,
) -> bool {
    ||| dir == changed && !names::same_name(other, name)
    ||| (layout.dir_sectors(disk, dir) matches Ok(places) ==> laws::apart(places, touched))
}

/// Whether that holds of every name that `parts` lead by, from `dir` on.
pub open spec fn way_beside(
    layout: Layout,
    disk: Disk,
    dir: Dir,
    parts: Seq<Seq<char>>,
    changed: Dir,
    name: Seq<char>,
    touched: Seq<int>,
) -> bool
    decreases parts.len(),
{
    if parts.len() == 0 {
        true
    } else {
        let rest = parts.subrange(1, parts.len() as int);
        if parts[0].len() == 0 {
            way_beside(layout, disk, dir, rest, changed, name, touched)
        } else {
            &&& beside(layout, disk, dir, parts[0], changed, name, touched)
            &&& layout.lookup(disk, dir, parts[0]) matches Ok(located) ==> way_beside(
                layout,
                disk,
                volume::dir_at(located.entry.first_cluster),
                rest,
                changed,
                name,
                touched,
            )
        }
    }
}

/// Whether between two disks nothing changed but free clusters, what has sectors among
/// `touched`, and what a directory says of `name`.
pub open spec fn changed_only(
    layout: Layout,
    a: Disk,
    b: Disk,
    changed: Dir,
    name: Seq<char>,
    touched: Seq<int>,
) -> bool {
    &&& laws::spared(layout, a, b, touched)
    &&& layout.dir_bytes(a, changed) matches Ok(held) ==> laws::says_the_rest(
        layout,
        b,
        changed,
        held,
        name,
    )
}

/// What is beside a change is found as it was.
proof fn lemma_lookup_beside(
    layout: Layout,
    a: Disk,
    b: Disk,
    dir: Dir,
    other: Seq<char>,
    changed: Dir,
    name: Seq<char>,
    touched: Seq<int>,
)
    requires
        laws::sound(layout, a),
        changed_only(layout, a, b, changed, name, touched),
        beside(layout, a, dir, other, changed, name, touched),
    ensures
        layout.lookup(a, dir, other) matches Ok(located) ==> (layout.lookup(
            b,
            dir,
            other,
        ) matches Ok(found) && found.entry == located.entry),
{
    if let Ok(located) = layout.lookup(a, dir, other) {
        let held = layout.dir_bytes(a, dir)->Ok_0;
        if dir == changed && !names::same_name(other, name) {
            let now = layout.dir_bytes(b, dir)->Ok_0;
            assert(still_says(held, now, layout.fat_type, other));
        } else {
            laws::lemma_dir_spared(layout, a, b, dir, touched);
        }
    }
}

/// A way beside a change leads where it did.
pub proof fn lemma_way_beside(
    layout: Layout,
    a: Disk,
    b: Disk,
    dir: Dir,
    parts: Seq<Seq<char>>,
    changed: Dir,
    name: Seq<char>,
    touched: Seq<int>,
)
    requires
        laws::sound(layout, a),
        changed_only(layout, a, b, changed, name, touched),
        way_beside(layout, a, dir, parts, changed, name, touched),
    ensures
        layout.dir_from(a, dir, parts) is Ok ==> layout.dir_from(b, dir, parts) == layout.dir_from(
            a,
            dir,
            parts,
        ),
    decreases parts.len(),
{
    if layout.dir_from(a, dir, parts) is Ok && parts.len() > 0 {
        let rest = parts.subrange(1, parts.len() as int);
        if parts[0].len() == 0 {
            lemma_way_beside(layout, a, b, dir, rest, changed, name, touched);
        } else {
            lemma_lookup_beside(layout, a, b, dir, parts[0], changed, name, touched);
            let located = layout.lookup(a, dir, parts[0])->Ok_0;
            lemma_way_beside(
                layout,
                a,
                b,
                volume::dir_at(located.entry.first_cluster),
                rest,
                changed,
                name,
                touched,
            );
        }
    }
}

/// What is read of a chain is the start of it.
proof fn lemma_chain_start(layout: Layout, disk: Disk, c: u32, left: nat, need: Option<int>)
    requires
        layout.chain_from(disk, c, left, None) is Ok,
    ensures
        layout.chain_from(disk, c, left, need) matches Ok(start) && start.len()
            <= layout.chain_from(disk, c, left, None)->Ok_0.len() && forall|k: int|
            0 <= k < start.len() ==> #[trigger] start[k] == layout.chain_from(
                disk,
                c,
                left,
                None,
            )->Ok_0[k],
    decreases left,
{
    if let volume::Link::To(next) = layout.link(disk, c) {
        let more = match need {
            Some(n) => Some(n - layout.cluster_bytes()),
            None => None,
        };
        lemma_chain_start(layout, disk, next, (left - 1) as nat, more);
        let all = layout.chain_from(disk, c, left, None)->Ok_0;
        let rest = layout.chain_from(disk, next, (left - 1) as nat, None)->Ok_0;
        let part = layout.chain_from(disk, next, (left - 1) as nat, more)->Ok_0;
        let start = layout.chain_from(disk, c, left, need)->Ok_0;
        assert forall|k: int| 0 <= k < start.len() implies #[trigger] start[k] == all[k] by {
            if k > 0 {
                assert(start[k] == part[k - 1]);
                assert(all[k] == rest[k - 1]);
            }
        }
    }
}

/// A chain that was spared holds what it held.
pub proof fn lemma_chain_spared(
    layout: Layout,
    a: Disk,
    b: Disk,
    first: u32,
    limit: Option<int>,
    touched: Seq<int>,
)
    requires
        laws::sound(layout, a),
        laws::spared(layout, a, b, touched),
        layout.chain(a, first) matches Ok(clusters) && laws::apart(
            layout.sectors_of(clusters),
            touched,
        ),
    ensures
        layout.chain_bytes(b, first, limit) == layout.chain_bytes(a, first, limit),
{
    let left = layout.cluster_count as nat;
    let clusters = layout.chain(a, first)->Ok_0;
    let places = layout.sectors_of(clusters);
    laws::lemma_dir_sectors(layout, a, Dir::Chain(entries::Cluster(first)));
    laws::lemma_chain_used(layout, a, first, left);
    read::lemma_chain_valid(layout, a, first, left, None);
    lemma_chain_start(layout, a, first, left, limit);
    let start = layout.chain_from(a, first, left, limit)->Ok_0;
    assert forall|k: int| 0 <= k < start.len() implies layout.fat_entry(b, #[trigger] start[k])
        == layout.fat_entry(a, start[k]) by {
        let c = clusters[k];
        assert(start[k] == c);
        let t = layout.first_sector(c);
        assert(laws::in_cluster(layout, clusters[k], t));
        laws::lemma_sector_of(layout, clusters, t);
        let i = choose|i: int| 0 <= i < places.len() && places[i] == t;
        assert(!touched.contains(places[i]));
        assert(layout.has_cluster(c) && layout.fat_entry(a, c) != 0);
    }
    laws::lemma_chain_same(layout, a, b, first, left, limit);
    let sectors = layout.sectors_of(start);
    assert forall|k: int| 0 <= k < start.len() implies layout.has_cluster(#[trigger] start[k]) by {
        assert(start[k] == clusters[k]);
    }
    assert forall|i: int| 0 <= i < sectors.len() implies layout.sector(a, #[trigger] sectors[i])
        == layout.sector(b, sectors[i]) by {
        let t = sectors[i];
        assert(sectors.contains(t));
        laws::lemma_sector_of(layout, start, t);
        let k = choose|k: int| 0 <= k < start.len() && laws::in_cluster(
            layout,
            #[trigger] start[k],
            t,
        );
        assert(start[k] == clusters[k]);
        assert(laws::in_cluster(layout, clusters[k], t));
        laws::lemma_sector_of(layout, clusters, t);
        let m = choose|m: int| 0 <= m < places.len() && places[m] == t;
        assert(!touched.contains(places[m]));
        assert(!laws::in_free(layout, a, places[m]));
    }
    laws::lemma_bytes_same(layout, a, b, sectors);
}

/// Whether the file or directory at `other` has nothing to do with a change of `name` in
/// `changed` in which the sectors `touched` change: the way to it is beside the change, and so is
/// it; and if it is a file, its chain is whole and has none of those sectors.
pub open spec fn path_beside(
    layout: Layout,
    disk: Disk,
    other: Seq<char>,
    changed: Dir,
    name: Seq<char>,
    touched: Seq<int>,
) -> bool {
    let (way, last) = volume::split_path(other);
    &&& way_beside(
        layout,
        disk,
        Dir::Root,
        text::pieces_from(way, 0, '/'),
        changed,
        name,
        touched,
    )
    &&& layout.dir_of(disk, way) matches Ok(dir) ==> beside(
        layout,
        disk,
        dir,
        last,
        changed,
        name,
        touched,
    )
    &&& layout.entry_of(disk, other) matches Ok(entry) ==> (entry.kind == EntryKind::File
        && entry.size > 0 ==> (layout.chain(disk, entry.first_cluster.0) matches Ok(clusters)
        && laws::apart(layout.sectors_of(clusters), touched)))
}

/// Whether between two disks what is at a path stayed as it was.
pub open spec fn stays(layout: Layout, a: Disk, b: Disk, path: Seq<char>) -> bool {
    &&& layout.entry_of(a, path) is Ok ==> layout.entry_of(b, path) == layout.entry_of(a, path)
    &&& layout.file_of(a, path) is Ok ==> layout.file_of(b, path) == layout.file_of(a, path)
}

/// What is beside a change stays.
pub proof fn lemma_path_beside(
    layout: Layout,
    a: Disk,
    b: Disk,
    other: Seq<char>,
    changed: Dir,
    name: Seq<char>,
    touched: Seq<int>,
)
    requires
        laws::sound(layout, a),
        changed_only(layout, a, b, changed, name, touched),
        path_beside(layout, a, other, changed, name, touched),
    ensures
        stays(layout, a, b, other),
{
    if let Ok(entry) = layout.entry_of(a, other) {
        let (way, last) = volume::split_path(other);
        let dir = layout.dir_of(a, way)->Ok_0;
        lemma_way_beside(
            layout,
            a,
            b,
            Dir::Root,
            text::pieces_from(way, 0, '/'),
            changed,
            name,
            touched,
        );
        lemma_lookup_beside(layout, a, b, dir, last, changed, name, touched);
        if entry.kind == EntryKind::File && entry.size > 0 {
            lemma_chain_spared(
                layout,
                a,
                b,
                entry.first_cluster.0,
                Some(entry.size as int),
                touched,
            );
        }
    }
}

/// Whether what is at `other` has nothing to do with what is at `path`: they are two paths, and
/// neither the directories on the way to it nor what it holds share sectors with the directory
/// that `path` is in, but for that directory itself, nor with what `path` holds.
pub open spec fn elsewhere(v: Volume, path: Seq<char>, other: Seq<char>) -> bool {
    let (parent, name) = volume::split_path(path);
    v.layout.dir_of(v.disk, parent) matches Ok(dir) ==> (v.layout.dir_sectors(
        v.disk,
        dir,
    ) matches Ok(places) ==> path_beside(
        v.layout,
        v.disk,
        other,
        dir,
        name,
        places + laws::sectors_from(
            v.layout,
            v.disk,
            laws::old_start(v, v.layout.bytes_at(v.disk, places), name),
        ),
    ))
}

/// Finishing a change leaves all the rest as it is.
pub proof fn lemma_finished_only(
    v: Volume,
    z: Volume,
    changed: Dir,
    name: Seq<char>,
    touched: Seq<int>,
)
    requires
        z.layout == v.layout,
        laws::sound(v.layout, z.disk),
        changed_only(v.layout, v.disk, z.disk, changed, name, touched),
    ensures
        changed_only(v.layout, v.disk, z.finished().disk, changed, name, touched),
{
    let layout = v.layout;
    let last = z.finished().disk;
    laws::lemma_finished(z);
    laws::lemma_fat_end(layout);
    laws::lemma_bytes_kept(layout, z.disk, last, changed);
    assert forall|c: u32|
        layout.has_cluster(c) && layout.fat_entry(v.disk, c) != 0 && !touched.contains(
            layout.first_sector(c),
        ) implies #[trigger] layout.fat_entry(last, c) == layout.fat_entry(v.disk, c) by {
        assert(layout.fat_entry(z.disk, c) == layout.fat_entry(v.disk, c));
    }
    assert forall|t: int|
        laws::fat_end(layout) <= t <= 0xFFFF_FFFF && !touched.contains(t) && !laws::in_free(
            layout,
            v.disk,
            t,
        ) implies #[trigger] layout.sector(last, t) == layout.sector(v.disk, t) by {
        assert(layout.sector(z.disk, t) == layout.sector(v.disk, t));
    }
}

/// Writing a file leaves everything else as it was.
pub proof fn writing_leaves_the_rest(
    v: Volume,
    path: Seq<char>,
    data: Seq<u8>,
    other: Seq<char>,
)
    requires
        laws::in_order(v, path),
        v.file_written(path, data).0 is Ok,
        elsewhere(v, path, other),
    ensures
        stays(v.layout, v.disk, v.file_written(path, data).1.disk, other),
{
    let layout = v.layout;
    let (parent, name) = volume::split_path(path);
    let dir = layout.dir_of(v.disk, parent)->Ok_0;
    let places = layout.dir_sectors(v.disk, dir)->Ok_0;
    let held = layout.bytes_at(v.disk, places);
    let old = laws::old_start(v, held, name);
    let touched = places + laws::sectors_from(layout, v.disk, old);
    let z = v.file_changed(path, data).1;
    laws::lemma_file_put(v, dir, places, name, data);
    assert(changed_only(layout, v.disk, z.disk, dir, name, touched));
    lemma_finished_only(v, z, dir, name, touched);
    lemma_path_beside(layout, v.disk, z.finished().disk, other, dir, name, touched);
}

/// Making a directory leaves everything else as it was.
pub proof fn making_directories_leaves_the_rest(v: Volume, path: Seq<char>, other: Seq<char>)
    requires
        laws::in_order(v, path),
        v.dir_created(path).0 is Ok,
        elsewhere(v, path, other),
    ensures
        stays(v.layout, v.disk, v.dir_created(path).1.disk, other),
{
    let layout = v.layout;
    let (parent, name) = volume::split_path(path);
    let dir = layout.dir_of(v.disk, parent)->Ok_0;
    let places = layout.dir_sectors(v.disk, dir)->Ok_0;
    let touched = places + laws::sectors_from(layout, v.disk, 0);
    laws::lemma_dir_made(v, path, dir, places);
    let z = v.dir_changed(path).1;
    assert(touched =~= places);
    assert(changed_only(layout, v.disk, z.disk, dir, name, touched));
    lemma_finished_only(v, z, dir, name, touched);
    lemma_path_beside(layout, v.disk, z.finished().disk, other, dir, name, touched);
}

/// What removing a file or directory changes.
pub proof fn lemma_removed_only(v: Volume, path: Seq<char>, dir: Dir, places: Seq<int>)
    requires
        laws::ready(v, path),
        v.removed(path).0 is Ok,
        v.layout.dir_of(v.disk, volume::split_path(path).0) == Ok::<Dir, volume::Fault>(dir),
        v.layout.dir_sectors(v.disk, dir) == Ok::<Seq<int>, volume::Fault>(places),
    ensures
        ({
            let name = volume::split_path(path).1;
            let old = laws::old_start(v, v.layout.bytes_at(v.disk, places), name);
            changed_only(
                v.layout,
                v.disk,
                v.removed(path).1.disk,
                dir,
                name,
                places + laws::sectors_from(v.layout, v.disk, old),
            )
        }),
{
    let layout = v.layout;
    let (parent, name) = volume::split_path(path);
    let held = layout.bytes_at(v.disk, places);
    let located = entries::entry_for(held, layout.fat_type, name)->0;
    let old = located.entry.first_cluster.0;
    let touched = places + laws::sectors_from(layout, v.disk, old);
    let b = v.begun();
    let image = ImageModel { places, bytes: held };
    let changed = ImageModel {
        bytes: change::with_deleted(held, located.first_slot, located.slot + 1),
        ..image
    };
    let x = b.dir_stored(changed, located.first_slot, located.slot + 1);
    let none = Seq::<u32>::empty();
    let no_data = Seq::<u8>::empty();
    lemma_deleted_others(held, layout.fat_type, name);
    lemma_deleted_part(held, layout.fat_type, name);
    laws::lemma_dir_sectors(layout, v.disk, dir);
    laws::lemma_held_length(layout, v.disk, places);
    laws::lemma_dir_stored(
        layout,
        b.disk,
        dir,
        places,
        changed.bytes,
        located.first_slot,
        located.slot + 1,
    );
    assert(layout.sectors_of(none) + places =~= places);
    laws::lemma_dir_kept(layout, b.disk, x.disk, dir);
    laws::lemma_freed_after(b, x, none, dir, places, changed.bytes, no_data, old);
    let z = v.path_removed(path).1;
    assert(z == x.chain_freed(old).1);
    assert(changed_only(layout, v.disk, z.disk, dir, name, touched));
    lemma_finished_only(v, z, dir, name, touched);
}

/// Removing a file or directory leaves everything else as it was.
pub proof fn removing_leaves_the_rest(v: Volume, path: Seq<char>, other: Seq<char>)
    requires
        laws::ready(v, path),
        v.removed(path).0 is Ok,
        elsewhere(v, path, other),
    ensures
        stays(v.layout, v.disk, v.removed(path).1.disk, other),
{
    let layout = v.layout;
    let (parent, name) = volume::split_path(path);
    let dir = layout.dir_of(v.disk, parent)->Ok_0;
    let places = layout.dir_sectors(v.disk, dir)->Ok_0;
    let old = laws::old_start(v, layout.bytes_at(v.disk, places), name);
    lemma_removed_only(v, path, dir, places);
    lemma_path_beside(
        layout,
        v.disk,
        v.removed(path).1.disk,
        other,
        dir,
        name,
        places + laws::sectors_from(layout, v.disk, old),
    );
}

/// What marking a name's entries deleted changes of a directory.
pub proof fn lemma_deleted_part(dir: Seq<u8>, fat_type: FatType, name: Seq<char>)
    requires
        entries::entry_for(dir, fat_type, name) is Some,
    ensures
        ({
            let located = entries::entry_for(dir, fat_type, name)->0;
            let after = change::with_deleted(dir, located.first_slot, located.slot + 1);
            &&& 0 <= located.first_slot <= located.slot < entries::slot_count(dir)
            &&& after.len() == dir.len()
            &&& forall|i: int|
                0 <= i < dir.len() && !(32 * located.first_slot <= i < 32 * (located.slot + 1))
                    ==> #[trigger] after[i] == dir[i]
        }),
{
    let end = entries::end_slot(dir, 0);
    entries::lemma_end_slot(dir, 0);
    laws::lemma_slot_first(dir, name, 0, end);
    let located = entries::entry_for(dir, fat_type, name)->0;
    entries::lemma_pieces(dir, located.slot, 1);
    laws::lemma_deleted(dir, located.first_slot, located.slot + 1);
}

} // verus!
