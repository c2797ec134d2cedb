//! What replacing the data of a file gives back, and what it keeps of the file's entry.

use super::change;
use super::change::Volume;
use super::counts;
use super::cuts;
use super::entries;
use super::laws;
use super::listings;
use super::stored;
use super::volume;
use super::volume::{Dir, Fault};
use crate::bytes;
use vstd::prelude::*;

verus! {

/// Replacing what a file holds takes the clusters that the new data needs, and gives back those
/// of the old.
#[verifier::spinoff_prover]
pub proof fn replacing_gives_back_the_old_clusters(v: Volume, path: Seq<char>, data: Seq<u8>)
    requires
        laws::ready(v, path),
        v.file_written(path, data).0 is Ok,
        v.layout.entry_of(v.disk, path) is Ok,
    ensures
        ({
            let old = (v.layout.entry_of(v.disk, path)->Ok_0).first_cluster.0;
            let needed = (data.len() + v.layout.cluster_bytes() - 1) / v.layout.cluster_bytes();
            v.layout.free_in(v.file_written(path, data).1.disk) + needed == v.layout.free_in(
                v.disk,
            ) + counts::chain_length(v.layout, v.disk, old)
        }),
{
    let layout = v.layout;
    let (parent, name) = volume::split_path(path);
    let dir = layout.dir_of(v.disk, parent)->Ok_0;
    let image = v.image_of(dir)->Ok_0;
    let located = entries::entry_for(image.bytes, layout.fat_type, name)->0;
    let old = located.entry.first_cluster.0;
    let b = v.begun();
    let w = b.chain_written(data).1;
    let first = b.chain_written(data).0->Ok_0;
    let new = laws::clusters_taken(b, data);
    let size = layout.cluster_bytes();
    laws::lemma_chain_written(b, data);
    let changed = cuts::pointed(image, located.slot, first, data.len() as u32, v.stamp);
    let x = w.dir_stored(changed, located.slot, located.slot + 1);
    laws::lemma_repointed_disk(b, w, new, dir, image.places, name, data, first);
    counts::lemma_freed_count(
        b,
        x,
        new,
        layout.sectors_of(new) + image.places,
        change::padded(data, new.len() * size),
        old,
    );
    if data.len() == 0 {
        assert((0 + size - 1) / size == 0) by (nonlinear_arith)
            requires
                size >= 512,
        ;
    }
    counts::lemma_finished_count(v.file_changed(path, data).1);
}

/// What an entry says once it is pointed at other data.
#[verifier::spinoff_prover]
proof fn lemma_says(
    held: Seq<u8>,
    fat_type: entries::FatType,
    name: Seq<char>,
    first: u32,
    size: u32,
    stamp: entries::Stamp,
)
    requires
        entries::entry_for(held, fat_type, name) is Some,
        (entries::entry_for(held, fat_type, name)->0).entry.kind == entries::EntryKind::File,
        fat_type == entries::FatType::Fat16 ==> first < 0x1_0000,
    ensures
        ({
            let located = entries::entry_for(held, fat_type, name)->0;
            let slot = located.slot;
            let now = bytes::splice(held, 32 * slot + 20, stored::pointer(first, size, stamp));
            let found = entries::located_at(now, slot, fat_type);
            &&& 0 <= slot < entries::slot_count(held)
            &&& found.first_slot == located.first_slot
            &&& found.entry == (entries::EntryModel {
                size,
                first_cluster: entries::Cluster(first),
                modified: stamp,
                ..located.entry
            })
        }),
{
    let located = entries::entry_for(held, fat_type, name)->0;
    let slot = located.slot;
    let end = entries::end_slot(held, 0);
    let count = entries::slot_count(held);
    let pointer = stored::pointer(first, size, stamp);
    let now = bytes::splice(held, 32 * slot + 20, pointer);
    entries::lemma_end_slot(held, 0);
    laws::lemma_slot_first(held, name, 0, end);
    let own = entries::slot_at(now, slot);
    assert(own.subrange(20, 32) =~= pointer);
    laws::lemma_pointer(own, first, size, stamp);
    assert forall|i: int| 0 <= i < count implies laws::same_head(
        #[trigger] entries::slot_at(held, i),
        entries::slot_at(now, i),
    ) by {
        let x = entries::slot_at(held, i);
        let y = entries::slot_at(now, i);
        assert(x.subrange(0, 20) =~= y.subrange(0, 20));
        if i != slot {
            assert(x =~= y);
        }
    }
    laws::lemma_names_alike(held, now, count, slot);
    assert(own[11] == held[32 * slot + 11]);
    assert(entries::slot_at(held, slot)[11] == held[32 * slot + 11]);
}

/// A directory stays but for the part of an entry that points at its data.
#[verifier::rlimit(30)]
#[verifier::spinoff_prover]
proof fn lemma_pointed(
    held: Seq<u8>,
    fat_type: entries::FatType,
    name: Seq<char>,
    first: u32,
    size: u32,
    stamp: entries::Stamp,
)
    requires
        entries::entry_for(held, fat_type, name) is Some,
        (entries::entry_for(held, fat_type, name)->0).entry.kind == entries::EntryKind::File,
        fat_type == entries::FatType::Fat16 ==> first < 0x1_0000,
    ensures
        ({
            let located = entries::entry_for(held, fat_type, name)->0;
            let slot = located.slot;
            let now = bytes::splice(held, 32 * slot + 20, stored::pointer(first, size, stamp));
            only_the_pointer(held, now, fat_type, name, first, size, stamp)
        }),
{
    let located = entries::entry_for(held, fat_type, name)->0;
    let slot = located.slot;
    let start = 32 * slot + 20;
    let pointer = stored::pointer(first, size, stamp);
    let now = bytes::splice(held, start, pointer);
    lemma_says(held, fat_type, name, first, size, stamp);
    listings::lemma_repointed_slot(held, fat_type, name, first, size, stamp);
    listings::lemma_shown_repointed(held, fat_type, name, first, size, stamp);
    assert(now.subrange(start, start + 12) =~= pointer);
    let before = listings::shown(held, fat_type);
    let found = entries::located_at(now, slot, fat_type).entry;
    let i = choose|i: int|
        {
            &&& 0 <= i < before.len()
            &&& #[trigger] before[i] == located.entry
            &&& listings::shown(now, fat_type) == before.update(i, found)
        };
    assert(before[i] == located.entry);
}

/// Whether of a directory that lists `name` as a file nothing changed but the last 12 bytes of
/// that entry's own slot: the first cluster, the time of the last change and the size. All that
/// is before them stays, such as the stored names and the date the file was created on; and so
/// the directory lists the same names in the same order.
pub open spec fn only_the_pointer(
    held: Seq<u8>,
    now: Seq<u8>,
    fat_type: entries::FatType,
    name: Seq<char>,
    first: u32,
    size: u32,
    stamp: entries::Stamp,
) -> bool {
    let located = entries::entry_for(held, fat_type, name)->0;
    let start = 32 * located.slot + 20;
    let before = listings::shown(held, fat_type);
    &&& 0 <= start
    &&& start + 12 <= held.len()
    &&& now.len() == held.len()
    &&& forall|i: int|
        0 <= i < held.len() && !(start <= i < start + 12) ==> #[trigger] now[i] == held[i]
    &&& now.subrange(start, start + 12) == stored::pointer(first, size, stamp)
    &&& entries::entry_for(now, fat_type, name) matches Some(found)
    &&& found.slot == located.slot
    &&& found.first_slot == located.first_slot
    &&& found.entry == (entries::EntryModel {
        size,
        first_cluster: entries::Cluster(first),
        modified: stamp,
        ..located.entry
    })
    &&& exists|i: int|
        0 <= i < before.len() && #[trigger] before[i] == located.entry && listings::shown(
            now,
            fat_type,
        ) == before.update(i, found.entry)
    &&& listings::shown(now, fat_type).len() == before.len()
    &&& forall|k: int|
        0 <= k < before.len() ==> (#[trigger] listings::shown(now, fat_type)[k]).name
            == before[k].name
}

/// Replacing what a file holds changes nothing of its directory but, of the file's own entry, the
/// first cluster, the size and the time of the last change. Its created date and its stored
/// names are kept, and the directory lists the same names in the same order.
#[verifier::spinoff_prover]
pub proof fn replacing_keeps_the_entry(v: Volume, path: Seq<char>, data: Seq<u8>)
    requires
        laws::ready(v, path),
        v.file_written(path, data).0 is Ok,
        v.layout.entry_of(v.disk, path) is Ok,
    ensures
        ({
            let (parent, name) = volume::split_path(path);
            let after = v.file_written(path, data).1.disk;
            let dir = v.layout.dir_of(v.disk, parent)->Ok_0;
            let first = v.begun().chain_written(data).0->Ok_0;
            &&& v.layout.dir_of(after, parent) == Ok::<Dir, Fault>(dir)
            &&& v.layout.dir_bytes(v.disk, dir) matches Ok(held)
            &&& v.layout.dir_bytes(after, dir) matches Ok(now)
            &&& only_the_pointer(
                held,
                now,
                v.layout.fat_type,
                name,
                first,
                data.len() as u32,
                v.stamp,
            )
        }),
{
    let layout = v.layout;
    let (parent, name) = volume::split_path(path);
    let dir = layout.dir_of(v.disk, parent)->Ok_0;
    let image = v.image_of(dir)->Ok_0;
    let places = image.places;
    let located = entries::entry_for(image.bytes, layout.fat_type, name)->0;
    let old = located.entry.first_cluster.0;
    let b = v.begun();
    let w = b.chain_written(data).1;
    let first = b.chain_written(data).0->Ok_0;
    let new = laws::clusters_taken(b, data);
    let size = data.len() as u32;
    laws::lemma_chain_written(b, data);
    let changed = cuts::pointed(image, located.slot, first, size, v.stamp);
    let x = w.dir_stored(changed, located.slot, located.slot + 1);
    laws::lemma_repointed_disk(b, w, new, dir, places, name, data, first);
    laws::lemma_freed_after(b, x, new, dir, places, changed.bytes, data, old);
    let z = v.file_changed(path, data).1;
    assert(z == x.chain_freed(old).1);
    lemma_pointed(image.bytes, layout.fat_type, name, first, size, v.stamp);
    listings::lemma_finished_shown(
        v,
        z,
        dir,
        parent,
        places + laws::sectors_from(layout, v.disk, old),
        changed.bytes,
    );
}

} // verus!
