//! What a change that fails leaves: everything that was there, and every free cluster free.

use super::change::{ImageModel, Volume};
use super::cuts;
use super::entries;
use super::entries::EntryKind;
use super::laws;
use super::others;
use super::volume;
use super::volume::{Dir, Disk, Fault, Layout};
use vstd::prelude::*;

verus! {

/// Whether between two disks nothing changed but what free clusters hold, and they are still
/// free.
pub open spec fn nothing_lost(layout: Layout, a: Disk, b: Disk) -> bool {
    &&& laws::sound(layout, b)
    &&& laws::spared(layout, a, b, Seq::empty())
    &&& forall|c: u32|
        layout.has_cluster(c) ==> #[trigger] layout.fat_entry(b, c) == layout.fat_entry(a, c)
}

/// Whether the chain of the file at a path is whole, if there is one.
pub open spec fn whole(layout: Layout, disk: Disk, path: Seq<char>) -> bool {
    layout.entry_of(disk, path) matches Ok(entry) ==> (entry.kind == EntryKind::File && entry.size
        > 0 && entry.first_cluster.0 != 0 ==> layout.chain(disk, entry.first_cluster.0) is Ok)
}

proof fn lemma_same_disk(v: Volume, z: Volume)
    requires
        laws::sound(v.layout, v.disk),
        z.layout == v.layout,
        z.disk == v.disk,
    ensures
        nothing_lost(v.layout, v.disk, z.finished().disk),
{
    lemma_finished_lossless(v, z);
}

proof fn lemma_finished_lossless(v: Volume, z: Volume)
    requires
        z.layout == v.layout,
        laws::sound(v.layout, z.disk),
        nothing_lost(v.layout, v.disk, z.disk),
    ensures
        nothing_lost(v.layout, v.disk, z.finished().disk),
{
    let layout = v.layout;
    let last = z.finished().disk;
    laws::lemma_finished(z);
    laws::lemma_fat_end(layout);
    assert forall|c: u32| layout.has_cluster(c) implies #[trigger] layout.fat_entry(last, c)
        == layout.fat_entry(v.disk, c) by {
        assert(layout.fat_entry(z.disk, c) == layout.fat_entry(v.disk, c));
    }
    assert forall|t: int|
        laws::fat_end(layout) <= t <= 0xFFFF_FFFF && !laws::in_free(
            layout,
            v.disk,
            t,
        ) implies #[trigger] layout.sector(last, t) == layout.sector(v.disk, t) by {
        assert(layout.sector(z.disk, t) == layout.sector(v.disk, t));
    }
}

/// New clusters for which there is no room for an entry are free again.
proof fn lemma_entry_failed(
    b: Volume,
    w: Volume,
    new: Seq<u32>,
    data: Seq<u8>,
    dir: Dir,
    image: ImageModel,
    name: Seq<char>,
    attr: u8,
    first: u32,
    size: u32,
)
    requires
        laws::sound(b.layout, b.disk),
        laws::put_in(b, w, new, data),
        first == (if data.len() == 0 {
            0
        } else {
            new[0]
        }),
        w.entry_or_freed(dir, image, name, attr, first, size).0 is Err,
    ensures
        ({
            let z = w.entry_or_freed(dir, image, name, attr, first, size).1;
            &&& z.layout == b.layout
            &&& laws::sound(b.layout, z.disk)
            &&& nothing_lost(b.layout, b.disk, z.disk)
        }),
{
    let layout = b.layout;
    let (added, same) = w.entry_added(dir, image, name, attr, first, size);
    let z = w.entry_or_freed(dir, image, name, attr, first, size).1;
    assert(same == w);
    if data.len() > 0 {
        assert(layout.has_cluster(new[0]));
        laws::lemma_chain_made(layout, w.disk, new, 0, layout.cluster_count as nat, None);
        assert(new.subrange(0, new.len() as int) =~= new);
        laws::lemma_with_freed(layout, w.disk, new, new.len() as int);
        cuts::lemma_freed_only(layout, w.disk, new, new.len() as int);
    } else {
        cuts::lemma_only_same(layout, w.disk, new);
    }
    cuts::lemma_only_then(
        layout,
        b.disk,
        w.disk,
        z.disk,
        layout.sectors_of(new),
        new,
        Seq::empty(),
        new,
    );
    cuts::lemma_free_spared(layout, b.disk, z.disk, new);
    assert forall|c: u32| layout.has_cluster(c) implies #[trigger] layout.fat_entry(z.disk, c)
        == layout.fat_entry(b.disk, c) by {
        if new.contains(c) {
            let k = choose|k: int| 0 <= k < new.len() && new[k] == c;
            assert(layout.fat_entry(b.disk, new[k]) == 0);
            assert(layout.fat_entry(z.disk, new[k]) == 0);
        }
    }
}

/// A write that fails loses nothing: every cluster that was free still is, and everything else is
/// as it was.
#[verifier::rlimit(40)]
#[verifier::spinoff_prover]
pub proof fn failed_writes_lose_nothing(
    v: Volume,
    path: Seq<char>,
    data: Seq<u8>,
    other: Seq<char>,
)
    requires
        laws::ready(v, path),
        v.file_written(path, data).0 is Err,
    ensures
        nothing_lost(v.layout, v.disk, v.file_written(path, data).1.disk),
        whole(v.layout, v.disk, other) ==> others::stays(
            v.layout,
            v.disk,
            v.file_written(path, data).1.disk,
            other,
        ),
{
    let layout = v.layout;
    let (parent, name) = volume::split_path(path);
    let z = v.file_changed(path, data).1;
    if z.disk == v.disk {
        lemma_same_disk(v, z);
    } else {
        let dir = layout.dir_of(v.disk, parent)->Ok_0;
        let image = v.image_of(dir)->Ok_0;
        let b = v.begun();
        let w = b.chain_written(data).1;
        let first = b.chain_written(data).0->Ok_0;
        let new = laws::clusters_taken(b, data);
        laws::lemma_chain_written(b, data);
        if let Some(located) = entries::entry_for(image.bytes, layout.fat_type, name) {
            let old = located.entry.first_cluster.0;
            let changed = cuts::pointed(
                image,
                located.slot,
                first,
                data.len() as u32,
                v.stamp,
            );
            let x = w.dir_stored(changed, located.slot, located.slot + 1);
            laws::lemma_repointed_disk(b, w, new, dir, image.places, name, data, first);
            laws::lemma_freed_after(b, x, new, dir, image.places, changed.bytes, data, old);
            assert(false);
        }
        lemma_entry_failed(
            b,
            w,
            new,
            data,
            dir,
            image,
            name,
            entries::ATTR_ARCHIVE,
            first,
            data.len() as u32,
        );
        lemma_finished_lossless(v, z);
    }
    lemma_lossless(layout, v.disk, z.finished().disk, other);
}

/// What is whole stays where nothing is lost.
pub proof fn lemma_lossless(layout: Layout, a: Disk, b: Disk, path: Seq<char>)
    requires
        laws::sound(layout, a),
        nothing_lost(layout, a, b),
    ensures
        whole(layout, a, path) ==> others::stays(layout, a, b, path),
{
    if whole(layout, a, path) && layout.entry_of(a, path) is Ok {
        cuts::lemma_untouched(layout, a, b, path);
    }
}

/// Making a directory, where it fails, loses nothing: every cluster that was free still is, and
/// everything else is as it was.
#[verifier::spinoff_prover]
pub proof fn directories_not_made_lose_nothing(v: Volume, path: Seq<char>, other: Seq<char>)
    requires
        laws::ready(v, path),
        v.dir_created(path).0 is Err,
    ensures
        nothing_lost(v.layout, v.disk, v.dir_created(path).1.disk),
        whole(v.layout, v.disk, other) ==> others::stays(
            v.layout,
            v.disk,
            v.dir_created(path).1.disk,
            other,
        ),
{
    let layout = v.layout;
    let (parent, name) = volume::split_path(path);
    let z = v.dir_changed(path).1;
    if z.disk == v.disk {
        lemma_same_disk(v, z);
    } else {
        let dir = layout.dir_of(v.disk, parent)->Ok_0;
        let image = v.image_of(dir)->Ok_0;
        let b = v.begun();
        let clusters = b.allocated(1)->0;
        let dots = v.dots(clusters[0], dir);
        let size = layout.cluster_bytes();
        assert(dots.len() == 64);
        assert((64 + size - 1) / size == 1) by (nonlinear_arith)
            requires
                size >= 512,
        ;
        let w = b.with_chain(clusters, dots);
        assert(b.chain_written(dots) == (Ok::<u32, Fault>(clusters[0]), w));
        assert(laws::clusters_taken(b, dots) == clusters);
        laws::lemma_chain_written(b, dots);
        lemma_entry_failed(
            b,
            w,
            clusters,
            dots,
            dir,
            image,
            name,
            entries::ATTR_DIRECTORY,
            clusters[0],
            0,
        );
        lemma_finished_lossless(v, z);
    }
    lemma_lossless(layout, v.disk, z.finished().disk, other);
}

/// Removing, where it fails, loses nothing: every cluster that was free still is, and everything
/// else is as it was.
#[verifier::spinoff_prover]
pub proof fn failed_removals_lose_nothing(v: Volume, path: Seq<char>, other: Seq<char>)
    requires
        laws::ready(v, path),
        v.removed(path).0 is Err,
    ensures
        nothing_lost(v.layout, v.disk, v.removed(path).1.disk),
        whole(v.layout, v.disk, other) ==> others::stays(
            v.layout,
            v.disk,
            v.removed(path).1.disk,
            other,
        ),
{
    let layout = v.layout;
    let (parent, name) = volume::split_path(path);
    let z = v.path_removed(path).1;
    if z.disk != v.disk {
        let dir = layout.dir_of(v.disk, parent)->Ok_0;
        let image = v.image_of(dir)->Ok_0;
        let places = image.places;
        let located = entries::entry_for(image.bytes, layout.fat_type, name)->0;
        let old = located.entry.first_cluster.0;
        let b = v.begun();
        let changed = cuts::without(image, located.first_slot, located.slot);
        let x = b.dir_stored(changed, located.first_slot, located.slot + 1);
        let none = Seq::<u32>::empty();
        others::lemma_deleted_part(image.bytes, layout.fat_type, name);
        laws::lemma_dir_sectors(layout, v.disk, dir);
        laws::lemma_held_length(layout, v.disk, places);
        laws::lemma_dir_stored(
            layout,
            b.disk,
            dir,
            places,
            changed.bytes,
            located.first_slot,
            located.slot + 1,
        );
        assert(layout.sectors_of(none) + places =~= places);
        laws::lemma_dir_kept(layout, b.disk, x.disk, dir);
        laws::lemma_freed_after(b, x, none, dir, places, changed.bytes, Seq::empty(), old);
        assert(false);
    }
    lemma_same_disk(v, z);
    lemma_lossless(layout, v.disk, z.finished().disk, other);
}

} // verus!
