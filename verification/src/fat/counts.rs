//! How many clusters are free before a change and after it.

use super::change::Volume;
use super::cuts;
use super::entries;
use super::laws;
use super::others;
use super::stored;
use super::upkeep;
use super::volume;
use super::volume::{Disk, Fault, Layout};
use vstd::prelude::*;

verus! {

/// The clusters that no chain uses.
pub open spec fn free_set(layout: Layout, disk: Disk) -> Set<u32> {
    Set::new(|c: u32| layout.has_cluster(c) && layout.fat_entry(disk, c) == 0)
}

/// A free cluster is found wherever the search starts.
proof fn lemma_found(layout: Layout, disk: Disk, start: u32, n: int, i: int)
    requires
        0 <= i < n,
        layout.fat_entry(disk, layout.nth_cluster(start, i)) == 0,
    ensures
        layout.free_among(disk, start, n).contains(layout.nth_cluster(start, i)),
    decreases n,
{
    let before = layout.free_among(disk, start, n - 1);
    let all = layout.free_among(disk, start, n);
    if i < n - 1 {
        lemma_found(layout, disk, start, n - 1, i);
        let k = choose|k: int| 0 <= k < before.len() && before[k] == layout.nth_cluster(start, i);
        assert(all[k] == before[k]);
    } else {
        assert(all.last() == layout.nth_cluster(start, i));
        assert(all[all.len() - 1] == all.last());
    }
}

/// As many clusters are found free as there are, wherever the search starts.
pub proof fn lemma_free_count(layout: Layout, disk: Disk, start: u32)
    requires
        layout.wf(),
        2 <= start <= layout.cluster_count + 1,
    ensures
        free_set(layout, disk).finite(),
        layout.free_among(disk, start, layout.cluster_count as int).len() == free_set(
            layout,
            disk,
        ).len(),
{
    let total = layout.cluster_count as int;
    let free = layout.free_among(disk, start, total);
    let set = free_set(layout, disk);
    laws::lemma_free_members(layout, disk, start, total);
    assert forall|c: u32| free.to_set().contains(c) <==> #[trigger] set.contains(c) by {
        if set.contains(c) {
            let i = if c >= start {
                c - start
            } else {
                c - start + total
            };
            laws::lemma_nth_cluster(layout, start, i);
            assert(layout.nth_cluster(start, i) == c);
            lemma_found(layout, disk, start, total, i);
        }
        if free.contains(c) {
            let k = choose|k: int| 0 <= k < free.len() && free[k] == c;
            assert(layout.has_cluster(free[k]));
        }
    }
    assert(free.to_set() =~= set);
    free.unique_seq_to_set();
}

/// What clusters that are taken and freed do to the number of free ones.
pub proof fn lemma_free_moved(
    layout: Layout,
    a: Disk,
    b: Disk,
    taken: Seq<u32>,
    freed: Seq<u32>,
)
    requires
        layout.wf(),
        taken.no_duplicates(),
        freed.no_duplicates(),
        forall|k: int|
            0 <= k < taken.len() ==> layout.has_cluster(#[trigger] taken[k]) && layout.fat_entry(
                a,
                taken[k],
            ) == 0 && layout.fat_entry(b, taken[k]) != 0,
        forall|k: int|
            0 <= k < freed.len() ==> layout.has_cluster(#[trigger] freed[k]) && layout.fat_entry(
                a,
                freed[k],
            ) != 0 && layout.fat_entry(b, freed[k]) == 0,
        forall|c: u32|
            layout.has_cluster(c) && !taken.contains(c) && !freed.contains(c) ==> (
            #[trigger] layout.fat_entry(b, c) == 0 <==> layout.fat_entry(a, c) == 0),
    ensures
        layout.free_in(b) + taken.len() == layout.free_in(a) + freed.len(),
{
    lemma_free_count(layout, a, 2);
    lemma_free_count(layout, b, 2);
    laws::lemma_free_members(layout, a, 2, layout.cluster_count as int);
    laws::lemma_free_members(layout, b, 2, layout.cluster_count as int);
    let x = free_set(layout, a);
    let y = free_set(layout, b);
    let t = taken.to_set();
    let f = freed.to_set();
    let kept = x.difference(t);
    taken.unique_seq_to_set();
    freed.unique_seq_to_set();
    assert forall|c: u32| t.contains(c) implies x.contains(c) && !y.contains(c) by {
        let k = choose|k: int| 0 <= k < taken.len() && taken[k] == c;
        assert(layout.has_cluster(taken[k]));
    }
    assert forall|c: u32| f.contains(c) implies !x.contains(c) && y.contains(c) by {
        let k = choose|k: int| 0 <= k < freed.len() && freed[k] == c;
        assert(layout.has_cluster(freed[k]));
    }
    assert forall|c: u32| y.contains(c) <==> (kept + f).contains(c) by {
        if layout.has_cluster(c) && !taken.contains(c) && !freed.contains(c) {
            assert(layout.fat_entry(b, c) == 0 <==> layout.fat_entry(a, c) == 0);
        }
    }
    assert(x =~= kept + t);
    assert(y =~= kept + f);
    assert(t.finite() && f.finite() && kept.finite());
    vstd::set_lib::lemma_set_disjoint_lens(kept, t);
    vstd::set_lib::lemma_set_disjoint_lens(kept, f);
}

/// All free clusters can be used: as many are allocated as are asked for, if there are so many.
pub proof fn free_clusters_can_all_be_used(v: Volume, count: int)
    requires
        v.layout.wf(),
        0 <= count,
    ensures
        v.allocated(count) is Some <==> count <= v.layout.free_in(v.disk),
{
    lemma_free_count(v.layout, v.disk, v.first_look());
    lemma_free_count(v.layout, v.disk, 2);
    laws::lemma_free_members(v.layout, v.disk, 2, v.layout.cluster_count as int);
}

/// Whether there is room for an entry by the name at a path: there is one already, or its slots
/// are free.
pub open spec fn entry_fits(v: Volume, path: Seq<char>, data: Seq<u8>) -> bool {
    let (parent, name) = volume::split_path(path);
    v.layout.dir_of(v.disk, parent) matches Ok(dir) ==> (v.image_of(dir) matches Ok(image) ==> {
        ||| entries::entry_for(image.bytes, v.layout.fat_type, name) is Some
        ||| (stored::new_entries(
            name,
            stored::taken_names(image.bytes),
            entries::ATTR_ARCHIVE,
            v.begun().chain_written(data).0->Ok_0,
            data.len() as u32,
            v.stamp,
        ) matches Some(new) && stored::run_from(image.bytes, 0, new.len() as int / 32) is Some)
    })
}

/// Data that fits in the free clusters, and be it in all of them, is not refused for want of
/// space, if its entry fits.
pub proof fn data_for_all_the_free_clusters_fits(v: Volume, path: Seq<char>, data: Seq<u8>)
    requires
        v.layout.wf(),
        data.len() == 0 || v.clusters_for(data.len() as int) <= v.layout.free_in(v.disk),
        entry_fits(v, path, data),
    ensures
        v.file_written(path, data).0 != Err::<(), Fault>(Fault::NoSpace),
        v.file_written(path, data).0 != Err::<(), Fault>(Fault::DirectoryFull),
{
    let layout = v.layout;
    let (parent, name) = volume::split_path(path);
    let b = v.begun();
    upkeep::lemma_faults_of_paths(v, parent);
    if data.len() > 0 {
        let n = data.len() as int;
        let size = layout.cluster_bytes();
        assert((n + size - 1) / size >= 0) by (nonlinear_arith)
            requires
                size > 0,
                n > 0,
        ;
        free_clusters_can_all_be_used(b, b.clusters_for(n));
    }
    if let Ok(dir) = layout.dir_of(v.disk, parent) {
        upkeep::lemma_faults_of_dirs(v, dir);
        if let Ok(image) = v.image_of(dir) {
            if let Some(located) = entries::entry_for(image.bytes, layout.fat_type, name) {
                let (first, w) = b.chain_written(data);
                let x = w.dir_stored(
                    cuts::pointed(
                        image,
                        located.slot,
                        first->Ok_0,
                        data.len() as u32,
                        v.stamp,
                    ),
                    located.slot,
                    located.slot + 1,
                );
                upkeep::lemma_chain_faults(
                    layout,
                    x.disk,
                    located.entry.first_cluster.0,
                    layout.cluster_count as nat,
                );
            }
        }
    }
}

/// How many clusters the chain that starts at `first` has (none for 0).
pub open spec fn chain_length(layout: Layout, disk: Disk, first: u32) -> nat {
    if first == 0 {
        0
    } else {
        (layout.chain(disk, first)->Ok_0).len()
    }
}

/// What is free once new clusters are in use and an old chain is freed.
pub proof fn lemma_freed_count(
    b: Volume,
    x: Volume,
    new: Seq<u32>,
    places: Seq<int>,
    data: Seq<u8>,
    old: u32,
)
    requires
        laws::sound(b.layout, b.disk),
        x.layout == b.layout,
        new.no_duplicates(),
        crate::fat::write::all_there(b.layout, new),
        forall|k: int|
            0 <= k < new.len() ==> b.layout.fat_entry(b.disk, #[trigger] new[k]) == 0,
        laws::only(b.layout, b.disk, x.disk, places, new),
        new.len() > 0 ==> laws::holds(b.layout, x.disk, new, data),
        old != 0 ==> b.layout.chain(b.disk, old) is Ok,
    ensures
        ({
            let z = x.chain_freed(old).1;
            &&& z.layout == b.layout
            &&& laws::sound(b.layout, z.disk)
            &&& b.layout.free_in(z.disk) + new.len() == b.layout.free_in(b.disk) + chain_length(
                b.layout,
                b.disk,
                old,
            )
        }),
{
    let layout = b.layout;
    let d = b.disk;
    let z = x.chain_freed(old).1;
    let freed = if old == 0 {
        Seq::empty()
    } else {
        layout.chain(d, old)->Ok_0
    };
    if old != 0 {
        laws::lemma_chain_left(layout, d, x.disk, new, places, old);
        laws::lemma_chain_used(layout, d, old, layout.cluster_count as nat);
        laws::lemma_chain_distinct(layout, d, old, layout.cluster_count as nat);
        laws::lemma_with_freed(layout, x.disk, freed, freed.len() as int);
    }
    assert forall|k: int| 0 <= k < freed.len() implies layout.has_cluster(#[trigger] freed[k])
        && layout.fat_entry(d, freed[k]) != 0 && layout.fat_entry(z.disk, freed[k]) == 0 by {}
    assert forall|k: int| 0 <= k < new.len() implies layout.has_cluster(#[trigger] new[k])
        && layout.fat_entry(d, new[k]) == 0 && layout.fat_entry(z.disk, new[k]) != 0 by {
        if freed.contains(new[k]) {
            let j = choose|j: int| 0 <= j < freed.len() && freed[j] == new[k];
            assert(layout.fat_entry(d, freed[j]) != 0);
        }
        assert(new.contains(new[k]));
        if layout.fat_entry(x.disk, new[k]) == 0 {
            laws::lemma_linked_used(layout, x.disk, new, new[k], data);
        }
    }
    assert forall|c: u32|
        layout.has_cluster(c) && !new.contains(c) && !freed.contains(c) implies (
    #[trigger] layout.fat_entry(z.disk, c) == 0 <==> layout.fat_entry(d, c) == 0) by {
        assert(layout.fat_entry(x.disk, c) == layout.fat_entry(d, c));
        assert(layout.fat_entry(z.disk, c) == layout.fat_entry(x.disk, c));
    }
    lemma_free_moved(layout, d, z.disk, new, freed);
}

/// Bringing FSInfo up to date frees and takes nothing.
pub proof fn lemma_finished_count(z: Volume)
    requires
        laws::sound(z.layout, z.disk),
    ensures
        z.layout.free_in(z.finished().disk) == z.layout.free_in(z.disk),
{
    let none = Seq::<u32>::empty();
    laws::lemma_finished(z);
    assert forall|c: u32|
        z.layout.has_cluster(c) && !none.contains(c) && !none.contains(c) implies (
    #[trigger] z.layout.fat_entry(z.finished().disk, c) == 0 <==> z.layout.fat_entry(z.disk, c)
        == 0) by {}
    lemma_free_moved(z.layout, z.disk, z.finished().disk, none, none);
}

/// Removing a file or directory gives back its clusters.
#[verifier::spinoff_prover]
pub proof fn removing_gives_back_the_clusters(v: Volume, path: Seq<char>)
    requires
        laws::ready(v, path),
        v.removed(path).0 is Ok,
    ensures
        ({
            let (parent, name) = volume::split_path(path);
            let dir = v.layout.dir_of(v.disk, parent)->Ok_0;
            let located = v.layout.lookup(v.disk, dir, name)->Ok_0;
            v.layout.free_in(v.removed(path).1.disk) == v.layout.free_in(v.disk) + chain_length(
                v.layout,
                v.disk,
                located.entry.first_cluster.0,
            )
        }),
{
    let layout = v.layout;
    let (parent, name) = volume::split_path(path);
    let dir = layout.dir_of(v.disk, parent)->Ok_0;
    let image = v.image_of(dir)->Ok_0;
    let places = image.places;
    let located = entries::entry_for(image.bytes, layout.fat_type, name)->0;
    let b = v.begun();
    let changed = cuts::without(image, located.first_slot, located.slot);
    let x = b.dir_stored(changed, located.first_slot, located.slot + 1);
    others::lemma_deleted_part(image.bytes, layout.fat_type, name);
    laws::lemma_dir_sectors(layout, v.disk, dir);
    laws::lemma_held_length(layout, v.disk, places);
    laws::lemma_dir_stored(
        layout,
        b.disk,
        dir,
        places,
        changed.bytes,
        located.first_slot,
        located.slot + 1,
    );
    lemma_freed_count(b, x, Seq::empty(), places, Seq::empty(), located.entry.first_cluster.0);
    lemma_finished_count(v.path_removed(path).1);
}

} // verus!
