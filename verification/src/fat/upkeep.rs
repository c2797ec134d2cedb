//! What every change to a volume keeps: copies of the FAT that agree, and a count of free
//! clusters that is true. And what changes that fail, or that undo others, leave behind.

use super::change;
use super::change::{ImageModel, Volume};
use super::entries;
use super::entries::{FatType, LocatedModel};
use super::laws;
use super::names;
use super::read;
use super::stored;
use super::volume;
use super::volume::{Dir, Disk, Fault, Layout};
use crate::bytes;
use vstd::prelude::*;

verus! {

/// Sector `s` of copy `k` of the FAT.
pub open spec fn copy_of(layout: Layout, disk: Disk, s: int, k: int) -> Seq<u8> {
    layout.sector(disk, s + k * layout.fat_size)
}

/// Whether all copies of the FAT are the same.
pub open spec fn copies_agree(layout: Layout, disk: Disk) -> bool {
    forall|s: int, k: int|
        layout.fat_start <= s < layout.fat_start + layout.fat_size && 0 <= k < layout.fat_count
            ==> #[trigger] copy_of(layout, disk, s, k) == layout.sector(disk, s)
}

/// Whether a volume is sound, all copies of its FAT agree, and the count of free clusters, once
/// they are counted, is true.
pub open spec fn kept_up(v: Volume) -> bool {
    &&& laws::sound(v.layout, v.disk)
    &&& copies_agree(v.layout, v.disk)
    &&& v.free_count matches Some(free) ==> free == v.layout.free_in(v.disk)
}

// One FAT entry.
proof fn lemma_entry_copies(layout: Layout, disk: Disk, c: u32, value: u32)
    requires
        laws::sound(layout, disk),
        copies_agree(layout, disk),
        layout.has_cluster(c),
    ensures
        copies_agree(layout, layout.with_entry(disk, c, value)),
{
    let s0 = layout.fat_sector(c);
    let n = layout.fat_count as int;
    let fs = layout.fat_size as int;
    let block = layout.with_value(layout.sector(disk, s0), layout.fat_offset(c), value);
    let after = layout.with_entry(disk, c, value);
    layout.lemma_copies(disk, s0, block, n);
    laws::lemma_entry_place(layout, disk, c);
    laws::lemma_fat_end(layout);
    assert forall|s: int, k: int|
        layout.fat_start <= s < layout.fat_start + fs && 0 <= k < n implies #[trigger] copy_of(
        layout,
        after,
        s,
        k,
    ) == layout.sector(after, s) by {
        let t = s + k * fs;
        assert(copy_of(layout, disk, s, k) == layout.sector(disk, s));
        assert(0 <= k * fs <= (n - 1) * fs) by (nonlinear_arith)
            requires
                0 <= k <= n - 1,
                fs >= 0,
        ;
        assert((n - 1) * fs + fs == n * fs) by (nonlinear_arith);
        assert(after[layout.block(t)] == if layout.is_copy(s0, n, layout.block(t)) {
            block
        } else {
            disk[layout.block(t)]
        });
        assert(after[layout.block(s)] == if layout.is_copy(s0, n, layout.block(s)) {
            block
        } else {
            disk[layout.block(s)]
        });
        if s == s0 {
            assert(layout.block(s0 + k * fs) == layout.block(t));
            assert(layout.is_copy(s0, n, layout.block(t)));
            assert(0 * fs == 0);
            assert(layout.block(s0 + 0 * fs) == layout.block(s));
            assert(layout.is_copy(s0, n, layout.block(s)));
        } else {
            lemma_not_copy(layout, s0, s, k);
            assert(0 * fs == 0);
            lemma_not_copy(layout, s0, s, 0);
        }
    }
}

/// Sectors of the FAT that aren't `s0` have no copy in common with it.
pub proof fn lemma_not_copy(layout: Layout, s0: int, s: int, k: int)
    requires
        layout.wf(),
        layout.fat_start <= s0 < layout.fat_start + layout.fat_size,
        layout.fat_start <= s < layout.fat_start + layout.fat_size,
        0 <= k < layout.fat_count,
        s != s0,
    ensures
        !layout.is_copy(s0, layout.fat_count as int, layout.block(s + k * layout.fat_size)),
{
    let n = layout.fat_count as int;
    let fs = layout.fat_size as int;
    let l = layout.block(s + k * fs);
    if layout.is_copy(s0, n, l) {
        let m = choose|m: int| 0 <= m < n && #[trigger] layout.block(s0 + m * fs) == l;
        assert(0 <= k * fs <= (n - 1) * fs && 0 <= m * fs <= (n - 1) * fs) by (nonlinear_arith)
            requires
                0 <= k <= n - 1,
                0 <= m <= n - 1,
                fs >= 0,
        ;
        assert((n - 1) * fs + fs == n * fs) by (nonlinear_arith);
        laws::lemma_fat_end(layout);
        assert(s0 + m * fs == s + k * fs);
        if m < k {
            assert(k * fs >= m * fs + fs) by (nonlinear_arith)
                requires
                    k >= m + 1,
                    fs >= 0,
            ;
        } else if m > k {
            assert(m * fs >= k * fs + fs) by (nonlinear_arith)
                requires
                    m >= k + 1,
                    fs >= 0,
            ;
        }
    }
}

/// 1 for a FAT entry of 0, which marks a free cluster.
pub open spec fn one_if_free(value: u32) -> int {
    if value == 0 {
        1
    } else {
        0
    }
}

proof fn lemma_entry_count_among(layout: Layout, disk: Disk, c: u32, value: u32, n: int)
    requires
        laws::sound(layout, disk),
        layout.has_cluster(c),
        value <= layout.end_mark(),
        0 <= n <= layout.cluster_count,
    ensures
        layout.free_among(layout.with_entry(disk, c, value), 2, n).len() == layout.free_among(
            disk,
            2,
            n,
        ).len() + (if c < 2 + n {
            one_if_free(value) - one_if_free(layout.fat_entry(disk, c))
        } else {
            0
        }),
    decreases n,
{
    if n > 0 {
        lemma_entry_count_among(layout, disk, c, value, n - 1);
        laws::lemma_with_entry(layout, disk, c, value);
        laws::lemma_nth_cluster(layout, 2, n - 1);
        let o = layout.nth_cluster(2, n - 1);
        assert(layout.has_cluster(o));
        let after = layout.with_entry(disk, c, value);
        assert(layout.fat_entry(after, o) == if o == c {
            value
        } else {
            layout.fat_entry(disk, o)
        });
    }
}

/// How setting a FAT entry changes the number of free clusters.
proof fn lemma_entry_count(layout: Layout, disk: Disk, c: u32, value: u32)
    requires
        laws::sound(layout, disk),
        layout.has_cluster(c),
        value <= layout.end_mark(),
    ensures
        layout.free_in(layout.with_entry(disk, c, value)) == layout.free_in(disk) + one_if_free(
            value,
        ) - one_if_free(layout.fat_entry(disk, c)),
{
    let n = layout.cluster_count as int;
    lemma_entry_count_among(layout, disk, c, value, n);
    crate::fat::write::lemma_free_count(layout, disk, 2, n);
    crate::fat::write::lemma_free_count(layout, layout.with_entry(disk, c, value), 2, n);
}

/// The number of free clusters is that of FAT entries of 0.
proof fn lemma_same_count(layout: Layout, a: Disk, b: Disk, n: int)
    requires
        layout.wf(),
        0 <= n <= layout.cluster_count,
        forall|o: u32|
            layout.has_cluster(o) ==> #[trigger] layout.fat_entry(b, o) == layout.fat_entry(a, o),
    ensures
        layout.free_among(b, 2, n) == layout.free_among(a, 2, n),
    decreases n,
{
    if n > 0 {
        lemma_same_count(layout, a, b, n - 1);
        laws::lemma_nth_cluster(layout, 2, n - 1);
    }
}

// Chains.
proof fn lemma_links_kept(layout: Layout, disk: Disk, clusters: Seq<u32>, n: int)
    requires
        laws::sound(layout, disk),
        copies_agree(layout, disk),
        crate::fat::write::all_there(layout, clusters),
        clusters.no_duplicates(),
        forall|k: int|
            0 <= k < clusters.len() ==> layout.fat_entry(disk, #[trigger] clusters[k]) == 0,
        0 <= n <= clusters.len(),
    ensures
        copies_agree(layout, layout.with_links(disk, clusters, n)),
        layout.free_in(layout.with_links(disk, clusters, n)) == layout.free_in(disk) - n,
        forall|k: int|
            n <= k < clusters.len() ==> layout.fat_entry(
                layout.with_links(disk, clusters, n),
                #[trigger] clusters[k],
            ) == 0,
    decreases n,
{
    if n > 0 {
        lemma_links_kept(layout, disk, clusters, n - 1);
        laws::lemma_with_links(layout, disk, clusters, n - 1);
        let before = layout.with_links(disk, clusters, n - 1);
        let c = clusters[n - 1];
        let next = laws::next_of(layout, clusters, n - 1);
        assert(layout.has_cluster(c));
        if n < clusters.len() {
            assert(layout.has_cluster(clusters[n]));
        }
        lemma_entry_copies(layout, before, c, next);
        lemma_entry_count(layout, before, c, next);
        laws::lemma_with_entry(layout, before, c, next);
        assert(layout.fat_entry(before, c) == 0);
        assert forall|k: int| n <= k < clusters.len() implies layout.fat_entry(
            layout.with_links(disk, clusters, n),
            #[trigger] clusters[k],
        ) == 0 by {
            assert(layout.has_cluster(clusters[k]));
            assert(clusters[k] != clusters[n - 1]);
        }
    }
}

proof fn lemma_freed_kept(layout: Layout, disk: Disk, clusters: Seq<u32>, n: int)
    requires
        laws::sound(layout, disk),
        copies_agree(layout, disk),
        crate::fat::write::all_there(layout, clusters),
        clusters.no_duplicates(),
        forall|k: int|
            0 <= k < clusters.len() ==> layout.fat_entry(disk, #[trigger] clusters[k]) != 0,
        0 <= n <= clusters.len(),
    ensures
        copies_agree(layout, layout.with_freed(disk, clusters, n)),
        layout.free_in(layout.with_freed(disk, clusters, n)) == layout.free_in(disk) + n,
        forall|k: int|
            n <= k < clusters.len() ==> layout.fat_entry(
                layout.with_freed(disk, clusters, n),
                #[trigger] clusters[k],
            ) != 0,
    decreases n,
{
    if n > 0 {
        lemma_freed_kept(layout, disk, clusters, n - 1);
        laws::lemma_with_freed(layout, disk, clusters, n - 1);
        let before = layout.with_freed(disk, clusters, n - 1);
        let c = clusters[n - 1];
        assert(layout.has_cluster(c));
        lemma_entry_copies(layout, before, c, 0);
        lemma_entry_count(layout, before, c, 0);
        laws::lemma_with_entry(layout, before, c, 0);
        assert(layout.fat_entry(before, c) != 0);
        assert forall|k: int| n <= k < clusters.len() implies layout.fat_entry(
            layout.with_freed(disk, clusters, n),
            #[trigger] clusters[k],
        ) != 0 by {
            assert(layout.has_cluster(clusters[k]));
            assert(clusters[k] != clusters[n - 1]);
        }
    }
}

/// Data past the FATs changes neither.
proof fn lemma_data_kept(v: Volume, sectors: Seq<int>, data: Seq<u8>)
    requires
        kept_up(v),
        laws::past_fats(v.layout, sectors),
        data.len() >= 512 * sectors.len(),
    ensures
        kept_up((Volume { disk: v.layout.with_data(v.disk, sectors, data), ..v })),
{
    let layout = v.layout;
    let after = layout.with_data(v.disk, sectors, data);
    laws::lemma_with_data(layout, v.disk, sectors, data);
    lemma_same_count(layout, v.disk, after, layout.cluster_count as int);
    lemma_copies_untouched(layout, v.disk, after, sectors);
}

proof fn lemma_copies_untouched(layout: Layout, a: Disk, b: Disk, sectors: Seq<int>)
    requires
        layout.wf(),
        copies_agree(layout, a),
        forall|i: int|
            0 <= i < sectors.len() ==> #[trigger] sectors[i] < layout.fat_start || laws::fat_end(
                layout,
            ) <= sectors[i],
        forall|t: int|
            0 <= t <= 0xFFFF_FFFF && !sectors.contains(t) ==> #[trigger] layout.sector(b, t)
                == layout.sector(a, t),
    ensures
        copies_agree(layout, b),
{
    let n = layout.fat_count as int;
    let fs = layout.fat_size as int;
    laws::lemma_fat_end(layout);
    assert forall|s: int, k: int|
        layout.fat_start <= s < layout.fat_start + fs && 0 <= k < n implies #[trigger] copy_of(
        layout,
        b,
        s,
        k,
    ) == layout.sector(b, s) by {
        let t = s + k * fs;
        assert(copy_of(layout, a, s, k) == layout.sector(a, s));
        assert(0 <= k * fs <= (n - 1) * fs) by (nonlinear_arith)
            requires
                0 <= k <= n - 1,
                fs >= 0,
        ;
        assert((n - 1) * fs + fs == n * fs) by (nonlinear_arith);
        if sectors.contains(t) {
            let i = choose|i: int| 0 <= i < sectors.len() && sectors[i] == t;
            assert(sectors[i] < layout.fat_start || laws::fat_end(layout) <= sectors[i]);
        }
        if sectors.contains(s) {
            let i = choose|i: int| 0 <= i < sectors.len() && sectors[i] == s;
            assert(sectors[i] < layout.fat_start || laws::fat_end(layout) <= sectors[i]);
        }
    }
}

// Changes, step by step.
proof fn lemma_chain_kept(v: Volume, clusters: Seq<u32>, data: Seq<u8>)
    requires
        kept_up(v),
        0 < clusters.len() <= v.layout.cluster_count,
        v.allocated(clusters.len() as int) == Some(clusters),
        data.len() <= clusters.len() * v.layout.cluster_bytes(),
    ensures
        kept_up(v.with_chain(clusters, data)),
        v.with_chain(clusters, data).layout == v.layout,
{
    let layout = v.layout;
    let n = clusters.len() as int;
    laws::lemma_allocated(v, n);
    let sectors = layout.sectors_of(clusters);
    let size = layout.cluster_bytes();
    let all = change::padded(data, n * size);
    laws::lemma_sectors_distinct(layout, clusters);
    crate::fat::write::lemma_sectors_length(layout, clusters);
    assert(n * size == 512 * sectors.len()) by (nonlinear_arith)
        requires
            size == layout.sectors_per_cluster * 512,
            sectors.len() == n * layout.sectors_per_cluster,
    ;
    let one = layout.with_data(v.disk, sectors, all);
    lemma_data_kept(v, sectors, all);
    laws::lemma_with_data(layout, v.disk, sectors, all);
    assert forall|k: int| 0 <= k < clusters.len() implies layout.fat_entry(
        one,
        #[trigger] clusters[k],
    ) == 0 by {
        assert(layout.has_cluster(clusters[k]));
        assert(layout.fat_entry(v.disk, clusters[k]) == 0);
    }
    lemma_links_kept(layout, one, clusters, n);
    laws::lemma_with_links(layout, one, clusters, n);
    lemma_same_count(layout, v.disk, one, layout.cluster_count as int);
}

proof fn lemma_chain_freed_kept(v: Volume, first: u32)
    requires
        kept_up(v),
    ensures
        kept_up(v.chain_freed(first).1),
        v.chain_freed(first).1.layout == v.layout,
{
    if first != 0 {
        if let Ok(clusters) = v.layout.chain(v.disk, first) {
            let left = v.layout.cluster_count as nat;
            read::lemma_chain_valid(v.layout, v.disk, first, left, None);
            laws::lemma_chain_used(v.layout, v.disk, first, left);
            laws::lemma_chain_distinct(v.layout, v.disk, first, left);
            lemma_freed_kept(v.layout, v.disk, clusters, clusters.len() as int);
            laws::lemma_with_freed(v.layout, v.disk, clusters, clusters.len() as int);
        }
    }
}

/// Whether a directory is held as it can be changed: its sectors are past the FATs, and it has
/// the bytes of each.
pub open spec fn held_whole(layout: Layout, image: ImageModel) -> bool {
    &&& laws::past_fats(layout, image.places)
    &&& image.bytes.len() == 512 * image.places.len()
}

proof fn lemma_dir_stored_kept(v: Volume, image: ImageModel, from: int, to: int)
    requires
        kept_up(v),
        held_whole(v.layout, image),
        0 <= from <= to <= entries::slot_count(image.bytes),
    ensures
        kept_up(v.dir_stored(image, from, to)),
        v.dir_stored(image, from, to).layout == v.layout,
{
    let first = from / 16;
    let end = (to + 15) / 16;
    let part = image.places.subrange(first, end);
    assert forall|i: int| 0 <= i < part.len() implies laws::fat_end(v.layout) <= #[trigger] part[i]
        <= 0xFFFF_FFFF by {
        assert(part[i] == image.places[first + i]);
    }
    lemma_data_kept(v, part, image.bytes.subrange(512 * first, 512 * end));
}

proof fn lemma_dir_grown_kept(v: Volume, dir: Dir, image: ImageModel, needed: int)
    requires
        kept_up(v),
        held_whole(v.layout, image),
        needed > 0,
        entries::end_slot(image.bytes, 0) + needed > entries::slot_count(image.bytes),
    ensures
        kept_up(v.dir_grown(dir, image, needed).1),
        v.dir_grown(dir, image, needed).1.layout == v.layout,
        v.dir_grown(dir, image, needed).0 matches Ok((at, more)) ==> held_whole(v.layout, more)
            && 0 <= at && at + needed <= entries::slot_count(more.bytes),
{
    let layout = v.layout;
    let (result, g) = v.dir_grown(dir, image, needed);
    if let Ok((at, more)) = result {
        let first = layout.dir_start(dir)->0;
        let chain = layout.chain(v.disk, first.0)->Ok_0;
        let left = layout.cluster_count as nat;
        let missing = 32 * (needed - (entries::slot_count(image.bytes) - at));
        let size = layout.cluster_bytes();
        let count = v.clusters_for(missing);
        entries::lemma_end_slot(image.bytes, 0);
        assert(count >= 1 && count * size >= missing) by (nonlinear_arith)
            requires
                count == (missing + size - 1) / size,
                missing > 0,
                size > 0,
        ;
        let new = v.allocated(count)->0;
        laws::lemma_allocated(v, count);
        lemma_chain_kept(v, new, Seq::empty());
        let grown = v.with_chain(new, Seq::empty());
        read::lemma_chain_valid(layout, v.disk, first.0, left, None);
        laws::lemma_chain_used(layout, v.disk, first.0, left);
        let last = chain[chain.len() - 1];
        assert(layout.has_cluster(last));
        assert(layout.has_cluster(new[0]));
        assert(layout.fat_entry(v.disk, last) != 0);
        laws::lemma_with_chain(v, new, Seq::empty());
        laws::lemma_not_taken(layout, v.disk, new, last);
        assert(layout.fat_entry(grown.disk, last) != 0);
        lemma_entry_copies(layout, grown.disk, last, new[0]);
        lemma_entry_count(layout, grown.disk, last, new[0]);
        laws::lemma_with_entry(layout, grown.disk, last, new[0]);
        laws::lemma_past_fats(layout, new);
        crate::fat::write::lemma_sectors_length(layout, new);
        let fresh = layout.sectors_of(new);
        assert(count * size == 512 * fresh.len()) by (nonlinear_arith)
            requires
                size == layout.sectors_per_cluster * 512,
                fresh.len() == count * layout.sectors_per_cluster,
        ;
        assert forall|i: int| 0 <= i < more.places.len() implies laws::fat_end(layout)
            <= #[trigger] more.places[i] <= 0xFFFF_FFFF by {
            if i < image.places.len() {
                assert(more.places[i] == image.places[i]);
            } else {
                assert(more.places[i] == fresh[i - image.places.len()]);
            }
        }
    }
}

/// Entries take a slot at least.
proof fn lemma_new_length(
    name: Seq<char>,
    taken: Seq<Seq<u8>>,
    attr: u8,
    cluster: u32,
    size: u32,
    stamp: entries::Stamp,
)
    ensures
        stored::new_entries(name, taken, attr, cluster, size, stamp) matches Some(new)
            ==> new.len() >= 32,
{
    names::lemma_alias(name, taken);
}

proof fn lemma_entry_added_kept(
    v: Volume,
    dir: Dir,
    image: ImageModel,
    name: Seq<char>,
    attr: u8,
    cluster: u32,
    size: u32,
)
    requires
        kept_up(v),
        held_whole(v.layout, image),
    ensures
        kept_up(v.entry_added(dir, image, name, attr, cluster, size).1),
        v.entry_added(dir, image, name, attr, cluster, size).1.layout == v.layout,
{
    let taken = stored::taken_names(image.bytes);
    lemma_new_length(name, taken, attr, cluster, size, v.stamp);
    if let Some(new) = stored::new_entries(name, taken, attr, cluster, size, v.stamp) {
        let count = new.len() as int / 32;
        match stored::run_from(image.bytes, 0, count) {
            Some(at) => {
                stored::lemma_run_fits(image.bytes, 0, count);
                let changed = ImageModel {
                    bytes: bytes::splice(image.bytes, 32 * at, new),
                    ..image
                };
                lemma_dir_stored_kept(v, changed, at, at + count);
            },
            None => {
                entries::lemma_end_slot(image.bytes, 0);
                stored::lemma_no_room(image.bytes, 0, count);
                lemma_dir_grown_kept(v, dir, image, count);
                if let (Ok((at, more)), grown) = v.dir_grown(dir, image, count) {
                    let changed = ImageModel {
                        bytes: bytes::splice(more.bytes, 32 * at, new),
                        ..more
                    };
                    lemma_dir_stored_kept(grown, changed, at, at + count);
                }
            },
        }
    }
}

proof fn lemma_entry_or_freed_kept(
    v: Volume,
    dir: Dir,
    image: ImageModel,
    name: Seq<char>,
    attr: u8,
    cluster: u32,
    size: u32,
)
    requires
        kept_up(v),
        held_whole(v.layout, image),
    ensures
        kept_up(v.entry_or_freed(dir, image, name, attr, cluster, size).1),
        v.entry_or_freed(dir, image, name, attr, cluster, size).1.layout == v.layout,
{
    lemma_entry_added_kept(v, dir, image, name, attr, cluster, size);
    if let (Err(_), same) = v.entry_added(dir, image, name, attr, cluster, size) {
        lemma_chain_freed_kept(same, cluster);
    }
}

proof fn lemma_begun_kept(v: Volume)
    requires
        kept_up(v),
    ensures
        kept_up(v.begun()),
        v.begun().layout == v.layout,
        v.begun().disk == v.disk,
{
}

proof fn lemma_chain_written_kept(v: Volume, data: Seq<u8>)
    requires
        kept_up(v),
    ensures
        kept_up(v.chain_written(data).1),
        v.chain_written(data).1.layout == v.layout,
{
    if data.len() > 0 {
        let n = data.len() as int;
        let size = v.layout.cluster_bytes();
        let k = v.clusters_for(n);
        assert(k >= 1 && n <= k * size) by (nonlinear_arith)
            requires
                k == (n + size - 1) / size,
                size > 0,
                n > 0,
        ;
        if let Some(clusters) = v.allocated(k) {
            laws::lemma_allocated(v, k);
            lemma_chain_kept(v, clusters, data);
        }
    }
}

/// A directory on a volume is held whole.
proof fn lemma_image_whole(v: Volume, dir: Dir)
    requires
        laws::sound(v.layout, v.disk),
    ensures
        v.image_of(dir) matches Ok(image) ==> held_whole(v.layout, image),
{
    if let Ok(image) = v.image_of(dir) {
        laws::lemma_dir_sectors(v.layout, v.disk, dir);
        laws::lemma_held_length(v.layout, v.disk, image.places);
    }
}

/// Where an entry is.
proof fn lemma_located_slots(dir: Seq<u8>, fat_type: FatType, name: Seq<char>)
    ensures
        entries::entry_for(dir, fat_type, name) matches Some(located) ==> 0 <= located.first_slot
            <= located.slot < entries::slot_count(dir),
{
    entries::lemma_end_slot(dir, 0);
    laws::lemma_slot_first(dir, name, 0, entries::end_slot(dir, 0));
    if let Some(located) = entries::entry_for(dir, fat_type, name) {
        entries::lemma_pieces(dir, located.slot, 1);
    }
}

proof fn lemma_file_put_kept(
    v: Volume,
    dir: Dir,
    image: ImageModel,
    name: Seq<char>,
    data: Seq<u8>,
)
    requires
        kept_up(v),
        held_whole(v.layout, image),
    ensures
        kept_up(v.file_put(dir, image, name, data).1),
        v.file_put(dir, image, name, data).1.layout == v.layout,
{
    lemma_begun_kept(v);
    lemma_chain_written_kept(v.begun(), data);
    let existing = entries::entry_for(image.bytes, v.layout.fat_type, name);
    if let (Ok(first), written) = v.begun().chain_written(data) {
        let size = data.len() as u32;
        match existing {
            Some(located) => {
                lemma_located_slots(image.bytes, v.layout.fat_type, name);
                let changed = ImageModel {
                    bytes: bytes::splice(
                        image.bytes,
                        32 * located.slot + 20,
                        stored::pointer(first, size, v.stamp),
                    ),
                    ..image
                };
                lemma_dir_stored_kept(written, changed, located.slot, located.slot + 1);
                lemma_chain_freed_kept(
                    written.dir_stored(changed, located.slot, located.slot + 1),
                    located.entry.first_cluster.0,
                );
            },
            None => {
                lemma_entry_or_freed_kept(
                    written,
                    dir,
                    image,
                    name,
                    entries::ATTR_ARCHIVE,
                    first,
                    size,
                );
            },
        }
    }
}

proof fn lemma_finished_kept(v: Volume)
    requires
        kept_up(v),
    ensures
        kept_up(v.finished()),
{
    laws::lemma_finished(v);
    let layout = v.layout;
    lemma_same_count(layout, v.disk, v.finished().disk, layout.cluster_count as int);
    if let Some(sector) = layout.fsinfo {
        let changed = seq![sector as int];
        assert(changed[0] == sector);
        assert forall|t: int| 0 <= t <= 0xFFFF_FFFF && !changed.contains(t) implies #[trigger] layout.sector(
            v.finished().disk,
            t,
        ) == layout.sector(v.disk, t) by {
            if t == sector {
                assert(changed.contains(t));
            }
            assert(layout.block(t) != layout.block(sector as int));
        }
        lemma_copies_untouched(layout, v.disk, v.finished().disk, changed);
    }
}

/// Writing a file, whether it works or not, keeps the copies of the FAT the same and the count
/// of free clusters true.
pub proof fn writing_keeps_up_the_fat(v: Volume, path: Seq<char>, data: Seq<u8>)
    requires
        kept_up(v),
    ensures
        kept_up(v.file_written(path, data).1),
{
    let (parent, name) = volume::split_path(path);
    if let Ok(dir) = v.layout.dir_of(v.disk, parent) {
        lemma_image_whole(v, dir);
        if let Ok(image) = v.image_of(dir) {
            lemma_file_put_kept(v, dir, image, name, data);
        }
    }
    lemma_finished_kept(v.file_changed(path, data).1);
}

/// Making a directory, whether it works or not, keeps the copies of the FAT the same and the
/// count of free clusters true.
pub proof fn making_directories_keeps_up_the_fat(v: Volume, path: Seq<char>)
    requires
        kept_up(v),
    ensures
        kept_up(v.dir_created(path).1),
{
    let (parent, name) = volume::split_path(path);
    lemma_begun_kept(v);
    if let Ok(dir) = v.layout.dir_of(v.disk, parent) {
        lemma_image_whole(v, dir);
        if let Ok(image) = v.image_of(dir) {
            if let Some(clusters) = v.begun().allocated(1) {
                let dots = v.dots(clusters[0], dir);
                laws::lemma_allocated(v.begun(), 1);
                assert(dots.len() == 64);
                assert(1 * v.layout.cluster_bytes() >= 512);
                lemma_chain_kept(v.begun(), clusters, dots);
                lemma_entry_or_freed_kept(
                    v.begun().with_chain(clusters, dots),
                    dir,
                    image,
                    name,
                    entries::ATTR_DIRECTORY,
                    clusters[0],
                    0,
                );
            }
        }
    }
    lemma_finished_kept(v.dir_changed(path).1);
}

proof fn lemma_deleted_length(dir: Seq<u8>, from: int, to: int)
    requires
        0 <= from,
        32 * to <= dir.len(),
    ensures
        change::with_deleted(dir, from, to).len() == dir.len(),
    decreases to - from,
{
    if from < to {
        lemma_deleted_length(dir, from, to - 1);
    }
}

proof fn lemma_entry_removed_kept(v: Volume, image: ImageModel, located: LocatedModel)
    requires
        kept_up(v),
        held_whole(v.layout, image),
        0 <= located.first_slot <= located.slot < entries::slot_count(image.bytes),
    ensures
        kept_up(v.entry_removed(image, located).1),
{
    let changed = ImageModel {
        bytes: change::with_deleted(image.bytes, located.first_slot, located.slot + 1),
        ..image
    };
    lemma_deleted_length(image.bytes, located.first_slot, located.slot + 1);
    lemma_dir_stored_kept(v, changed, located.first_slot, located.slot + 1);
    lemma_chain_freed_kept(
        v.dir_stored(changed, located.first_slot, located.slot + 1),
        located.entry.first_cluster.0,
    );
}

/// Removing, whether it works or not, keeps the copies of the FAT the same and the count of
/// free clusters true.
pub proof fn removing_keeps_up_the_fat(v: Volume, path: Seq<char>)
    requires
        kept_up(v),
    ensures
        kept_up(v.removed(path).1),
{
    let (parent, name) = volume::split_path(path);
    lemma_begun_kept(v);
    if let Ok(dir) = v.layout.dir_of(v.disk, parent) {
        lemma_image_whole(v, dir);
        if let Ok(image) = v.image_of(dir) {
            lemma_located_slots(image.bytes, v.layout.fat_type, name);
            if let Some(located) = entries::entry_for(image.bytes, v.layout.fat_type, name) {
                lemma_entry_removed_kept(v.begun(), image, located);
            }
        }
    }
    lemma_finished_kept(v.path_removed(path).1);
}

/// Once a change is finished, the FSInfo sector, if there is one and it is marked as such, has
/// the number of free clusters and the hint where to look for them.
pub proof fn fsinfo_has_the_free_count(v: Volume)
    requires
        kept_up(v),
        v.free_count is Some,
        v.layout.fsinfo matches Some(sector) && {
            let block = v.layout.sector(v.disk, sector as int);
            bytes::le32(block, 0) == change::FSINFO_LEAD && bytes::le32(block, 484)
                == change::FSINFO_STRUCT
        },
    ensures
        ({
            let after = v.finished();
            let block = after.layout.sector(after.disk, after.layout.fsinfo->0 as int);
            &&& bytes::le32(block, 488) == after.layout.free_in(after.disk)
            &&& bytes::le32(block, 492) == after.next_free
            &&& bytes::le32(block, 0) == change::FSINFO_LEAD
            &&& bytes::le32(block, 484) == change::FSINFO_STRUCT
        }),
{
    let sector = v.layout.fsinfo->0;
    let block = v.layout.sector(v.disk, sector as int);
    let free = v.free_count->0;
    let one = bytes::splice(block, 488, bytes::le32_bytes(free));
    assert(block.len() == 512);
    lemma_finished_kept(v);
    laws::lemma_word32(block, 488, free, 0);
    laws::lemma_word32(block, 488, free, 484);
    laws::lemma_word32(one, 492, v.next_free, 488);
    laws::lemma_word32(one, 492, v.next_free, 0);
    laws::lemma_word32(one, 492, v.next_free, 484);
}

// Changes that fail.
/// Whether two disks have the same FAT entries.
pub open spec fn same_fat(layout: Layout, a: Disk, b: Disk) -> bool {
    forall|o: u32|
        layout.has_cluster(o) ==> #[trigger] layout.fat_entry(b, o) == layout.fat_entry(a, o)
}

/// Clusters that were chained and are given back are free again, and the others as they were.
proof fn lemma_chain_undone(v: Volume, clusters: Seq<u32>, data: Seq<u8>)
    requires
        laws::sound(v.layout, v.disk),
        0 < clusters.len() <= v.layout.cluster_count,
        v.allocated(clusters.len() as int) == Some(clusters),
        data.len() <= clusters.len() * v.layout.cluster_bytes(),
    ensures
        v.with_chain(clusters, data).chain_freed(clusters[0]).0 is Ok,
        same_fat(
            v.layout,
            v.disk,
            v.with_chain(clusters, data).chain_freed(clusters[0]).1.disk,
        ),
        laws::sound(
            v.layout,
            v.with_chain(clusters, data).chain_freed(clusters[0]).1.disk,
        ),
        v.with_chain(clusters, data).chain_freed(clusters[0]).1.layout == v.layout,
{
    let layout = v.layout;
    let n = clusters.len() as int;
    laws::lemma_allocated(v, n);
    laws::lemma_with_chain(v, clusters, data);
    let w = v.with_chain(clusters, data);
    let all = change::padded(data, n * layout.cluster_bytes());
    assert(laws::holds(layout, w.disk, clusters, all));
    laws::lemma_chain_made(layout, w.disk, clusters, 0, layout.cluster_count as nat, None);
    assert(clusters.subrange(0, n) =~= clusters);
    assert(layout.has_cluster(clusters[0]));
    laws::lemma_with_freed(layout, w.disk, clusters, n);
    let z = w.chain_freed(clusters[0]).1;
    assert forall|o: u32| layout.has_cluster(o) implies #[trigger] layout.fat_entry(z.disk, o)
        == layout.fat_entry(v.disk, o) by {
        if clusters.contains(o) {
            let k = choose|k: int| 0 <= k < clusters.len() && clusters[k] == o;
            assert(layout.fat_entry(v.disk, clusters[k]) == 0);
            assert(layout.fat_entry(z.disk, clusters[k]) == 0);
        } else {
            assert(layout.fat_entry(w.disk, o) == layout.fat_entry(v.disk, o));
        }
    }
}

/// Whether a fault says that there was no room.
pub open spec fn no_room(fault: Fault) -> bool {
    fault == Fault::NoSpace || fault == Fault::DirectoryFull
}

proof fn lemma_finished_fat(v: Volume, before: Disk)
    requires
        laws::sound(v.layout, v.disk),
        same_fat(v.layout, before, v.disk),
    ensures
        same_fat(v.layout, before, v.finished().disk),
        v.layout.free_in(v.finished().disk) == v.layout.free_in(before),
{
    laws::lemma_finished(v);
    assert forall|o: u32| v.layout.has_cluster(o) implies #[trigger] v.layout.fat_entry(
        v.finished().disk,
        o,
    ) == v.layout.fat_entry(before, o) by {
        assert(v.layout.fat_entry(v.disk, o) == v.layout.fat_entry(before, o));
    }
    lemma_same_count(v.layout, before, v.finished().disk, v.layout.cluster_count as int);
}

/// A write for which there is no room leaks nothing: the FAT is as it was.
pub proof fn writes_without_room_leak_nothing(v: Volume, path: Seq<char>, data: Seq<u8>)
    requires
        laws::sound(v.layout, v.disk),
        v.file_written(path, data).0 matches Err(fault) && no_room(fault),
    ensures
        same_fat(v.layout, v.disk, v.file_written(path, data).1.disk),
        v.layout.free_in(v.file_written(path, data).1.disk) == v.layout.free_in(v.disk),
{
    let (parent, name) = volume::split_path(path);
    let changed = v.file_changed(path, data).1;
    let dir_found = v.layout.dir_of(v.disk, parent);
    lemma_faults_of_paths(v, parent);
    let dir = dir_found->Ok_0;
    lemma_faults_of_dirs(v, dir);
    let image = v.image_of(dir)->Ok_0;
    let b = v.begun();
    let n = data.len() as int;
    let size = v.layout.cluster_bytes();
    if let (Ok(first), w) = b.chain_written(data) {
        match entries::entry_for(image.bytes, v.layout.fat_type, name) {
            Some(located) => {
                // What can be wrong with the old chain isn't a lack of room.
                let old = located.entry.first_cluster.0;
                let stored_now = w.dir_stored(
                    (ImageModel {
                        bytes: bytes::splice(
                            image.bytes,
                            32 * located.slot + 20,
                            stored::pointer(first, data.len() as u32, v.stamp),
                        ),
                        ..image
                    }),
                    located.slot,
                    located.slot + 1,
                );
                lemma_chain_faults(
                    v.layout,
                    stored_now.disk,
                    old,
                    v.layout.cluster_count as nat,
                );
            },
            None => {
                if data.len() > 0 {
                    let k = b.clusters_for(n);
                    assert(k >= 1 && n <= k * size) by (nonlinear_arith)
                        requires
                            k == (n + size - 1) / size,
                            size > 0,
                            n > 0,
                    ;
                    let clusters = b.allocated(k)->0;
                    laws::lemma_allocated(b, k);
                    lemma_chain_undone(b, clusters, data);
                }
            },
        }
    }
    lemma_finished_fat(changed, v.disk);
}

/// A directory for which there is no room leaks nothing: the FAT is as it was.
pub proof fn directories_without_room_leak_nothing(v: Volume, path: Seq<char>)
    requires
        laws::sound(v.layout, v.disk),
        v.dir_created(path).0 matches Err(fault) && no_room(fault),
    ensures
        same_fat(v.layout, v.disk, v.dir_created(path).1.disk),
        v.layout.free_in(v.dir_created(path).1.disk) == v.layout.free_in(v.disk),
{
    let (parent, name) = volume::split_path(path);
    let changed = v.dir_changed(path).1;
    lemma_faults_of_paths(v, parent);
    let dir = v.layout.dir_of(v.disk, parent)->Ok_0;
    lemma_faults_of_dirs(v, dir);
    let b = v.begun();
    if let Some(clusters) = b.allocated(1) {
        let dots = v.dots(clusters[0], dir);
        laws::lemma_allocated(b, 1);
        assert(dots.len() == 64);
        assert(1 * v.layout.cluster_bytes() >= 512);
        lemma_chain_undone(b, clusters, dots);
    }
    lemma_finished_fat(changed, v.disk);
}

/// What can be wrong with a chain.
pub proof fn lemma_chain_faults(layout: Layout, disk: Disk, c: u32, left: nat)
    ensures
        layout.chain_from(disk, c, left, None) matches Err(fault) ==> !no_room(fault),
    decreases left,
{
    if layout.has_cluster(c) && left > 0 {
        if let volume::Link::To(next) = layout.link(disk, c) {
            lemma_chain_faults(layout, disk, next, (left - 1) as nat);
        }
    }
}

/// What can be wrong with a directory.
pub proof fn lemma_faults_of_dirs(v: Volume, dir: Dir)
    ensures
        v.layout.dir_sectors(v.disk, dir) matches Err(fault) ==> !no_room(fault),
        v.layout.dir_bytes(v.disk, dir) matches Err(fault) ==> !no_room(fault),
        v.image_of(dir) matches Err(fault) ==> !no_room(fault),
{
    if let Some(first) = v.layout.dir_start(dir) {
        lemma_chain_faults(v.layout, v.disk, first.0, v.layout.cluster_count as nat);
    }
}

proof fn lemma_faults_on_the_way(v: Volume, dir: Dir, parts: Seq<Seq<char>>)
    ensures
        v.layout.dir_from(v.disk, dir, parts) matches Err(fault) ==> !no_room(fault),
    decreases parts.len(),
{
    if parts.len() > 0 {
        let rest = parts.subrange(1, parts.len() as int);
        lemma_faults_of_dirs(v, dir);
        if parts[0].len() == 0 {
            lemma_faults_on_the_way(v, dir, rest);
        } else if let Ok(located) = v.layout.lookup(v.disk, dir, parts[0]) {
            lemma_faults_on_the_way(v, volume::dir_at(located.entry.first_cluster), rest);
        }
    }
}

/// What can be wrong with a path.
pub proof fn lemma_faults_of_paths(v: Volume, path: Seq<char>)
    ensures
        v.layout.dir_of(v.disk, path) matches Err(fault) ==> !no_room(fault),
{
    lemma_faults_on_the_way(v, Dir::Root, crate::text::pieces_from(path, 0, '/'));
}

} // verus!
