//! What holds of a volume across changes: what is written can be read back, and what isn't
//! touched stays as it was.

use super::change;
use super::change::{ImageModel, Volume};
use super::entries;
use super::entries::{Cluster, EntryKind, FatType, LocatedModel, Stamp};
use super::names;
use super::others;
use super::read;
use super::stored;
use super::volume;
use super::volume::{Dir, Disk, Fault, Layout};
use crate::bytes;
use crate::text;
use vstd::prelude::*;

verus! {

/// Whether a disk holds a volume as its layout says: the FAT has an entry for every cluster,
/// and every sector holds 512 bytes.
pub open spec fn sound(layout: Layout, disk: Disk) -> bool {
    &&& layout.wf()
    &&& (layout.cluster_count + 2) * layout.width() <= layout.fat_size * 512
    &&& forall|t: int| 0 <= t <= 0xFFFF_FFFF ==> (#[trigger] layout.sector(disk, t)).len() == 512
}

/// The first sector after the FATs.
pub open spec fn fat_end(layout: Layout) -> int {
    layout.fat_start + layout.fat_count * layout.fat_size
}

// The FAT.
/// Where FAT entries are: in the first FAT, each in one sector, and no two overlap.
pub proof fn lemma_entry_place(layout: Layout, disk: Disk, c: u32)
    requires
        sound(layout, disk),
        layout.has_cluster(c),
    ensures
        layout.fat_start <= layout.fat_sector(c) < layout.fat_start + layout.fat_size,
        layout.fat_start + layout.fat_size <= fat_end(layout) <= 0xFFFF_FFFF,
        0 <= layout.fat_offset(c),
        layout.fat_offset(c) + layout.width() <= 512,
{
    let count = layout.cluster_count as int;
    let size = layout.fat_size as int;
    if layout.width() == 2 {
        lemma_place16(c as int, count, size);
    } else {
        lemma_place32(c as int, count, size);
    }
    assert(size <= layout.fat_count * size) by (nonlinear_arith)
        requires
            layout.fat_count >= 1,
            size >= 0,
    ;
    lemma_fat_end(layout);
}

proof fn lemma_place16(c: int, count: int, size: int)
    requires
        0 <= c < count + 2,
        (count + 2) * 2 <= size * 512,
    ensures
        0 <= c * 2 / 512 < size,
        0 <= c * 2 % 512 <= 510,
{
    assert(c * 2 % 512 == 2 * (c % 256));
}

proof fn lemma_place32(c: int, count: int, size: int)
    requires
        0 <= c < count + 2,
        (count + 2) * 4 <= size * 512,
    ensures
        0 <= c * 4 / 512 < size,
        0 <= c * 4 % 512 <= 508,
{
    assert(c * 4 % 512 == 4 * (c % 128));
}

/// Two clusters whose FAT entries are in one sector have them apart.
proof fn lemma_entries_apart(layout: Layout, a: u32, b: u32)
    requires
        a != b,
        layout.fat_sector(a) == layout.fat_sector(b),
    ensures
        layout.fat_offset(a) + layout.width() <= layout.fat_offset(b) || layout.fat_offset(b)
            + layout.width() <= layout.fat_offset(a),
{
    if layout.width() == 2 {
        assert(a * 2 / 512 == b * 2 / 512);
    } else {
        assert(a * 4 / 512 == b * 4 / 512);
    }
}

/// Words that were written over a block are there, and others are as they were.
proof fn lemma_word16(block: Seq<u8>, at: int, value: u16, other: int)
    requires
        0 <= at,
        at + 2 <= block.len(),
        0 <= other,
        other + 2 <= block.len(),
    ensures
        bytes::le16(bytes::splice(block, at, bytes::le16_bytes(value)), at) == value,
        other + 2 <= at || at + 2 <= other ==> bytes::le16(
            bytes::splice(block, at, bytes::le16_bytes(value)),
            other,
        ) == bytes::le16(block, other),
{
    let new = bytes::splice(block, at, bytes::le16_bytes(value));
    assert(new.subrange(at, at + 2) =~= bytes::le16_bytes(value));
    bytes::lemma_words_in_subrange(new, at, at + 2, 0);
    bytes::lemma_words_round_trip(value, 0);
}

pub proof fn lemma_word32(block: Seq<u8>, at: int, value: u32, other: int)
    requires
        0 <= at,
        at + 4 <= block.len(),
        0 <= other,
        other + 4 <= block.len(),
    ensures
        bytes::le32(bytes::splice(block, at, bytes::le32_bytes(value)), at) == value,
        other + 4 <= at || at + 4 <= other ==> bytes::le32(
            bytes::splice(block, at, bytes::le32_bytes(value)),
            other,
        ) == bytes::le32(block, other),
{
    let new = bytes::splice(block, at, bytes::le32_bytes(value));
    assert(new.subrange(at, at + 4) =~= bytes::le32_bytes(value));
    bytes::lemma_words_in_subrange(new, at, at + 4, 0);
    bytes::lemma_words_round_trip(0, value);
}

/// A FAT entry that was set is what it was set to, and others are as they were.
proof fn lemma_value(layout: Layout, block: Seq<u8>, at: int, value: u32, other: int)
    requires
        block.len() == 512,
        0 <= at,
        at + layout.width() <= 512,
        0 <= other,
        other + layout.width() <= 512,
        value <= layout.end_mark(),
    ensures
        layout.with_value(block, at, value).len() == 512,
        layout.value_at(layout.with_value(block, at, value), at) == value,
        other + layout.width() <= at || at + layout.width() <= other ==> layout.value_at(
            layout.with_value(block, at, value),
            other,
        ) == layout.value_at(block, other),
{
    if layout.fat_type == FatType::Fat16 {
        lemma_word16(block, at, (value % 0x1_0000) as u16, other);
    } else {
        let word = bytes::le32(block, at);
        let kept = word / 0x1000_0000 * 0x1000_0000;
        assert(0 <= kept <= word && kept + 0x1000_0000 <= 0x1_0000_0000);
        let whole = (kept + value % 0x1000_0000) as u32;
        assert(whole == kept + value);
        lemma_word32(block, at, whole, other);
        assert(whole % 0x1000_0000 == value) by (nonlinear_arith)
            requires
                whole == word / 0x1000_0000 * 0x1000_0000 + value,
                0 <= value < 0x1000_0000,
        ;
    }
}

/// What setting a FAT entry does: that entry, and nothing else but copies of it.
pub proof fn lemma_with_entry(layout: Layout, disk: Disk, c: u32, value: u32)
    requires
        sound(layout, disk),
        layout.has_cluster(c),
        value <= layout.end_mark(),
    ensures
        sound(layout, layout.with_entry(disk, c, value)),
        forall|t: int|
            (0 <= t < layout.fat_start || fat_end(layout) <= t <= 0xFFFF_FFFF)
                ==> #[trigger] layout.sector(layout.with_entry(disk, c, value), t)
                == layout.sector(disk, t),
        forall|o: u32|
            layout.has_cluster(o) ==> #[trigger] layout.fat_entry(
                layout.with_entry(disk, c, value),
                o,
            ) == if o == c {
                value
            } else {
                layout.fat_entry(disk, o)
            },
{
    let s = layout.fat_sector(c);
    let at = layout.fat_offset(c);
    let n = layout.fat_count as int;
    let fs = layout.fat_size as int;
    let old_block = layout.sector(disk, s);
    let block = layout.with_value(old_block, at, value);
    let after = layout.with_entry(disk, c, value);
    lemma_entry_place(layout, disk, c);
    layout.lemma_copies(disk, s, block, n);
    lemma_value(layout, old_block, at, value, at);
    assert(old_block.len() == 512);
    assert forall|t: int| 0 <= t <= 0xFFFF_FFFF implies (#[trigger] layout.sector(after, t)).len()
        == 512 by {
        assert(layout.sector(disk, t).len() == 512);
        assert(after[layout.block(t)] == if layout.is_copy(s, n, layout.block(t)) {
            block
        } else {
            disk[layout.block(t)]
        });
    }
    assert forall|t: int|
        (0 <= t < layout.fat_start || fat_end(layout) <= t <= 0xFFFF_FFFF) implies #[trigger] layout.sector(
        after,
        t,
    ) == layout.sector(disk, t) by {
        if layout.is_copy(s, n, layout.block(t)) {
            let k = choose|k: int|
                0 <= k < n && #[trigger] layout.block(s + k * fs) == layout.block(t);
            lemma_copy_place(layout, disk, c, k);
            assert(false);
        }
        assert(after[layout.block(t)] == disk[layout.block(t)]);
    }
    assert forall|o: u32| layout.has_cluster(o) implies #[trigger] layout.fat_entry(after, o) == (
    if o == c {
        value
    } else {
        layout.fat_entry(disk, o)
    }) by {
        lemma_entry_place(layout, disk, o);
        let so = layout.fat_sector(o);
        assert(after[layout.block(so)] == if layout.is_copy(s, n, layout.block(so)) {
            block
        } else {
            disk[layout.block(so)]
        });
        if so == s {
            assert(0 * fs == 0);
            assert(layout.block(s + 0 * fs) == layout.block(so));
            assert(layout.is_copy(s, n, layout.block(so)));
            lemma_value(layout, old_block, at, value, layout.fat_offset(o));
            if o != c {
                lemma_entries_apart(layout, c, o);
            }
        } else {
            if layout.is_copy(s, n, layout.block(so)) {
                let k = choose|k: int|
                    0 <= k < n && #[trigger] layout.block(s + k * fs) == layout.block(so);
                lemma_copy_place(layout, disk, c, k);
                assert(s + k * fs == so);
                if k > 0 {
                    assert(k * fs >= fs) by (nonlinear_arith)
                        requires
                            k >= 1,
                            fs >= 0,
                    ;
                } else {
                    assert(0 * fs == 0);
                }
                assert(false);
            }
        }
    }
}

/// Copies of FAT sectors are in the FATs.
proof fn lemma_copy_place(layout: Layout, disk: Disk, c: u32, k: int)
    requires
        sound(layout, disk),
        layout.has_cluster(c),
        0 <= k < layout.fat_count,
    ensures
        layout.fat_start <= layout.fat_sector(c) + k * layout.fat_size < fat_end(layout),
        fat_end(layout) <= 0xFFFF_FFFF,
{
    lemma_entry_place(layout, disk, c);
    assert(0 <= k * layout.fat_size <= (layout.fat_count - 1) * layout.fat_size)
        by (nonlinear_arith)
        requires
            0 <= k <= layout.fat_count - 1,
            layout.fat_size >= 0,
    ;
    assert((layout.fat_count - 1) * layout.fat_size + layout.fat_size == layout.fat_count
        * layout.fat_size) by (nonlinear_arith);
}

/// What comes after cluster number `i` of a chain that is made.
pub open spec fn next_of(layout: Layout, clusters: Seq<u32>, i: int) -> u32 {
    if i + 1 < clusters.len() {
        clusters[i + 1]
    } else {
        layout.end_mark()
    }
}

/// What chaining clusters in the FAT does.
pub proof fn lemma_with_links(layout: Layout, disk: Disk, clusters: Seq<u32>, n: int)
    requires
        sound(layout, disk),
        crate::fat::write::all_there(layout, clusters),
        clusters.no_duplicates(),
        0 <= n <= clusters.len(),
    ensures
        sound(layout, layout.with_links(disk, clusters, n)),
        forall|t: int|
            (0 <= t < layout.fat_start || fat_end(layout) <= t <= 0xFFFF_FFFF)
                ==> #[trigger] layout.sector(layout.with_links(disk, clusters, n), t)
                == layout.sector(disk, t),
        forall|o: u32|
            layout.has_cluster(o) && !clusters.contains(o) ==> #[trigger] layout.fat_entry(
                layout.with_links(disk, clusters, n),
                o,
            ) == layout.fat_entry(disk, o),
        forall|i: int|
            0 <= i < n ==> #[trigger] layout.fat_entry(
                layout.with_links(disk, clusters, n),
                clusters[i],
            ) == next_of(layout, clusters, i),
    decreases n,
{
    if n > 0 {
        lemma_with_links(layout, disk, clusters, n - 1);
        let before = layout.with_links(disk, clusters, n - 1);
        let after = layout.with_links(disk, clusters, n);
        let c = clusters[n - 1];
        assert(layout.has_cluster(c));
        if n < clusters.len() {
            assert(layout.has_cluster(clusters[n]));
        }
        lemma_with_entry(layout, before, c, next_of(layout, clusters, n - 1));
        assert forall|o: u32| layout.has_cluster(o) && !clusters.contains(o) implies #[trigger] layout.fat_entry(
            after,
            o,
        ) == layout.fat_entry(disk, o) by {
            assert(clusters.contains(c));
            assert(layout.fat_entry(before, o) == layout.fat_entry(disk, o));
        }
        assert forall|i: int| 0 <= i < n implies #[trigger] layout.fat_entry(after, clusters[i])
            == next_of(layout, clusters, i) by {
            assert(layout.has_cluster(clusters[i]));
            if i < n - 1 {
                assert(layout.fat_entry(before, clusters[i]) == next_of(layout, clusters, i));
            }
        }
        assert forall|t: int|
            (0 <= t < layout.fat_start || fat_end(layout) <= t
                <= 0xFFFF_FFFF) implies #[trigger] layout.sector(after, t) == layout.sector(
            disk,
            t,
        ) by {
            assert(layout.sector(before, t) == layout.sector(disk, t));
        }
    }
}

/// What freeing clusters does.
pub proof fn lemma_with_freed(layout: Layout, disk: Disk, clusters: Seq<u32>, n: int)
    requires
        sound(layout, disk),
        crate::fat::write::all_there(layout, clusters),
        0 <= n <= clusters.len(),
    ensures
        sound(layout, layout.with_freed(disk, clusters, n)),
        forall|t: int|
            (0 <= t < layout.fat_start || fat_end(layout) <= t <= 0xFFFF_FFFF)
                ==> #[trigger] layout.sector(layout.with_freed(disk, clusters, n), t)
                == layout.sector(disk, t),
        forall|o: u32|
            layout.has_cluster(o) && !clusters.contains(o) ==> #[trigger] layout.fat_entry(
                layout.with_freed(disk, clusters, n),
                o,
            ) == layout.fat_entry(disk, o),
        forall|i: int|
            0 <= i < n ==> #[trigger] layout.fat_entry(
                layout.with_freed(disk, clusters, n),
                clusters[i],
            ) == 0,
    decreases n,
{
    if n > 0 {
        lemma_with_freed(layout, disk, clusters, n - 1);
        let before = layout.with_freed(disk, clusters, n - 1);
        let after = layout.with_freed(disk, clusters, n);
        let c = clusters[n - 1];
        assert(layout.has_cluster(c));
        lemma_with_entry(layout, before, c, 0);
        assert forall|o: u32| layout.has_cluster(o) && !clusters.contains(o) implies #[trigger] layout.fat_entry(
            after,
            o,
        ) == layout.fat_entry(disk, o) by {
            assert(clusters.contains(c));
            assert(layout.fat_entry(before, o) == layout.fat_entry(disk, o));
        }
        assert forall|i: int| 0 <= i < n implies #[trigger] layout.fat_entry(after, clusters[i])
            == 0 by {
            assert(layout.has_cluster(clusters[i]));
            if i < n - 1 {
                assert(layout.fat_entry(before, clusters[i]) == 0);
            }
        }
        assert forall|t: int|
            (0 <= t < layout.fat_start || fat_end(layout) <= t
                <= 0xFFFF_FFFF) implies #[trigger] layout.sector(after, t) == layout.sector(
            disk,
            t,
        ) by {
            assert(layout.sector(before, t) == layout.sector(disk, t));
        }
    }
}

// Sectors.
/// Whether sectors are all after the FATs.
pub open spec fn past_fats(layout: Layout, sectors: Seq<int>) -> bool {
    forall|i: int| 0 <= i < sectors.len() ==> fat_end(layout) <= #[trigger] sectors[i] <= 0xFFFF_FFFF
}

/// Sectors that hold the same on two disks hold the same together.
pub proof fn lemma_bytes_same(layout: Layout, a: Disk, b: Disk, sectors: Seq<int>)
    requires
        forall|i: int|
            0 <= i < sectors.len() ==> layout.sector(a, #[trigger] sectors[i]) == layout.sector(
                b,
                sectors[i],
            ),
    ensures
        layout.bytes_at(a, sectors) == layout.bytes_at(b, sectors),
    decreases sectors.len(),
{
    if sectors.len() > 0 {
        let front = sectors.drop_last();
        assert forall|i: int| 0 <= i < front.len() implies layout.sector(a, #[trigger] front[i])
            == layout.sector(b, front[i]) by {
            assert(front[i] == sectors[i]);
        }
        lemma_bytes_same(layout, a, b, front);
        assert(layout.sector(a, sectors[sectors.len() - 1]) == layout.sector(
            b,
            sectors[sectors.len() - 1],
        ));
    }
}

/// Bytes that are, 512 at a time, what sectors hold.
pub proof fn lemma_bytes_are(layout: Layout, disk: Disk, sectors: Seq<int>, data: Seq<u8>)
    requires
        data.len() == 512 * sectors.len(),
        forall|i: int|
            0 <= i < sectors.len() ==> data.subrange(512 * i, 512 * i + 512) == layout.sector(
                disk,
                #[trigger] sectors[i],
            ),
    ensures
        layout.bytes_at(disk, sectors) == data,
    decreases sectors.len(),
{
    if sectors.len() > 0 {
        let n = sectors.len() as int;
        let front = sectors.drop_last();
        let part = data.subrange(0, 512 * (n - 1));
        assert forall|i: int| 0 <= i < front.len() implies part.subrange(512 * i, 512 * i + 512)
            == layout.sector(disk, #[trigger] front[i]) by {
            assert(front[i] == sectors[i]);
            assert(part.subrange(512 * i, 512 * i + 512) =~= data.subrange(512 * i, 512 * i + 512));
        }
        lemma_bytes_are(layout, disk, front, part);
        assert(data.subrange(512 * (n - 1), 512 * (n - 1) + 512) == layout.sector(
            disk,
            sectors[n - 1],
        ));
        assert(data =~= part + data.subrange(512 * (n - 1), 512 * (n - 1) + 512));
    } else {
        assert(data =~= Seq::<u8>::empty());
    }
}

/// What sectors hold is, 512 bytes at a time, what each holds.
pub proof fn lemma_bytes_index(layout: Layout, disk: Disk, sectors: Seq<int>, i: int)
    requires
        sound(layout, disk),
        past_fats(layout, sectors),
        0 <= i < sectors.len(),
    ensures
        layout.bytes_at(disk, sectors).len() == 512 * sectors.len(),
        layout.bytes_at(disk, sectors).subrange(512 * i, 512 * i + 512) == layout.sector(
            disk,
            sectors[i],
        ),
    decreases sectors.len(),
{
    let n = sectors.len() as int;
    assert forall|k: int| 0 <= k < n implies layout.sector(disk, #[trigger] sectors[k]).len()
        == 512 by {
        assert(fat_end(layout) <= sectors[k] <= 0xFFFF_FFFF);
        lemma_fat_end(layout);
    }
    layout.lemma_bytes_length(disk, sectors);
    let front = sectors.drop_last();
    assert forall|k: int| 0 <= k < front.len() implies layout.sector(disk, #[trigger] front[k]).len()
        == 512 by {
        assert(front[k] == sectors[k]);
    }
    layout.lemma_bytes_length(disk, front);
    let all = layout.bytes_at(disk, sectors);
    if i < n - 1 {
        assert(past_fats(layout, front)) by {
            assert forall|k: int| 0 <= k < front.len() implies fat_end(layout)
                <= #[trigger] front[k] <= 0xFFFF_FFFF by {
                assert(front[k] == sectors[k]);
            }
        }
        lemma_bytes_index(layout, disk, front, i);
        assert(all.subrange(512 * i, 512 * i + 512) =~= layout.bytes_at(disk, front).subrange(
            512 * i,
            512 * i + 512,
        ));
    } else {
        assert(all.subrange(512 * i, 512 * i + 512) =~= layout.sector(disk, sectors.last()));
    }
}

pub proof fn lemma_fat_end(layout: Layout)
    requires
        layout.wf(),
    ensures
        layout.fat_start < fat_end(layout) <= layout.data_start <= 0xFFFF_FFFF,
{
    assert(layout.fat_count * layout.fat_size >= 1) by (nonlinear_arith)
        requires
            layout.fat_count >= 1,
            layout.fat_size >= 1,
    ;
    assert(0 <= layout.cluster_count * layout.sectors_per_cluster) by (nonlinear_arith);
}

/// What writing data to sectors does.
pub proof fn lemma_with_data(layout: Layout, disk: Disk, sectors: Seq<int>, data: Seq<u8>)
    requires
        sound(layout, disk),
        past_fats(layout, sectors),
        data.len() >= 512 * sectors.len(),
    ensures
        sound(layout, layout.with_data(disk, sectors, data)),
        forall|t: int|
            0 <= t <= 0xFFFF_FFFF && !sectors.contains(t) ==> #[trigger] layout.sector(
                layout.with_data(disk, sectors, data),
                t,
            ) == layout.sector(disk, t),
        forall|o: u32|
            layout.has_cluster(o) ==> #[trigger] layout.fat_entry(
                layout.with_data(disk, sectors, data),
                o,
            ) == layout.fat_entry(disk, o),
        sectors.no_duplicates() ==> forall|i: int|
            0 <= i < sectors.len() ==> layout.sector(
                layout.with_data(disk, sectors, data),
                #[trigger] sectors[i],
            ) == data.subrange(512 * i, 512 * i + 512),
    decreases sectors.len(),
{
    let after = layout.with_data(disk, sectors, data);
    lemma_fat_end(layout);
    if sectors.len() > 0 {
        let front = sectors.drop_last();
        let n = sectors.len() as int;
        let last = sectors[n - 1];
        assert forall|k: int| 0 <= k < front.len() implies fat_end(layout) <= #[trigger] front[k]
            <= 0xFFFF_FFFF by {
            assert(front[k] == sectors[k]);
        }
        lemma_with_data(layout, disk, front, data);
        let before = layout.with_data(disk, front, data);
        let piece = data.subrange(512 * (n - 1), 512 * n);
        assert(after == before.insert(layout.block(last), piece));
        assert forall|t: int| 0 <= t <= 0xFFFF_FFFF && t != last implies #[trigger] layout.sector(
            after,
            t,
        ) == layout.sector(before, t) by {
            assert(layout.block(t) != layout.block(last));
        }
        assert(layout.sector(after, last) == piece);
        assert forall|t: int| 0 <= t <= 0xFFFF_FFFF implies (#[trigger] layout.sector(
            after,
            t,
        )).len() == 512 by {
            assert(layout.sector(before, t).len() == 512);
        }
        assert forall|t: int| 0 <= t <= 0xFFFF_FFFF && !sectors.contains(t) implies #[trigger] layout.sector(
            after,
            t,
        ) == layout.sector(disk, t) by {
            assert(sectors.contains(last));
            assert(!front.contains(t)) by {
                if front.contains(t) {
                    let k = choose|k: int| 0 <= k < front.len() && front[k] == t;
                    assert(sectors[k] == t);
                }
            }
            assert(layout.sector(before, t) == layout.sector(disk, t));
        }
        assert forall|o: u32| layout.has_cluster(o) implies #[trigger] layout.fat_entry(after, o)
            == layout.fat_entry(disk, o) by {
            lemma_entry_place(layout, disk, o);
            assert(layout.fat_entry(before, o) == layout.fat_entry(disk, o));
            assert(layout.sector(after, layout.fat_sector(o)) == layout.sector(
                before,
                layout.fat_sector(o),
            ));
        }
        if sectors.no_duplicates() {
            assert(front.no_duplicates()) by {
                assert forall|i: int, j: int|
                    0 <= i < front.len() && 0 <= j < front.len() && i != j implies front[i]
                    != front[j] by {
                    assert(sectors[i] != sectors[j]);
                }
            }
            assert forall|i: int| 0 <= i < sectors.len() implies layout.sector(
                after,
                #[trigger] sectors[i],
            ) == data.subrange(512 * i, 512 * i + 512) by {
                if i < n - 1 {
                    assert(front[i] == sectors[i]);
                    assert(sectors[i] != last);
                    assert(layout.sector(after, sectors[i]) == layout.sector(before, sectors[i]));
                }
            }
        }
    }
}

/// What writing some of a directory's sectors back does to what it holds, if the rest is as it
/// was.
pub proof fn lemma_part_stored(
    layout: Layout,
    disk: Disk,
    places: Seq<int>,
    data: Seq<u8>,
    first: int,
    end: int,
)
    requires
        sound(layout, disk),
        past_fats(layout, places),
        places.no_duplicates(),
        data.len() == 512 * places.len(),
        0 <= first <= end <= places.len(),
        forall|i: int|
            0 <= i < data.len() && !(512 * first <= i < 512 * end) ==> data[i] == layout.bytes_at(
                disk,
                places,
            )[i],
    ensures
        ({
            let part = places.subrange(first, end);
            let after = layout.with_data(disk, part, data.subrange(512 * first, 512 * end));
            &&& layout.bytes_at(after, places) == data
            &&& sound(layout, after)
            &&& forall|t: int|
                0 <= t <= 0xFFFF_FFFF && !places.contains(t) ==> #[trigger] layout.sector(after, t)
                    == layout.sector(disk, t)
            &&& forall|o: u32|
                layout.has_cluster(o) ==> #[trigger] layout.fat_entry(after, o) == layout.fat_entry(
                    disk,
                    o,
                )
        }),
{
    let part = places.subrange(first, end);
    let piece = data.subrange(512 * first, 512 * end);
    let after = layout.with_data(disk, part, piece);
    lemma_fat_end(layout);
    assert forall|k: int| 0 <= k < part.len() implies fat_end(layout) <= #[trigger] part[k]
        <= 0xFFFF_FFFF by {
        assert(part[k] == places[first + k]);
    }
    assert(part.no_duplicates()) by {
        assert forall|i: int, j: int|
            0 <= i < part.len() && 0 <= j < part.len() && i != j implies part[i] != part[j] by {
            assert(places[first + i] != places[first + j]);
        }
    }
    lemma_with_data(layout, disk, part, piece);
    let old_bytes = layout.bytes_at(disk, places);
    assert forall|i: int| 0 <= i < places.len() implies data.subrange(512 * i, 512 * i + 512)
        == layout.sector(after, #[trigger] places[i]) by {
        lemma_bytes_index(layout, disk, places, i);
        if first <= i < end {
            assert(part[i - first] == places[i]);
            assert(piece.subrange(512 * (i - first), 512 * (i - first) + 512) =~= data.subrange(
                512 * i,
                512 * i + 512,
            ));
        } else {
            assert(!part.contains(places[i])) by {
                if part.contains(places[i]) {
                    let k = choose|k: int| 0 <= k < part.len() && part[k] == places[i];
                    assert(places[first + k] == places[i]);
                }
            }
            assert(layout.sector(after, places[i]) == layout.sector(disk, places[i]));
            assert(data.subrange(512 * i, 512 * i + 512) =~= old_bytes.subrange(
                512 * i,
                512 * i + 512,
            ));
        }
    }
    lemma_bytes_are(layout, after, places, data);
    assert forall|t: int| 0 <= t <= 0xFFFF_FFFF && !places.contains(t) implies #[trigger] layout.sector(
        after,
        t,
    ) == layout.sector(disk, t) by {
        assert(!part.contains(t)) by {
            if part.contains(t) {
                let k = choose|k: int| 0 <= k < part.len() && part[k] == t;
                assert(places[first + k] == t);
            }
        }
    }
}

// Clusters.
/// Whether sector `t` is one of cluster `c`.
pub open spec fn in_cluster(layout: Layout, c: u32, t: int) -> bool {
    layout.first_sector(c) <= t < layout.first_sector(c) + layout.sectors_per_cluster
}

/// No sector is in two clusters.
pub proof fn lemma_clusters_apart(layout: Layout, a: u32, b: u32, t: int)
    requires
        layout.wf(),
        in_cluster(layout, a, t),
        in_cluster(layout, b, t),
    ensures
        a == b,
{
    let per = layout.sectors_per_cluster as int;
    if a < b {
        assert((b - 2) * per >= (a - 2) * per + per) by (nonlinear_arith)
            requires
                a + 1 <= b,
                per >= 1,
        ;
    }
    if b < a {
        assert((a - 2) * per >= (b - 2) * per + per) by (nonlinear_arith)
            requires
                b + 1 <= a,
                per >= 1,
        ;
    }
}

/// The sectors of clusters.
pub proof fn lemma_sector_of(layout: Layout, clusters: Seq<u32>, t: int)
    requires
        layout.wf(),
    ensures
        layout.sectors_of(clusters).contains(t) <==> exists|k: int|
            0 <= k < clusters.len() && in_cluster(layout, #[trigger] clusters[k], t),
    decreases clusters.len(),
{
    if clusters.len() > 0 {
        let front = clusters.drop_last();
        let last = clusters.last();
        let n = clusters.len() as int;
        lemma_sector_of(layout, front, t);
        let before = layout.sectors_of(front);
        let range = volume::sector_range(
            layout.first_sector(last),
            layout.sectors_per_cluster as int,
        );
        let all = layout.sectors_of(clusters);
        if all.contains(t) {
            let i = choose|i: int| 0 <= i < all.len() && all[i] == t;
            if i < before.len() {
                assert(before[i] == t);
                let k = choose|k: int|
                    0 <= k < front.len() && in_cluster(layout, #[trigger] front[k], t);
                assert(in_cluster(layout, clusters[k], t));
            } else {
                assert(range[i - before.len()] == t);
                assert(in_cluster(layout, clusters[n - 1], t));
            }
        }
        if exists|k: int| 0 <= k < clusters.len() && in_cluster(layout, #[trigger] clusters[k], t) {
            let k = choose|k: int|
                0 <= k < clusters.len() && in_cluster(layout, #[trigger] clusters[k], t);
            if k < n - 1 {
                assert(front[k] == clusters[k]);
                assert(before.contains(t));
                let i = choose|i: int| 0 <= i < before.len() && before[i] == t;
                assert(all[i] == t);
            } else {
                let i = t - layout.first_sector(last);
                assert(range[i] == t);
                assert(all[before.len() + i] == t);
            }
        }
    }
}

/// The sectors of different clusters are different, and after the FATs.
pub proof fn lemma_sectors_distinct(layout: Layout, clusters: Seq<u32>)
    requires
        layout.wf(),
        clusters.no_duplicates(),
        crate::fat::write::all_there(layout, clusters),
    ensures
        layout.sectors_of(clusters).no_duplicates(),
        past_fats(layout, layout.sectors_of(clusters)),
    decreases clusters.len(),
{
    let all = layout.sectors_of(clusters);
    if clusters.len() > 0 {
        let front = clusters.drop_last();
        let last = clusters.last();
        let n = clusters.len() as int;
        assert(last == clusters[n - 1]);
        assert(front.no_duplicates()) by {
            assert forall|i: int, j: int|
                0 <= i < front.len() && 0 <= j < front.len() && i != j implies front[i]
                != front[j] by {
                assert(clusters[i] != clusters[j]);
            }
        }
        assert(crate::fat::write::all_there(layout, front)) by {
            assert forall|k: int| 0 <= k < front.len() implies layout.has_cluster(
                #[trigger] front[k],
            ) by {
                assert(front[k] == clusters[k]);
            }
        }
        lemma_sectors_distinct(layout, front);
        let before = layout.sectors_of(front);
        let range = volume::sector_range(
            layout.first_sector(last),
            layout.sectors_per_cluster as int,
        );
        layout.lemma_cluster_place(last);
        lemma_fat_end(layout);
        assert forall|i: int, j: int| 0 <= i < j < all.len() implies all[i] != all[j] by {
            if j < before.len() {
                assert(before[i] != before[j]);
            } else if i < before.len() {
                let t = before[i];
                assert(before.contains(t));
                lemma_sector_of(layout, front, t);
                let k = choose|k: int|
                    0 <= k < front.len() && in_cluster(layout, #[trigger] front[k], t);
                if t == range[j - before.len()] {
                    lemma_clusters_apart(layout, front[k], last, t);
                    assert(clusters[k] == clusters[n - 1]);
                }
            }
        }
        assert forall|i: int| 0 <= i < all.len() implies fat_end(layout) <= #[trigger] all[i]
            <= 0xFFFF_FFFF by {
            if i < before.len() {
                assert(all[i] == before[i]);
            } else {
                assert(all[i] == range[i - before.len()]);
            }
        }
    }
}

// Chains.
/// A chain whose FAT entries are the same on two disks is the same.
pub proof fn lemma_chain_same(
    layout: Layout,
    a: Disk,
    b: Disk,
    c: u32,
    left: nat,
    need: Option<int>,
)
    requires
        layout.chain_from(a, c, left, need) matches Ok(clusters) ==> forall|k: int|
            0 <= k < clusters.len() ==> layout.fat_entry(b, #[trigger] clusters[k])
                == layout.fat_entry(a, clusters[k]),
    ensures
        layout.chain_from(a, c, left, need) is Ok ==> layout.chain_from(b, c, left, need)
            == layout.chain_from(a, c, left, need),
    decreases left,
{
    if let Ok(clusters) = layout.chain_from(a, c, left, need) {
        assert(clusters[0] == c);
        assert(layout.fat_entry(b, clusters[0]) == layout.fat_entry(a, clusters[0]));
        if let volume::Link::To(next) = layout.link(a, c) {
            let more = match need {
                Some(n) => Some(n - layout.cluster_bytes()),
                None => None,
            };
            if let Ok(rest) = layout.chain_from(a, next, (left - 1) as nat, more) {
                if clusters.len() > 1 {
                    assert forall|k: int| 0 <= k < rest.len() implies layout.fat_entry(
                        b,
                        #[trigger] rest[k],
                    ) == layout.fat_entry(a, rest[k]) by {
                        assert(clusters[k + 1] == rest[k]);
                    }
                    lemma_chain_same(layout, a, b, next, (left - 1) as nat, more);
                }
            }
        }
    }
}

/// No cluster of a chain is free.
pub proof fn lemma_chain_used(layout: Layout, disk: Disk, c: u32, left: nat)
    requires
        layout.wf(),
    ensures
        layout.chain_from(disk, c, left, None) matches Ok(clusters) ==> forall|k: int|
            0 <= k < clusters.len() ==> layout.fat_entry(disk, #[trigger] clusters[k]) != 0,
    decreases left,
{
    if layout.has_cluster(c) && left > 0 {
        if let volume::Link::To(next) = layout.link(disk, c) {
            lemma_chain_used(layout, disk, next, (left - 1) as nat);
        }
    }
}

/// A chain is the same however far it may go.
proof fn lemma_chain_stable(layout: Layout, disk: Disk, c: u32, a: nat, b: nat)
    ensures
        layout.chain_from(disk, c, a, None) is Ok && layout.chain_from(disk, c, b, None) is Ok
            ==> layout.chain_from(disk, c, a, None) == layout.chain_from(disk, c, b, None),
    decreases a,
{
    if layout.has_cluster(c) && a > 0 && b > 0 {
        if let volume::Link::To(next) = layout.link(disk, c) {
            lemma_chain_stable(layout, disk, next, (a - 1) as nat, (b - 1) as nat);
        }
    }
}

/// A chain from its cluster number `k` on is the rest of it.
proof fn lemma_chain_suffix(layout: Layout, disk: Disk, c: u32, left: nat, k: int)
    requires
        layout.chain_from(disk, c, left, None) is Ok,
        0 <= k < layout.chain_from(disk, c, left, None)->Ok_0.len(),
    ensures
        ({
            let clusters = layout.chain_from(disk, c, left, None)->Ok_0;
            &&& k <= left
            &&& layout.chain_from(disk, clusters[k], (left - k) as nat, None) == Ok::<
                Seq<u32>,
                Fault,
            >(clusters.subrange(k, clusters.len() as int))
        }),
    decreases k,
{
    let clusters = layout.chain_from(disk, c, left, None)->Ok_0;
    if k == 0 {
        assert(clusters.subrange(0, clusters.len() as int) =~= clusters);
    } else {
        if let volume::Link::To(next) = layout.link(disk, c) {
            lemma_chain_suffix(layout, disk, next, (left - 1) as nat, k - 1);
            let rest = layout.chain_from(disk, next, (left - 1) as nat, None)->Ok_0;
            assert(clusters =~= seq![c] + rest);
            assert(clusters.subrange(k, clusters.len() as int) =~= rest.subrange(
                k - 1,
                rest.len() as int,
            ));
        }
    }
}

/// No cluster is twice in a chain.
pub proof fn lemma_chain_distinct(layout: Layout, disk: Disk, c: u32, left: nat)
    ensures
        layout.chain_from(disk, c, left, None) matches Ok(clusters) ==> clusters.no_duplicates(),
{
    if let Ok(clusters) = layout.chain_from(disk, c, left, None) {
        assert forall|i: int, j: int| 0 <= i < j < clusters.len() implies clusters[i]
            != clusters[j] by {
            if clusters[i] == clusters[j] {
                lemma_chain_suffix(layout, disk, c, left, i);
                lemma_chain_suffix(layout, disk, c, left, j);
                lemma_chain_stable(
                    layout,
                    disk,
                    clusters[i],
                    (left - i) as nat,
                    (left - j) as nat,
                );
                assert(clusters.subrange(i, clusters.len() as int).len() == clusters.subrange(
                    j,
                    clusters.len() as int,
                ).len());
            }
        }
    }
}

/// Clusters that the FAT links one to the next, and ends after the last, are a chain.
pub proof fn lemma_chain_made(
    layout: Layout,
    disk: Disk,
    clusters: Seq<u32>,
    i: int,
    left: nat,
    need: Option<int>,
)
    requires
        layout.wf(),
        crate::fat::write::all_there(layout, clusters),
        0 <= i < clusters.len(),
        clusters.len() - i <= left,
        forall|k: int|
            0 <= k < clusters.len() ==> #[trigger] layout.fat_entry(disk, clusters[k]) == next_of(
                layout,
                clusters,
                k,
            ),
        need matches Some(n) ==> n > (clusters.len() - 1 - i) * layout.cluster_bytes(),
    ensures
        layout.chain_from(disk, clusters[i], left, need) == Ok::<Seq<u32>, Fault>(
            clusters.subrange(i, clusters.len() as int),
        ),
    decreases clusters.len() - i,
{
    let n = clusters.len() as int;
    let c = clusters[i];
    assert(layout.has_cluster(c));
    assert(layout.fat_entry(disk, c) == next_of(layout, clusters, i));
    if i + 1 < n {
        let next = clusters[i + 1];
        assert(layout.has_cluster(next));
        assert(layout.link(disk, c) == volume::Link::To(next));
        let size = layout.cluster_bytes();
        let more = match need {
            Some(m) => Some(m - size),
            None => None,
        };
        assert((n - 1 - i) * size == (n - 1 - (i + 1)) * size + size) by (nonlinear_arith);
        assert(0 <= (n - 1 - (i + 1)) * size) by (nonlinear_arith)
            requires
                n - 1 - (i + 1) >= 0,
                size >= 0,
        ;
        lemma_chain_made(layout, disk, clusters, i + 1, (left - 1) as nat, more);
        assert(seq![c] + clusters.subrange(i + 1, n) =~= clusters.subrange(i, n));
    } else {
        assert(layout.link(disk, c) == volume::Link::End);
        assert(clusters.subrange(i, n) =~= seq![c]);
    }
}

// Free clusters.
/// The order in which free clusters are looked for goes through all of them.
pub proof fn lemma_nth_cluster(layout: Layout, start: u32, i: int)
    requires
        layout.wf(),
        2 <= start <= layout.cluster_count + 1,
        0 <= i < layout.cluster_count,
    ensures
        layout.nth_cluster(start, i) == if start + i <= layout.cluster_count + 1 {
            start + i
        } else {
            start + i - layout.cluster_count
        },
        layout.has_cluster(layout.nth_cluster(start, i)),
{
    let total = layout.cluster_count as int;
    let a = start - 2 + i;
    if a < total {
        vstd::arithmetic::div_mod::lemma_fundamental_div_mod_converse(a, total, 0, a);
    } else {
        vstd::arithmetic::div_mod::lemma_fundamental_div_mod_converse(a, total, 1, a - total);
    }
}

/// Free clusters are on the volume, free, and each found once.
pub proof fn lemma_free_members(layout: Layout, disk: Disk, start: u32, n: int)
    requires
        layout.wf(),
        2 <= start <= layout.cluster_count + 1,
        0 <= n <= layout.cluster_count,
    ensures
        forall|k: int|
            0 <= k < layout.free_among(disk, start, n).len() ==> {
                let c = #[trigger] layout.free_among(disk, start, n)[k];
                &&& layout.has_cluster(c)
                &&& layout.fat_entry(disk, c) == 0
                &&& exists|i: int| 0 <= i < n && #[trigger] layout.nth_cluster(start, i) == c
            },
        layout.free_among(disk, start, n).no_duplicates(),
        layout.free_among(disk, start, n).len() <= n,
    decreases n,
{
    if n > 0 {
        lemma_free_members(layout, disk, start, n - 1);
        let before = layout.free_among(disk, start, n - 1);
        let all = layout.free_among(disk, start, n);
        let c = layout.nth_cluster(start, n - 1);
        lemma_nth_cluster(layout, start, n - 1);
        assert forall|k: int| 0 <= k < all.len() implies {
            let d = #[trigger] all[k];
            &&& layout.has_cluster(d)
            &&& layout.fat_entry(disk, d) == 0
            &&& exists|i: int| 0 <= i < n && #[trigger] layout.nth_cluster(start, i) == d
        } by {
            if k < before.len() {
                assert(all[k] == before[k]);
                let i = choose|i: int|
                    0 <= i < n - 1 && #[trigger] layout.nth_cluster(start, i) == before[k];
                assert(0 <= i < n && layout.nth_cluster(start, i) == all[k]);
            } else {
                assert(0 <= n - 1 < n && layout.nth_cluster(start, n - 1) == all[k]);
            }
        }
        assert forall|i: int, j: int| 0 <= i < j < all.len() implies all[i] != all[j] by {
            if j < before.len() {
                assert(before[i] != before[j]);
            } else {
                assert(all[i] == before[i]);
                let m = choose|m: int|
                    0 <= m < n - 1 && #[trigger] layout.nth_cluster(start, m) == before[i];
                lemma_nth_cluster(layout, start, m);
            }
        }
    }
}

/// Clusters that are allocated are on the volume, free, and different.
pub proof fn lemma_allocated(v: Volume, count: int)
    requires
        v.layout.wf(),
        0 <= count,
    ensures
        v.allocated(count) matches Some(clusters) ==> {
            &&& clusters.len() == count <= v.layout.cluster_count
            &&& clusters.no_duplicates()
            &&& crate::fat::write::all_there(v.layout, clusters)
            &&& forall|k: int|
                0 <= k < clusters.len() ==> v.layout.fat_entry(v.disk, #[trigger] clusters[k]) == 0
        },
{
    if let Some(clusters) = v.allocated(count) {
        let total = v.layout.cluster_count as int;
        lemma_free_members(v.layout, v.disk, v.first_look(), total);
        let free = v.layout.free_among(v.disk, v.first_look(), total);
        assert forall|k: int| 0 <= k < clusters.len() implies v.layout.has_cluster(
            #[trigger] clusters[k],
        ) && v.layout.fat_entry(v.disk, clusters[k]) == 0 by {
            assert(clusters[k] == free[k]);
        }
        assert forall|i: int, j: int| 0 <= i < j < clusters.len() implies clusters[i]
            != clusters[j] by {
            assert(free[i] != free[j]);
        }
    }
}

// Directories.
/// Whether two slots are told apart by nothing that names and listings go by: their first 20
/// bytes are the same, and all of them if they hold a piece of a long name.
pub open spec fn same_head(x: Seq<u8>, y: Seq<u8>) -> bool {
    &&& x.subrange(0, 20) == y.subrange(0, 20)
    &&& entries::is_long(x) ==> x == y
}

/// Whether the first `n` slots of two directories list the same names.
pub open spec fn alike(a: Seq<u8>, b: Seq<u8>, n: int) -> bool {
    &&& 0 <= n <= entries::slot_count(a)
    &&& n <= entries::slot_count(b)
    &&& forall|i: int|
        0 <= i < n ==> same_head(#[trigger] entries::slot_at(a, i), entries::slot_at(b, i))
}

pub proof fn lemma_heads(x: Seq<u8>, y: Seq<u8>)
    requires
        x.len() == 32,
        y.len() == 32,
        same_head(x, y),
    ensures
        forall|k: int| 0 <= k < 20 ==> #[trigger] x[k] == y[k],
        x.subrange(0, 11) == y.subrange(0, 11),
        entries::is_long(x) == entries::is_long(y),
        entries::is_own(x) == entries::is_own(y),
        names::short_name_in(x) == names::short_name_in(y),
{
    assert forall|k: int| 0 <= k < 20 implies #[trigger] x[k] == y[k] by {
        assert(x.subrange(0, 20)[k] == y.subrange(0, 20)[k]);
    }
    assert(x.subrange(0, 11) =~= y.subrange(0, 11));
    assert(x.subrange(0, 8) =~= y.subrange(0, 8));
    assert(x.subrange(8, 11) =~= y.subrange(8, 11));
}

pub proof fn lemma_pieces_alike(a: Seq<u8>, b: Seq<u8>, n: int, i: int, k: int)
    requires
        alike(a, b, n),
        0 <= i < n,
        1 <= k,
    ensures
        entries::pieces_from(a, i, k) == entries::pieces_from(b, i, k),
    decreases 32 - k,
{
    if k <= i && k <= 31 {
        let x = entries::slot_at(a, i - k);
        let y = entries::slot_at(b, i - k);
        assert(same_head(x, y));
        assert(same_head(entries::slot_at(a, i), entries::slot_at(b, i)));
        lemma_heads(x, y);
        lemma_heads(entries::slot_at(a, i), entries::slot_at(b, i));
        assert(a[32 * (i - k)] == x[0] && b[32 * (i - k)] == y[0]);
        lemma_pieces_alike(a, b, n, i, k + 1);
    }
}

/// The pieces of a long name that is complete are there.
pub proof fn lemma_pieces_there(dir: Seq<u8>, i: int, k: int, j: int)
    requires
        1 <= k <= j <= entries::pieces_from(dir, i, k),
    ensures
        entries::is_piece(dir, i, j),
    decreases 32 - k,
{
    if k < j {
        lemma_pieces_there(dir, i, k + 1, j);
    }
}

proof fn lemma_units_alike(a: Seq<u8>, b: Seq<u8>, n: int, i: int, k: int)
    requires
        alike(a, b, n),
        0 <= k <= i < n,
        forall|j: int| 1 <= j <= k ==> #[trigger] entries::is_piece(a, i, j),
    ensures
        entries::long_units(a, i, k) == entries::long_units(b, i, k),
    decreases k,
{
    if k > 0 {
        lemma_units_alike(a, b, n, i, k - 1);
        assert(entries::is_piece(a, i, k));
        assert(same_head(entries::slot_at(a, i - k), entries::slot_at(b, i - k)));
    }
}

/// Directories that are alike list the same names.
pub proof fn lemma_names_alike(a: Seq<u8>, b: Seq<u8>, n: int, i: int)
    requires
        alike(a, b, n),
        0 <= i < n,
    ensures
        entries::name_at(a, i) == entries::name_at(b, i),
        entries::is_listed(a, i) == entries::is_listed(b, i),
        entries::pieces_from(a, i, 1) == entries::pieces_from(b, i, 1),
        a[32 * i] == b[32 * i],
{
    let x = entries::slot_at(a, i);
    let y = entries::slot_at(b, i);
    assert(same_head(x, y));
    lemma_heads(x, y);
    assert(a[32 * i] == x[0] && b[32 * i] == y[0]);
    lemma_pieces_alike(a, b, n, i, 1);
    let k = entries::pieces_from(a, i, 1);
    entries::lemma_pieces(a, i, 1);
    if k > 0 {
        assert forall|j: int| 1 <= j <= k implies #[trigger] entries::is_piece(a, i, j) by {
            lemma_pieces_there(a, i, 1, j);
        }
        lemma_units_alike(a, b, n, i, k);
    }
}

/// The first slot that lists a name is where it is found.
pub proof fn lemma_slot_found(dir: Seq<u8>, name: Seq<char>, from: int, slot: int, to: int)
    requires
        from <= slot < to,
        entries::is_listed(dir, slot),
        names::same_name(entries::name_at(dir, slot), name),
        forall|i: int|
            from <= i < slot ==> !(entries::is_listed(dir, i) && names::same_name(
                #[trigger] entries::name_at(dir, i),
                name,
            )),
    ensures
        entries::slot_of(dir, name, from, to) == Some(slot),
    decreases slot - from,
{
    if from < slot {
        assert(!(entries::is_listed(dir, from) && names::same_name(
            entries::name_at(dir, from),
            name,
        )));
        lemma_slot_found(dir, name, from + 1, slot, to);
    }
}

/// Where a name is found, and that it isn't listed before.
pub proof fn lemma_slot_first(dir: Seq<u8>, name: Seq<char>, from: int, to: int)
    ensures
        match entries::slot_of(dir, name, from, to) {
            Some(slot) => from <= slot < to && entries::is_listed(dir, slot) && names::same_name(
                entries::name_at(dir, slot),
                name,
            ) && forall|i: int|
                from <= i < slot ==> !(entries::is_listed(dir, i) && names::same_name(
                    #[trigger] entries::name_at(dir, i),
                    name,
                )),
            None => forall|i: int|
                from <= i < to ==> !(entries::is_listed(dir, i) && names::same_name(
                    #[trigger] entries::name_at(dir, i),
                    name,
                )),
        },
    decreases to - from,
{
    if from < to && !(entries::is_listed(dir, from) && names::same_name(
        entries::name_at(dir, from),
        name,
    )) {
        lemma_slot_first(dir, name, from + 1, to);
    }
}

/// A directory's entries end where no slot before is free for good.
pub proof fn lemma_end_after(dir: Seq<u8>, from: int, to: int)
    requires
        0 <= from <= to <= entries::slot_count(dir),
        forall|i: int| from <= i < to ==> dir[#[trigger] (32 * i)] != entries::ENTRY_END,
    ensures
        entries::end_slot(dir, from) == entries::end_slot(dir, to),
        entries::end_slot(dir, from) >= to,
    decreases to - from,
{
    if from < to {
        assert(dir[32 * from] != entries::ENTRY_END);
        lemma_end_after(dir, from + 1, to);
    } else {
        entries::lemma_end_slot(dir, to);
    }
}

/// What the end of an entry says.
pub proof fn lemma_pointer(slot: Seq<u8>, cluster: u32, size: u32, stamp: Stamp)
    requires
        slot.len() == 32,
        slot.subrange(20, 32) == stored::pointer(cluster, size, stamp),
    ensures
        entries::cluster_in(slot, FatType::Fat32).0 == cluster,
        cluster < 0x1_0000 ==> entries::cluster_in(slot, FatType::Fat16).0 == cluster,
        bytes::le32(slot, 28) == size,
        bytes::le16(slot, 22) == stamp.time,
        bytes::le16(slot, 24) == stamp.date,
{
    let p = stored::pointer(cluster, size, stamp);
    let high = (cluster / 0x1_0000) as u16;
    let low = (cluster % 0x1_0000) as u16;
    assert(p.subrange(0, 2) =~= bytes::le16_bytes(high));
    assert(p.subrange(2, 4) =~= bytes::le16_bytes(stamp.time));
    assert(p.subrange(4, 6) =~= bytes::le16_bytes(stamp.date));
    assert(p.subrange(6, 8) =~= bytes::le16_bytes(low));
    assert(p.subrange(8, 12) =~= bytes::le32_bytes(size));
    bytes::lemma_words_in_subrange(slot, 20, 32, 0);
    bytes::lemma_words_in_subrange(slot, 20, 32, 2);
    bytes::lemma_words_in_subrange(slot, 20, 32, 4);
    bytes::lemma_words_in_subrange(slot, 20, 32, 6);
    bytes::lemma_words_in_subrange(slot, 20, 32, 8);
    bytes::lemma_words_in_subrange(p, 0, 2, 0);
    bytes::lemma_words_in_subrange(p, 2, 4, 0);
    bytes::lemma_words_in_subrange(p, 4, 6, 0);
    bytes::lemma_words_in_subrange(p, 6, 8, 0);
    bytes::lemma_words_in_subrange(p, 8, 12, 0);
    bytes::lemma_words_round_trip(high, size);
    bytes::lemma_words_round_trip(low, size);
    bytes::lemma_words_round_trip(stamp.time, size);
    bytes::lemma_words_round_trip(stamp.date, size);
    assert(bytes::le16(slot, 20) == high);
    assert(bytes::le16(slot, 26) == low);
}

/// An entry that is pointed at other data is still found, and says where that is.
pub proof fn lemma_repointed(
    dir: Seq<u8>,
    fat_type: FatType,
    name: Seq<char>,
    cluster: u32,
    size: u32,
    stamp: Stamp,
)
    requires
        entries::entry_for(dir, fat_type, name) is Some,
        (entries::entry_for(dir, fat_type, name)->0).entry.kind == EntryKind::File,
        fat_type == FatType::Fat16 ==> cluster < 0x1_0000,
    ensures
        ({
            let slot = (entries::entry_for(dir, fat_type, name)->0).slot;
            let after = bytes::splice(
                dir,
                32 * slot + 20,
                stored::pointer(cluster, size, stamp),
            );
            &&& 0 <= slot < entries::slot_count(dir)
            &&& entries::entry_for(after, fat_type, name) matches Some(found)
                && found.entry.first_cluster.0 == cluster && found.entry.size == size
                && found.entry.kind == EntryKind::File
        }),
{
    let end = entries::end_slot(dir, 0);
    entries::lemma_end_slot(dir, 0);
    lemma_slot_first(dir, name, 0, end);
    let slot = entries::slot_of(dir, name, 0, end)->0;
    let p = stored::pointer(cluster, size, stamp);
    let after = bytes::splice(dir, 32 * slot + 20, p);
    let count = entries::slot_count(dir);
    assert forall|i: int| 0 <= i < count implies same_head(
        #[trigger] entries::slot_at(dir, i),
        entries::slot_at(after, i),
    ) by {
        let x = entries::slot_at(dir, i);
        let y = entries::slot_at(after, i);
        assert(x.subrange(0, 20) =~= y.subrange(0, 20));
        if i != slot {
            assert(x =~= y);
        }
    }
    assert(alike(dir, after, count));
    assert forall|i: int| 0 <= i < end implies after[#[trigger] (32 * i)] != entries::ENTRY_END by {
        lemma_names_alike(dir, after, count, i);
        assert(dir[32 * i] != entries::ENTRY_END);
    }
    lemma_end_after(after, 0, end);
    lemma_names_alike(dir, after, count, slot);
    assert forall|i: int| 0 <= i < slot implies !(entries::is_listed(after, i) && names::same_name(
        #[trigger] entries::name_at(after, i),
        name,
    )) by {
        lemma_names_alike(dir, after, count, i);
        assert(!(entries::is_listed(dir, i) && names::same_name(entries::name_at(dir, i), name)));
    }
    lemma_slot_found(after, name, 0, slot, entries::end_slot(after, 0));
    let x = entries::slot_at(dir, slot);
    let y = entries::slot_at(after, slot);
    assert(y.subrange(20, 32) =~= p);
    lemma_pointer(y, cluster, size, stamp);
    assert(same_head(x, y));
    lemma_heads(x, y);
    assert(x[11] == y[11]);
}

/// The units that bytes spell are those they were made from.
proof fn lemma_units_read(units: Seq<u16>, from: int, to: int, m: int)
    requires
        from <= to,
        0 <= m < to - from,
    ensures
        stored::units_bytes(units, from, to).len() == 2 * (to - from),
        bytes::le16(stored::units_bytes(units, from, to), 2 * m) == units[from + m],
    decreases to - from,
{
    stored::lemma_units_length(units, from, to);
    stored::lemma_units_length(units, from, to - 1);
    let all = stored::units_bytes(units, from, to);
    let last = bytes::le16_bytes(units[to - 1]);
    if m < to - from - 1 {
        lemma_units_read(units, from, to - 1, m);
        let front = stored::units_bytes(units, from, to - 1);
        assert(all[2 * m] == front[2 * m] && all[2 * m + 1] == front[2 * m + 1]);
    } else {
        assert(all[2 * m] == last[0] && all[2 * m + 1] == last[1]);
        bytes::lemma_words_round_trip(units[to - 1], 0);
    }
}

/// What the entry for a piece of a long name says.
pub proof fn lemma_long_entry(units: Seq<u16>, piece: int, last: bool, checksum: u8)
    requires
        1 <= piece <= 20,
        units.len() >= 13 * piece,
    ensures
        ({
            let entry = stored::long_entry(units, piece, last, checksum);
            &&& entry.len() == 32
            &&& entries::is_long(entry)
            &&& entry[0] % 0x20 == piece
            &&& (entry[0] / 0x40 % 2 == 1 <==> last)
            &&& entry[13] == checksum
            &&& names::piece_units(entry) == units.subrange(13 * (piece - 1), 13 * piece)
        }),
{
    let first = 13 * (piece - 1);
    let entry = stored::long_entry(units, piece, last, checksum);
    stored::lemma_units_length(units, first, first + 5);
    stored::lemma_units_length(units, first + 5, first + 11);
    stored::lemma_units_length(units, first + 11, first + 13);
    let a = stored::units_bytes(units, first, first + 5);
    let b = stored::units_bytes(units, first + 5, first + 11);
    let c = stored::units_bytes(units, first + 11, first + 13);
    let number = if last {
        (piece + names::LFN_LAST) as u8
    } else {
        piece as u8
    };
    assert(entry[0] == number);
    assert(entry[11] == names::ATTR_LONG_NAME);
    assert(entry.subrange(1, 11) =~= a);
    assert(entry.subrange(14, 26) =~= b);
    assert(entry.subrange(28, 32) =~= c);
    let read = names::piece_units(entry);
    let expected = units.subrange(first, first + 13);
    assert forall|k: int| 0 <= k < 13 implies read[k] == expected[k] by {
        if k < 5 {
            lemma_units_read(units, first, first + 5, k);
            bytes::lemma_words_in_subrange(entry, 1, 11, 2 * k);
        } else if k < 11 {
            lemma_units_read(units, first + 5, first + 11, k - 5);
            bytes::lemma_words_in_subrange(entry, 14, 26, 2 * (k - 5));
        } else {
            lemma_units_read(units, first + 11, first + 13, k - 11);
            bytes::lemma_words_in_subrange(entry, 28, 32, 2 * (k - 11));
        }
    }
    assert(read =~= expected);
}

/// The entries for a long name, one by one.
proof fn lemma_long_entries(units: Seq<u16>, n: int, pieces: int, checksum: u8, j: int)
    requires
        0 <= j < n <= pieces <= 20,
        units.len() >= 13 * pieces,
    ensures
        stored::long_entries(units, n, pieces, checksum).len() == 32 * n,
        stored::long_entries(units, n, pieces, checksum).subrange(32 * j, 32 * j + 32)
            == stored::long_entry(units, n - j, n - j == pieces, checksum),
    decreases n,
{
    let all = stored::long_entries(units, n, pieces, checksum);
    let head = stored::long_entry(units, n, n == pieces, checksum);
    let rest = stored::long_entries(units, n - 1, pieces, checksum);
    lemma_long_entry(units, n, n == pieces, checksum);
    lemma_long_length(units, n - 1, pieces, checksum);
    if j == 0 {
        assert(all.subrange(0, 32) =~= head);
    } else {
        lemma_long_entries(units, n - 1, pieces, checksum, j - 1);
        assert(all.subrange(32 * j, 32 * j + 32) =~= rest.subrange(
            32 * (j - 1),
            32 * (j - 1) + 32,
        ));
    }
}

proof fn lemma_long_length(units: Seq<u16>, n: int, pieces: int, checksum: u8)
    requires
        0 <= n <= pieces <= 20,
        units.len() >= 13 * pieces,
    ensures
        stored::long_entries(units, n, pieces, checksum).len() == 32 * n,
    decreases n,
{
    if n > 0 {
        lemma_long_entry(units, n, n == pieces, checksum);
        lemma_long_length(units, n - 1, pieces, checksum);
    }
}

/// What an entry of its own says.
pub proof fn lemma_own_entry(
    short: Seq<u8>,
    case: u8,
    attr: u8,
    cluster: u32,
    size: u32,
    stamp: Stamp,
)
    requires
        short.len() == 11,
        0x21 <= short[0] <= 0x7E,
        attr == entries::ATTR_ARCHIVE || attr == entries::ATTR_DIRECTORY,
    ensures
        ({
            let entry = stored::own_entry(short, case, attr, cluster, size, stamp);
            &&& entry.len() == 32
            &&& entries::is_own(entry)
            &&& entry[0] == short[0]
            &&& entry.subrange(0, 11) == short
            &&& entry[11] == attr
            &&& entry[12] == case
            &&& entry.subrange(20, 32) == stored::pointer(cluster, size, stamp)
        }),
{
    let entry = stored::own_entry(short, case, attr, cluster, size, stamp);
    assert(entry.subrange(0, 11) =~= short);
    assert(entry[11] == attr);
    assert(entry.subrange(20, 32) =~= stored::pointer(cluster, size, stamp));
}

/// Whether no piece of a long name stands before free slots, where what is stored next would be
/// taken to be its 8.3 entry.
pub open spec fn no_stray_pieces(dir: Seq<u8>) -> bool {
    forall|i: int|
        0 < i <= entries::slot_count(dir) && #[trigger] stored::is_free(dir, i)
            ==> !entries::is_long(entries::slot_at(dir, i - 1))
}

/// Whether a name can be stored so that it comes back: FAT can store it, and it has no U+FFFF,
/// which pads long names.
pub open spec fn plain_name(name: Seq<char>) -> bool {
    &&& names::storable(name)
    &&& forall|i: int| 0 <= i < name.len() ==> (#[trigger] name[i]) as u32 != 0xFFFF
}

/// The pieces of a long name that was stored are counted.
pub proof fn lemma_pieces_stored(
    dir: Seq<u8>,
    at: int,
    pieces: int,
    k: int,
    units: Seq<u16>,
    checksum: u8,
)
    requires
        0 <= at,
        1 <= k <= pieces <= 20,
        units.len() >= 13 * pieces,
        at + pieces < entries::slot_count(dir),
        checksum == names::short_checksum(entries::slot_at(dir, at + pieces).subrange(0, 11)),
        forall|j: int|
            0 <= j < pieces ==> #[trigger] entries::slot_at(dir, at + j) == stored::long_entry(
                units,
                pieces - j,
                pieces - j == pieces,
                checksum,
            ),
    ensures
        entries::pieces_from(dir, at + pieces, k) == pieces,
    decreases pieces - k,
{
    let i = at + pieces;
    let slot = entries::slot_at(dir, i - k);
    assert(slot == entries::slot_at(dir, at + (pieces - k)));
    assert(slot == stored::long_entry(units, k, k == pieces, checksum));
    lemma_long_entry(units, k, k == pieces, checksum);
    assert(dir[32 * (i - k)] == slot[0]);
    assert(entries::is_piece(dir, i, k));
    if k < pieces {
        lemma_pieces_stored(dir, at, pieces, k + 1, units, checksum);
    }
}

/// The units of a long name that was stored come back.
proof fn lemma_units_stored(
    dir: Seq<u8>,
    at: int,
    pieces: int,
    k: int,
    units: Seq<u16>,
    checksum: u8,
)
    requires
        0 <= at,
        0 <= k <= pieces <= 20,
        units.len() >= 13 * pieces,
        forall|j: int|
            0 <= j < pieces ==> #[trigger] entries::slot_at(dir, at + j) == stored::long_entry(
                units,
                pieces - j,
                pieces - j == pieces,
                checksum,
            ),
    ensures
        entries::long_units(dir, at + pieces, k) == units.subrange(0, 13 * k),
    decreases k,
{
    if k > 0 {
        lemma_units_stored(dir, at, pieces, k - 1, units, checksum);
        let slot = entries::slot_at(dir, at + pieces - k);
        assert(slot == entries::slot_at(dir, at + (pieces - k)));
        lemma_long_entry(units, k, k == pieces, checksum);
        assert(units.subrange(0, 13 * (k - 1)) + units.subrange(13 * (k - 1), 13 * k)
            =~= units.subrange(0, 13 * k));
    } else {
        assert(units.subrange(0, 0) =~= Seq::<u16>::empty());
    }
}

/// The stored units of a name spell it.
proof fn lemma_stored_units(name: Seq<char>)
    requires
        plain_name(name),
    ensures
        names::decoded(names::name_units(stored::stored_units(name)), 0) == name,
        ({
            let pieces = stored::pieces_needed(names::utf16(name).len() as int);
            1 <= pieces <= 20 && stored::stored_units(name).len() == 13 * pieces
        }),
{
    let units = names::utf16(name);
    let all = stored::stored_units(name);
    assert forall|i: int| 0 <= i < name.len() implies (#[trigger] name[i]) as u32 != 0
        && name[i] as u32 != 0xFFFF by {
        assert(!names::is_forbidden(name[i]));
    }
    names::lemma_units_of_names(name);
    names::lemma_utf16_length(name);
    let rest = all.subrange(units.len() as int, all.len() as int);
    assert(all =~= units + rest);
    names::lemma_whole_name(units, rest);
    names::utf16_comes_back(name);
}

/// The name that pieces stand for, wherever they do.
pub proof fn lemma_stored_name(dir: Seq<u8>, at: int, name: Seq<char>, checksum: u8)
    requires
        plain_name(name),
        0 <= at,
        ({
            let pieces = stored::pieces_needed(names::utf16(name).len() as int);
            &&& at + pieces < entries::slot_count(dir)
            &&& checksum == names::short_checksum(
                entries::slot_at(dir, at + pieces).subrange(0, 11),
            )
            &&& forall|j: int|
                0 <= j < pieces ==> #[trigger] entries::slot_at(dir, at + j) == stored::long_entry(
                    stored::stored_units(name),
                    pieces - j,
                    pieces - j == pieces,
                    checksum,
                )
        }),
    ensures
        entries::name_at(dir, at + stored::pieces_needed(names::utf16(name).len() as int)) == name,
{
    let pieces = stored::pieces_needed(names::utf16(name).len() as int);
    let units = stored::stored_units(name);
    lemma_stored_units(name);
    lemma_pieces_stored(dir, at, pieces, 1, units, checksum);
    lemma_units_stored(dir, at, pieces, pieces, units, checksum);
    assert(units.subrange(0, 13 * pieces) =~= units);
}

/// What is stored for a name: pieces of its long name, and its own entry.
pub struct Made {
    pub short: Seq<u8>,
    pub case: u8,
    pub pieces: int,
}

/// What is stored for a name.
pub open spec fn made(name: Seq<char>, taken: Seq<Seq<u8>>) -> Made {
    match names::exact_short(name) {
        Some((short, case)) => Made { short, case, pieces: 0 },
        None => Made {
            short: names::alias_of(name, taken)->0,
            case: 0,
            pieces: stored::pieces_needed(names::utf16(name).len() as int),
        },
    }
}

/// Whether the slots from `at` on hold the pieces of a long name and an entry of its own.
pub open spec fn placed(
    dir: Seq<u8>,
    at: int,
    pieces: int,
    units: Seq<u16>,
    checksum: u8,
    own: Seq<u8>,
) -> bool {
    &&& entries::slot_at(dir, at + pieces) == own
    &&& forall|j: int|
        0 <= j < pieces ==> #[trigger] entries::slot_at(dir, at + j) == stored::long_entry(
            units,
            pieces - j,
            pieces - j == pieces,
            checksum,
        )
}

/// What `new_entries` is made of.
pub proof fn lemma_made(
    name: Seq<char>,
    taken: Seq<Seq<u8>>,
    attr: u8,
    cluster: u32,
    size: u32,
    stamp: Stamp,
)
    requires
        plain_name(name),
        attr == entries::ATTR_ARCHIVE || attr == entries::ATTR_DIRECTORY,
        stored::new_entries(name, taken, attr, cluster, size, stamp) is Some,
    ensures
        ({
            let m = made(name, taken);
            let new = stored::new_entries(name, taken, attr, cluster, size, stamp)->0;
            let own = stored::own_entry(m.short, m.case, attr, cluster, size, stamp);
            let list = stored::long_entries(
                stored::stored_units(name),
                m.pieces,
                m.pieces,
                names::short_checksum(m.short),
            );
            &&& 0 <= m.pieces <= 20
            &&& stored::stored_units(name).len() >= 13 * m.pieces
            &&& m.short.len() == 11
            &&& 0x21 <= m.short[0] <= 0x7E
            &&& own.len() == 32
            &&& list.len() == 32 * m.pieces
            &&& new == list + own
            &&& m.pieces == 0 ==> names::short_name_in(own) == name
        }),
{
    let m = made(name, taken);
    let own = stored::own_entry(m.short, m.case, attr, cluster, size, stamp);
    let units = stored::stored_units(name);
    let checksum = names::short_checksum(m.short);
    lemma_stored_units(name);
    names::lemma_alias(name, taken);
    let list = stored::long_entries(units, m.pieces, m.pieces, checksum);
    lemma_long_length(units, m.pieces, m.pieces, checksum);
    if names::exact_short(name) is Some {
        assert(own.subrange(0, 11) =~= m.short);
        assert(own[12] == m.case);
        names::short_names_come_back(name, own);
        assert(m.short[0] == own[0]);
        assert(list + own =~= own);
    }
}

/// Where new entries go, they are.
pub proof fn lemma_placed(
    dir: Seq<u8>,
    at: int,
    pieces: int,
    units: Seq<u16>,
    checksum: u8,
    own: Seq<u8>,
)
    requires
        0 <= pieces <= 20,
        units.len() >= 13 * pieces,
        own.len() == 32,
        0 <= at,
        at + pieces < entries::slot_count(dir),
    ensures
        ({
            let new = stored::long_entries(units, pieces, pieces, checksum) + own;
            let after = bytes::splice(dir, 32 * at, new);
            &&& placed(after, at, pieces, units, checksum, own)
            &&& alike(dir, after, at)
        }),
{
    let list = stored::long_entries(units, pieces, pieces, checksum);
    let new = list + own;
    let after = bytes::splice(dir, 32 * at, new);
    lemma_long_length(units, pieces, pieces, checksum);
    assert(entries::slot_at(after, at + pieces) =~= own);
    assert forall|j: int| 0 <= j < pieces implies #[trigger] entries::slot_at(after, at + j)
        == stored::long_entry(units, pieces - j, pieces - j == pieces, checksum) by {
        lemma_long_entries(units, pieces, pieces, checksum, j);
        let part = list.subrange(32 * j, 32 * j + 32);
        assert(entries::slot_at(after, at + j) =~= part);
    }
    assert forall|i: int| 0 <= i < at implies same_head(
        #[trigger] entries::slot_at(dir, i),
        entries::slot_at(after, i),
    ) by {
        assert(entries::slot_at(dir, i) =~= entries::slot_at(after, i));
    }
}

/// The slots before the own entry of what was stored don't list its name, nor end the directory.
proof fn lemma_before_own(
    dir: Seq<u8>,
    after: Seq<u8>,
    fat_type: FatType,
    name: Seq<char>,
    at: int,
    pieces: int,
    units: Seq<u16>,
    checksum: u8,
    own: Seq<u8>,
    i: int,
)
    requires
        0 <= pieces <= 20,
        units.len() >= 13 * pieces,
        placed(after, at, pieces, units, checksum, own),
        alike(dir, after, at),
        entries::entry_for(dir, fat_type, name) is None,
        0 <= at <= entries::end_slot(dir, 0),
        0 <= i < at + pieces < entries::slot_count(after),
    ensures
        !(entries::is_listed(after, i) && names::same_name(entries::name_at(after, i), name)),
        after[32 * i] != entries::ENTRY_END,
{
    let end = entries::end_slot(dir, 0);
    entries::lemma_end_slot(dir, 0);
    lemma_slot_first(dir, name, 0, end);
    assert(after[32 * i] == entries::slot_at(after, i)[0]);
    if i < at {
        lemma_names_alike(dir, after, at, i);
        assert(!(entries::is_listed(dir, i) && names::same_name(entries::name_at(dir, i), name)));
        assert(dir[32 * i] != entries::ENTRY_END);
    } else {
        let j = i - at;
        assert(entries::slot_at(after, at + j) == stored::long_entry(
            units,
            pieces - j,
            pieces - j == pieces,
            checksum,
        ));
        lemma_long_entry(units, pieces - j, pieces - j == pieces, checksum);
    }
}

/// The entries that are stored for a name are found by it, and say what they were to say.
#[verifier::rlimit(40)]
#[verifier::spinoff_prover]
pub proof fn lemma_entries_found(
    dir: Seq<u8>,
    fat_type: FatType,
    name: Seq<char>,
    taken: Seq<Seq<u8>>,
    attr: u8,
    cluster: u32,
    size: u32,
    stamp: Stamp,
    at: int,
)
    requires
        plain_name(name),
        attr == entries::ATTR_ARCHIVE || attr == entries::ATTR_DIRECTORY,
        fat_type == FatType::Fat16 ==> cluster < 0x1_0000,
        stored::new_entries(name, taken, attr, cluster, size, stamp) is Some,
        entries::entry_for(dir, fat_type, name) is None,
        no_stray_pieces(dir),
        0 <= at <= entries::end_slot(dir, 0),
        ({
            let new = stored::new_entries(name, taken, attr, cluster, size, stamp)->0;
            stored::fits_at(dir, at, new.len() as int / 32)
        }),
    ensures
        ({
            let new = stored::new_entries(name, taken, attr, cluster, size, stamp)->0;
            let after = bytes::splice(dir, 32 * at, new);
            &&& new.len() % 32 == 0
            &&& new.len() >= 32
            &&& entries::entry_for(after, fat_type, name) matches Some(found)
                && found.slot == at + new.len() as int / 32 - 1
                && found.entry.first_cluster.0 == cluster && found.entry.name == name && (if attr
                == entries::ATTR_DIRECTORY {
                found.entry.kind == EntryKind::Directory
            } else {
                found.entry.kind == EntryKind::File && found.entry.size == size
            })
        }),
{
    let new = stored::new_entries(name, taken, attr, cluster, size, stamp)->0;
    let after = bytes::splice(dir, 32 * at, new);
    let m = made(name, taken);
    let pieces = m.pieces;
    let own = stored::own_entry(m.short, m.case, attr, cluster, size, stamp);
    let units = stored::stored_units(name);
    let checksum = names::short_checksum(m.short);
    lemma_made(name, taken, attr, cluster, size, stamp);
    lemma_own_entry(m.short, m.case, attr, cluster, size, stamp);
    let slot = at + pieces;
    assert(new.len() == 32 * (pieces + 1));
    lemma_placed(dir, at, pieces, units, checksum, own);
    assert forall|i: int| 0 <= i < slot implies !(entries::is_listed(after, i) && names::same_name(
        #[trigger] entries::name_at(after, i),
        name,
    )) by {
        lemma_before_own(dir, after, fat_type, name, at, pieces, units, checksum, own, i);
    }
    assert forall|i: int| 0 <= i < slot + 1 implies after[#[trigger] (32 * i)]
        != entries::ENTRY_END by {
        if i < slot {
            lemma_before_own(dir, after, fat_type, name, at, pieces, units, checksum, own, i);
        } else {
            assert(after[32 * slot] == entries::slot_at(after, slot)[0]);
        }
    }
    lemma_end_after(after, 0, slot + 1);
    lemma_name_stored(dir, after, name, taken, at, own);
    assert(entries::is_listed(after, slot)) by {
        assert(name.last() != '.');
        assert(seq!['.'].last() == '.');
        assert(seq!['.', '.'].last() == '.');
    }
    lemma_slot_found(after, name, 0, slot, entries::end_slot(after, 0));
    lemma_pointer(own, cluster, size, stamp);
    assert(own[11] / 0x10 % 2 == 1 <==> attr == entries::ATTR_DIRECTORY);
}

/// The name of what was stored comes back.
pub proof fn lemma_name_stored(
    dir: Seq<u8>,
    after: Seq<u8>,
    name: Seq<char>,
    taken: Seq<Seq<u8>>,
    at: int,
    own: Seq<u8>,
)
    requires
        plain_name(name),
        own.len() == 32,
        own.subrange(0, 11) == made(name, taken).short,
        made(name, taken).pieces == 0 ==> names::short_name_in(own) == name,
        no_stray_pieces(dir),
        0 <= at < entries::slot_count(dir),
        stored::is_free(dir, at),
        alike(dir, after, at),
        at + made(name, taken).pieces < entries::slot_count(after),
        placed(
            after,
            at,
            made(name, taken).pieces,
            stored::stored_units(name),
            names::short_checksum(made(name, taken).short),
            own,
        ),
    ensures
        entries::name_at(after, at + made(name, taken).pieces) == name,
{
    let pieces = made(name, taken).pieces;
    let units = stored::stored_units(name);
    let checksum = names::short_checksum(made(name, taken).short);
    lemma_stored_units(name);
    if pieces == 0 {
        if at > 0 {
            assert(!entries::is_long(entries::slot_at(dir, at - 1)));
            assert(same_head(entries::slot_at(dir, at - 1), entries::slot_at(after, at - 1)));
            lemma_heads(entries::slot_at(dir, at - 1), entries::slot_at(after, at - 1));
            assert(!entries::is_piece(after, at, 1));
        }
        assert(entries::pieces_from(after, at, 1) == 0);
    } else {
        lemma_pieces_stored(after, at, pieces, 1, units, checksum);
        lemma_units_stored(after, at, pieces, pieces, units, checksum);
        assert(units.subrange(0, 13 * pieces) =~= units);
    }
}

/// A slot list without an end mark ends where it ends.
proof fn lemma_no_end(dir: Seq<u8>, from: int)
    requires
        0 <= from <= entries::slot_count(dir),
        forall|i: int|
            from <= i < entries::slot_count(dir) ==> dir[#[trigger] (32 * i)]
                != entries::ENTRY_END,
    ensures
        entries::end_slot(dir, from) == entries::slot_count(dir),
    decreases entries::slot_count(dir) - from,
{
    if from < entries::slot_count(dir) {
        assert(dir[32 * from] != entries::ENTRY_END);
        lemma_no_end(dir, from + 1);
    }
}

/// Slots that list nothing add nothing.
proof fn lemma_none_listed(dir: Seq<u8>, fat_type: FatType, n: int)
    requires
        forall|i: int| 0 <= i < n ==> !#[trigger] entries::is_listed(dir, i),
    ensures
        entries::listed(dir, fat_type, n) == Seq::<LocatedModel>::empty(),
    decreases n,
{
    if n > 0 {
        assert(!entries::is_listed(dir, n - 1));
        lemma_none_listed(dir, fat_type, n - 1);
    }
}

/// The pieces of a long name, followed by an entry with the 8.3 name they belong to, are listed
/// as one entry with exactly that name. There is a piece for every 13 units or part of them;
/// they are numbered downwards to 1, the first one alone is marked as the last of the name, and
/// each has the attributes of a piece and the checksum of the 8.3 name.
#[verifier::rlimit(40)]
#[verifier::spinoff_prover]
pub proof fn long_names_come_back(name: Seq<char>, own: Seq<u8>, fat_type: FatType)
    requires
        plain_name(name),
        own.len() == 32,
        entries::is_own(own),
    ensures
        ({
            let units = names::utf16(name).len() as int;
            let pieces = stored::pieces_needed(units);
            let checksum = names::short_checksum(own.subrange(0, 11));
            let list = stored::long_entries(
                stored::stored_units(name),
                pieces,
                pieces,
                checksum,
            );
            let shown = entries::listing(list + own, fat_type);
            &&& 13 * (pieces - 1) < units <= 13 * pieces
            &&& list.len() == 32 * pieces
            &&& forall|j: int|
                0 <= j < pieces ==> {
                    let piece = #[trigger] entries::slot_at(list, j);
                    &&& piece[0] == (if j == 0 {
                        0x40 + pieces
                    } else {
                        pieces - j
                    })
                    &&& piece[11] == 0x0F
                    &&& piece[13] == checksum
                }
            &&& shown.len() == 1
            &&& shown[0] == entries::located_at(list + own, pieces, fat_type)
            &&& shown[0].entry.name == name
        }),
{
    let pieces = stored::pieces_needed(names::utf16(name).len() as int);
    let units = stored::stored_units(name);
    let checksum = names::short_checksum(own.subrange(0, 11));
    let list = stored::long_entries(units, pieces, pieces, checksum);
    let dir = list + own;
    lemma_stored_units(name);
    lemma_long_length(units, pieces, pieces, checksum);
    assert forall|j: int| 0 <= j < pieces implies #[trigger] entries::slot_at(list, j)
        == stored::long_entry(units, pieces - j, j == 0, checksum) && entries::slot_at(dir, j)
        == entries::slot_at(list, j) by {
        lemma_long_entries(units, pieces, pieces, checksum, j);
        assert(entries::slot_at(dir, j) =~= entries::slot_at(list, j));
    }
    assert forall|j: int| 0 <= j < pieces implies ({
        let piece = #[trigger] entries::slot_at(list, j);
        &&& piece[0] == (if j == 0 {
            0x40 + pieces
        } else {
            pieces - j
        })
        &&& piece[11] == 0x0F
        &&& piece[13] == checksum
    }) by {
        let first = 13 * (pieces - j - 1);
        stored::lemma_units_length(units, first, first + 5);
        stored::lemma_units_length(units, first + 5, first + 11);
        stored::lemma_units_length(units, first + 11, first + 13);
    }
    assert(entries::slot_at(dir, 0 + pieces) =~= own);
    assert forall|j: int| 0 <= j < pieces implies #[trigger] entries::slot_at(dir, 0 + j)
        == stored::long_entry(units, pieces - j, pieces - j == pieces, checksum) by {
        assert(entries::slot_at(list, j).len() == 32);
    }
    lemma_pieces_stored(dir, 0, pieces, 1, units, checksum);
    lemma_units_stored(dir, 0, pieces, pieces, units, checksum);
    assert(units.subrange(0, 13 * pieces) =~= units);
    assert(entries::name_at(dir, pieces) == name);
    assert forall|i: int| 0 <= i < pieces implies !#[trigger] entries::is_listed(dir, i) by {
        assert(entries::slot_at(dir, i) == entries::slot_at(list, i));
        lemma_long_entry(units, pieces - i, i == 0, checksum);
    }
    assert(entries::slot_count(dir) == pieces + 1);
    assert forall|i: int| 0 <= i < entries::slot_count(dir) implies dir[#[trigger] (32 * i)]
        != entries::ENTRY_END by {
        assert(dir[32 * i] == entries::slot_at(dir, i)[0]);
        if i < pieces {
            assert(entries::slot_at(dir, i) == entries::slot_at(list, i));
        }
    }
    lemma_no_end(dir, 0);
    lemma_none_listed(dir, fat_type, pieces);
    assert(name.last() != '.');
    assert(seq!['.'].last() == '.');
    assert(seq!['.', '.'].last() == '.');
    assert(entries::is_listed(dir, pieces));
}

// A volume's directories and files, across changes.
/// Whether a sector is in a free cluster.
pub open spec fn in_free(layout: Layout, disk: Disk, t: int) -> bool {
    exists|c: u32| #[trigger]
        in_cluster(layout, c, t) && layout.has_cluster(c) && layout.fat_entry(disk, c) == 0
}

/// Whether between two disks nothing changed but free clusters, and those with sectors among
/// `touched`.
pub open spec fn spared(layout: Layout, a: Disk, b: Disk, touched: Seq<int>) -> bool {
    &&& forall|c: u32|
        layout.has_cluster(c) && layout.fat_entry(a, c) != 0 && !touched.contains(
            layout.first_sector(c),
        ) ==> #[trigger] layout.fat_entry(b, c) == layout.fat_entry(a, c)
    &&& forall|t: int|
        fat_end(layout) <= t <= 0xFFFF_FFFF && !touched.contains(t) && !in_free(layout, a, t)
            ==> #[trigger] layout.sector(b, t) == layout.sector(a, t)
}

/// Whether two lists of sectors have none in common.
pub open spec fn apart(a: Seq<int>, b: Seq<int>) -> bool {
    forall|i: int| 0 <= i < a.len() ==> !b.contains(#[trigger] a[i])
}

/// Whether no directory that `parts` are looked up in, from `dir` on, has a sector among
/// `touched`.
pub open spec fn way_clear(
    layout: Layout,
    disk: Disk,
    dir: Dir,
    parts: Seq<Seq<char>>,
    touched: Seq<int>,
) -> bool
    decreases parts.len(),
{
    if parts.len() == 0 {
        true
    } else {
        let rest = parts.subrange(1, parts.len() as int);
        if parts[0].len() == 0 {
            way_clear(layout, disk, dir, rest, touched)
        } else {
            &&& layout.dir_sectors(disk, dir) matches Ok(places) ==> apart(places, touched)
            &&& layout.lookup(disk, dir, parts[0]) matches Ok(located) ==> way_clear(
                layout,
                disk,
                volume::dir_at(located.entry.first_cluster),
                rest,
                touched,
            )
        }
    }
}

/// The sectors of a directory are after the FATs and each there once; they are in no free
/// cluster.
pub proof fn lemma_dir_sectors(layout: Layout, disk: Disk, dir: Dir)
    requires
        sound(layout, disk),
    ensures
        layout.dir_sectors(disk, dir) matches Ok(places) ==> places.no_duplicates() && past_fats(
            layout,
            places,
        ) && forall|i: int|
            0 <= i < places.len() ==> !in_free(layout, disk, #[trigger] places[i]),
{
    if let Ok(places) = layout.dir_sectors(disk, dir) {
        match layout.dir_start(dir) {
            Some(first) => {
                let left = layout.cluster_count as nat;
                let clusters = layout.chain(disk, first.0)->Ok_0;
                lemma_chain_distinct(layout, disk, first.0, left);
                lemma_chain_used(layout, disk, first.0, left);
                read::lemma_chain_valid(layout, disk, first.0, left, None);
                lemma_sectors_distinct(layout, clusters);
                assert forall|i: int| 0 <= i < places.len() implies !in_free(
                    layout,
                    disk,
                    #[trigger] places[i],
                ) by {
                    let t = places[i];
                    lemma_sector_of(layout, clusters, t);
                    assert(places.contains(t));
                    let k = choose|k: int|
                        0 <= k < clusters.len() && in_cluster(layout, #[trigger] clusters[k], t);
                    if in_free(layout, disk, t) {
                        let c = choose|c: u32| #[trigger]
                            in_cluster(layout, c, t) && layout.has_cluster(c) && layout.fat_entry(
                                disk,
                                c,
                            ) == 0;
                        lemma_clusters_apart(layout, c, clusters[k], t);
                    }
                }
            },
            None => {
                lemma_fat_end(layout);
                let start = layout.root->start;
                let sectors = layout.root->sectors;
                assert forall|i: int| 0 <= i < places.len() implies !in_free(
                    layout,
                    disk,
                    #[trigger] places[i],
                ) by {
                    let t = places[i];
                    assert(t == start + i);
                    if in_free(layout, disk, t) {
                        let c = choose|c: u32| #[trigger]
                            in_cluster(layout, c, t) && layout.has_cluster(c) && layout.fat_entry(
                                disk,
                                c,
                            ) == 0;
                        layout.lemma_cluster_place(c);
                    }
                }
            },
        }
    }
}

/// A directory whose FAT entries are as they were has its sectors as they were.
pub proof fn lemma_dir_kept(layout: Layout, a: Disk, b: Disk, dir: Dir)
    requires
        layout.wf(),
        layout.dir_sectors(a, dir) matches Ok(places) ==> forall|c: u32|
            layout.has_cluster(c) && layout.fat_entry(a, c) != 0 && places.contains(
                layout.first_sector(c),
            ) ==> #[trigger] layout.fat_entry(b, c) == layout.fat_entry(a, c),
    ensures
        layout.dir_sectors(a, dir) is Ok ==> layout.dir_sectors(b, dir) == layout.dir_sectors(
            a,
            dir,
        ),
{
    if let Ok(places) = layout.dir_sectors(a, dir) {
        if let Some(first) = layout.dir_start(dir) {
            let left = layout.cluster_count as nat;
            let clusters = layout.chain(a, first.0)->Ok_0;
            lemma_chain_used(layout, a, first.0, left);
            read::lemma_chain_valid(layout, a, first.0, left, None);
            assert forall|k: int| 0 <= k < clusters.len() implies layout.fat_entry(
                b,
                #[trigger] clusters[k],
            ) == layout.fat_entry(a, clusters[k]) by {
                let c = clusters[k];
                assert(in_cluster(layout, clusters[k], layout.first_sector(c)));
                lemma_sector_of(layout, clusters, layout.first_sector(c));
                assert(layout.has_cluster(c));
            }
            lemma_chain_same(layout, a, b, first.0, left, None);
        }
    }
}

/// A directory that was spared is as it was.
pub proof fn lemma_dir_spared(layout: Layout, a: Disk, b: Disk, dir: Dir, touched: Seq<int>)
    requires
        sound(layout, a),
        spared(layout, a, b, touched),
        layout.dir_sectors(a, dir) matches Ok(places) ==> apart(places, touched),
    ensures
        layout.dir_bytes(a, dir) is Ok ==> layout.dir_bytes(b, dir) == layout.dir_bytes(a, dir),
{
    if let Ok(places) = layout.dir_sectors(a, dir) {
        lemma_dir_sectors(layout, a, dir);
        assert forall|c: u32|
            layout.has_cluster(c) && layout.fat_entry(a, c) != 0 && places.contains(
                layout.first_sector(c),
            ) implies #[trigger] layout.fat_entry(b, c) == layout.fat_entry(a, c) by {
            let i = choose|i: int| 0 <= i < places.len() && places[i] == layout.first_sector(c);
            assert(!touched.contains(places[i]));
        }
        lemma_dir_kept(layout, a, b, dir);
        assert forall|i: int| 0 <= i < places.len() implies layout.sector(a, #[trigger] places[i])
            == layout.sector(b, places[i]) by {
            assert(!touched.contains(places[i]));
            assert(!in_free(layout, a, places[i]));
        }
        lemma_bytes_same(layout, a, b, places);
    }
}

/// What a path leads to stays, if what is on the way is spared.
pub proof fn lemma_way_spared(
    layout: Layout,
    a: Disk,
    b: Disk,
    dir: Dir,
    parts: Seq<Seq<char>>,
    touched: Seq<int>,
)
    requires
        sound(layout, a),
        spared(layout, a, b, touched),
        way_clear(layout, a, dir, parts, touched),
    ensures
        layout.dir_from(a, dir, parts) is Ok ==> layout.dir_from(b, dir, parts) == layout.dir_from(
            a,
            dir,
            parts,
        ),
    decreases parts.len(),
{
    if layout.dir_from(a, dir, parts) is Ok && parts.len() > 0 {
        let rest = parts.subrange(1, parts.len() as int);
        if parts[0].len() == 0 {
            lemma_way_spared(layout, a, b, dir, rest, touched);
        } else {
            lemma_dir_spared(layout, a, b, dir, touched);
            let located = layout.lookup(a, dir, parts[0])->Ok_0;
            lemma_way_spared(
                layout,
                a,
                b,
                volume::dir_at(located.entry.first_cluster),
                rest,
                touched,
            );
        }
    }
}

/// Whether `clusters` are a chain on a disk that holds `data`.
pub open spec fn holds(layout: Layout, disk: Disk, clusters: Seq<u32>, data: Seq<u8>) -> bool {
    &&& 0 < clusters.len() <= layout.cluster_count
    &&& clusters.no_duplicates()
    &&& crate::fat::write::all_there(layout, clusters)
    &&& forall|k: int|
        0 <= k < clusters.len() ==> #[trigger] layout.fat_entry(disk, clusters[k]) == next_of(
            layout,
            clusters,
            k,
        )
    &&& layout.bytes_at(disk, layout.sectors_of(clusters)) == data
}

/// A chain whose FAT entries and sectors are as they were holds what it held.
proof fn lemma_holds_kept(
    layout: Layout,
    a: Disk,
    b: Disk,
    clusters: Seq<u32>,
    data: Seq<u8>,
)
    requires
        layout.wf(),
        holds(layout, a, clusters, data),
        forall|c: u32|
            layout.has_cluster(c) && clusters.contains(c) ==> #[trigger] layout.fat_entry(b, c)
                == layout.fat_entry(a, c),
        forall|t: int|
            fat_end(layout) <= t <= 0xFFFF_FFFF && layout.sectors_of(clusters).contains(t)
                ==> #[trigger] layout.sector(b, t) == layout.sector(a, t),
    ensures
        holds(layout, b, clusters, data),
{
    assert forall|k: int| 0 <= k < clusters.len() implies #[trigger] layout.fat_entry(b, clusters[k]) == next_of(layout, clusters, k) by {
        assert(layout.has_cluster(clusters[k]));
        assert(clusters.contains(clusters[k]));
    }
    let sectors = layout.sectors_of(clusters);
    lemma_sectors_distinct(layout, clusters);
    assert forall|i: int| 0 <= i < sectors.len() implies layout.sector(a, #[trigger] sectors[i])
        == layout.sector(b, sectors[i]) by {
        assert(sectors.contains(sectors[i]));
    }
    lemma_bytes_same(layout, a, b, sectors);
}

/// What a chain holds is read from it.
proof fn lemma_holds_read(layout: Layout, disk: Disk, clusters: Seq<u32>, data: Seq<u8>)
    requires
        layout.wf(),
        data.len() > 0,
        clusters.len() == (data.len() + layout.cluster_bytes() - 1) / layout.cluster_bytes(),
        holds(
            layout,
            disk,
            clusters,
            change::padded(data, clusters.len() * layout.cluster_bytes()),
        ),
    ensures
        layout.chain_bytes(disk, clusters[0], Some(data.len() as int)) == Ok::<Seq<u8>, Fault>(
            data,
        ),
{
    let n = data.len() as int;
    let size = layout.cluster_bytes();
    let k = clusters.len() as int;
    assert((k - 1) * size < n <= k * size) by (nonlinear_arith)
        requires
            k == (n + size - 1) / size,
            size > 0,
            n > 0,
    ;
    lemma_chain_made(
        layout,
        disk,
        clusters,
        0,
        layout.cluster_count as nat,
        Some(n),
    );
    assert(clusters.subrange(0, k) =~= clusters);
    let all = change::padded(data, k * size);
    assert(all.subrange(0, n) =~= data);
}

/// What putting data in new clusters does.
pub proof fn lemma_with_chain(v: Volume, clusters: Seq<u32>, data: Seq<u8>)
    requires
        sound(v.layout, v.disk),
        0 < clusters.len() <= v.layout.cluster_count,
        clusters.no_duplicates(),
        crate::fat::write::all_there(v.layout, clusters),
        data.len() <= clusters.len() * v.layout.cluster_bytes(),
    ensures
        ({
            let layout = v.layout;
            let after = v.with_chain(clusters, data).disk;
            &&& sound(layout, after)
            &&& holds(
                layout,
                after,
                clusters,
                change::padded(data, clusters.len() * layout.cluster_bytes()),
            )
            &&& forall|t: int|
                fat_end(layout) <= t <= 0xFFFF_FFFF && !layout.sectors_of(clusters).contains(t)
                    ==> #[trigger] layout.sector(after, t) == layout.sector(v.disk, t)
            &&& forall|o: u32|
                layout.has_cluster(o) && !clusters.contains(o) ==> #[trigger] layout.fat_entry(
                    after,
                    o,
                ) == layout.fat_entry(v.disk, o)
        }),
{
    let layout = v.layout;
    let sectors = layout.sectors_of(clusters);
    let size = layout.cluster_bytes();
    let all = change::padded(data, clusters.len() * size);
    let one = layout.with_data(v.disk, sectors, all);
    let two = layout.with_links(one, clusters, clusters.len() as int);
    lemma_sectors_distinct(layout, clusters);
    crate::fat::write::lemma_sectors_length(layout, clusters);
    assert(clusters.len() * size == 512 * sectors.len()) by (nonlinear_arith)
        requires
            size == layout.sectors_per_cluster * 512,
            sectors.len() == clusters.len() * layout.sectors_per_cluster,
    ;
    lemma_with_data(layout, v.disk, sectors, all);
    lemma_with_links(layout, one, clusters, clusters.len() as int);
    lemma_fat_end(layout);
    assert forall|i: int| 0 <= i < sectors.len() implies all.subrange(512 * i, 512 * i + 512)
        == layout.sector(two, #[trigger] sectors[i]) by {
        assert(layout.sector(two, sectors[i]) == layout.sector(one, sectors[i]));
    }
    lemma_bytes_are(layout, two, sectors, all);
    assert forall|k: int| 0 <= k < clusters.len() implies #[trigger] layout.fat_entry(two, clusters[k]) == next_of(layout, clusters, k) by {
        assert(layout.fat_entry(two, clusters[k]) == next_of(layout, clusters, k));
    }
    assert forall|t: int|
        fat_end(layout) <= t <= 0xFFFF_FFFF && !sectors.contains(t) implies #[trigger] layout.sector(
        two,
        t,
    ) == layout.sector(v.disk, t) by {
        assert(layout.sector(two, t) == layout.sector(one, t));
    }
    assert forall|o: u32| layout.has_cluster(o) && !clusters.contains(o) implies #[trigger] layout.fat_entry(
        two,
        o,
    ) == layout.fat_entry(v.disk, o) by {
        assert(layout.fat_entry(two, o) == layout.fat_entry(one, o));
    }
}

/// What bringing FSInfo up to date does: nothing to the FAT and what is after it.
pub proof fn lemma_finished(v: Volume)
    requires
        sound(v.layout, v.disk),
    ensures
        sound(v.layout, v.finished().disk),
        v.finished().layout == v.layout,
        forall|t: int|
            v.layout.fat_start <= t <= 0xFFFF_FFFF ==> #[trigger] v.layout.sector(
                v.finished().disk,
                t,
            ) == v.layout.sector(v.disk, t),
        forall|o: u32|
            v.layout.has_cluster(o) ==> #[trigger] v.layout.fat_entry(v.finished().disk, o)
                == v.layout.fat_entry(v.disk, o),
{
    let layout = v.layout;
    let after = v.finished().disk;
    if let (Some(sector), Some(free)) = (layout.fsinfo, v.free_count) {
        let block = layout.sector(v.disk, sector as int);
        let new = Volume::fsinfo_with(block, free, v.next_free);
        assert(block.len() == 512);
        assert forall|t: int| 0 <= t <= 0xFFFF_FFFF implies (#[trigger] layout.sector(
            after,
            t,
        )).len() == 512 && (t != sector ==> layout.sector(after, t) == layout.sector(v.disk, t)) by {
            assert(layout.sector(v.disk, t).len() == 512);
            if t != sector {
                assert(layout.block(t) != layout.block(sector as int));
            }
        }
    }
    assert forall|o: u32| layout.has_cluster(o) implies #[trigger] layout.fat_entry(after, o)
        == layout.fat_entry(v.disk, o) by {
        lemma_entry_place(layout, v.disk, o);
        assert(layout.sector(after, layout.fat_sector(o)) == layout.sector(
            v.disk,
            layout.fat_sector(o),
        ));
    }
}

/// A directory that grew holds what it held, and nothing more.
pub proof fn lemma_grown_dir(dir: Seq<u8>, fat_type: FatType, name: Seq<char>, zeros: nat, count: int)
    requires
        dir.len() % 512 == 0,
        entries::entry_for(dir, fat_type, name) is None,
        no_stray_pieces(dir),
        zeros % 32 == 0,
        0 < count,
        32 * (entries::end_slot(dir, 0) + count) <= dir.len() + zeros,
    ensures
        ({
            let more = dir + bytes::zeros(zeros);
            &&& entries::entry_for(more, fat_type, name) is None
            &&& no_stray_pieces(more)
            &&& entries::end_slot(more, 0) == entries::end_slot(dir, 0)
            &&& stored::fits_at(more, entries::end_slot(dir, 0), count)
        }),
{
    let more = dir + bytes::zeros(zeros);
    let n = entries::slot_count(dir);
    let end = entries::end_slot(dir, 0);
    entries::lemma_end_slot(dir, 0);
    lemma_grown_slots(dir, zeros);
    lemma_grown_end(dir, zeros);
    lemma_slot_first(dir, name, 0, end);
    lemma_slot_first(more, name, 0, end);
    if let Some(slot) = entries::slot_of(more, name, 0, end) {
        lemma_names_alike(dir, more, n, slot);
        assert(!(entries::is_listed(dir, slot) && names::same_name(
            entries::name_at(dir, slot),
            name,
        )));
    }
    lemma_grown_stray(dir, zeros);
}

/// The slots of a directory that grew are those it had, and then empty ones.
pub proof fn lemma_grown_slots(dir: Seq<u8>, zeros: nat)
    requires
        dir.len() % 512 == 0,
        zeros % 32 == 0,
    ensures
        alike(dir, dir + bytes::zeros(zeros), entries::slot_count(dir)),
        entries::slot_count(dir + bytes::zeros(zeros)) == entries::slot_count(dir) + zeros / 32,
        forall|i: int|
            0 <= i < entries::slot_count(dir) ==> #[trigger] entries::slot_at(
                dir + bytes::zeros(zeros),
                i,
            ) == entries::slot_at(dir, i),
{
    let more = dir + bytes::zeros(zeros);
    let n = entries::slot_count(dir);
    assert forall|i: int| 0 <= i < n implies #[trigger] entries::slot_at(more, i)
        == entries::slot_at(dir, i) by {
        assert(entries::slot_at(dir, i) =~= entries::slot_at(more, i));
    }
    assert forall|i: int| 0 <= i < n implies same_head(
        #[trigger] entries::slot_at(dir, i),
        entries::slot_at(more, i),
    ) by {
        assert(entries::slot_at(more, i) == entries::slot_at(dir, i));
    }
}

/// The entries of a directory that grew end where they did.
#[verifier::spinoff_prover]
pub proof fn lemma_grown_end(dir: Seq<u8>, zeros: nat)
    requires
        dir.len() % 512 == 0,
        zeros % 32 == 0,
        32 * entries::end_slot(dir, 0) < dir.len() + zeros,
    ensures
        entries::end_slot(dir + bytes::zeros(zeros), 0) == entries::end_slot(dir, 0),
{
    let more = dir + bytes::zeros(zeros);
    let end = entries::end_slot(dir, 0);
    entries::lemma_end_slot(dir, 0);
    assert forall|i: int| 0 <= i < end implies more[#[trigger] (32 * i)] != entries::ENTRY_END by {
        assert(dir[32 * i] != entries::ENTRY_END);
    }
    lemma_end_after(more, 0, end);
    assert(more[32 * end] == 0);
    assert(entries::end_slot(more, end) == end);
}

/// No piece of a long name is stray in a directory that grew, if none was.
proof fn lemma_grown_stray(dir: Seq<u8>, zeros: nat)
    requires
        dir.len() % 512 == 0,
        zeros % 32 == 0,
        32 * entries::end_slot(dir, 0) < dir.len() + zeros,
        no_stray_pieces(dir),
    ensures
        no_stray_pieces(dir + bytes::zeros(zeros)),
{
    let more = dir + bytes::zeros(zeros);
    lemma_grown_slots(dir, zeros);
    lemma_grown_end(dir, zeros);
    assert forall|i: int|
        0 < i <= entries::slot_count(more) && #[trigger] stored::is_free(more, i) implies !entries::is_long(
        entries::slot_at(more, i - 1),
    ) by {
        lemma_grown_stray_at(dir, more, zeros, entries::end_slot(dir, 0), i);
    }
}

#[verifier::spinoff_prover]
proof fn lemma_grown_stray_at(dir: Seq<u8>, more: Seq<u8>, zeros: nat, end: int, i: int)
    requires
        dir.len() % 512 == 0,
        more == dir + bytes::zeros(zeros),
        no_stray_pieces(dir),
        end == entries::end_slot(dir, 0),
        end == entries::end_slot(more, 0),
        0 < i <= entries::slot_count(more),
        stored::is_free(more, i),
        i <= entries::slot_count(dir) ==> entries::slot_at(more, i - 1) == entries::slot_at(
            dir,
            i - 1,
        ),
    ensures
        !entries::is_long(entries::slot_at(more, i - 1)),
{
    let n = entries::slot_count(dir);
    entries::lemma_end_slot(dir, 0);
    let slot = entries::slot_at(more, i - 1);
    if i <= n {
        if i < end {
            assert(more[32 * i] == dir[32 * i]);
        }
        assert(stored::is_free(dir, i));
    } else {
        assert(slot[0] == more[32 * (i - 1)]);
        assert(slot[0] == 0);
    }
}

/// Whether between two disks only the sectors `places`, of those after the FATs, and the FAT
/// entries of `clusters` changed.
pub open spec fn only(
    layout: Layout,
    a: Disk,
    b: Disk,
    places: Seq<int>,
    clusters: Seq<u32>,
) -> bool {
    &&& sound(layout, b)
    &&& forall|t: int|
        fat_end(layout) <= t <= 0xFFFF_FFFF && !places.contains(t) ==> #[trigger] layout.sector(
            b,
            t,
        ) == layout.sector(a, t)
    &&& forall|o: u32|
        layout.has_cluster(o) && !clusters.contains(o) ==> #[trigger] layout.fat_entry(b, o)
            == layout.fat_entry(a, o)
}

pub proof fn lemma_concat_contains<A>(a: Seq<A>, b: Seq<A>, x: A)
    ensures
        (a + b).contains(x) <==> a.contains(x) || b.contains(x),
{
    if (a + b).contains(x) {
        let i = choose|i: int| 0 <= i < (a + b).len() && (a + b)[i] == x;
        if i < a.len() {
            assert(a[i] == x);
        } else {
            assert(b[i - a.len()] == x);
        }
    }
    if a.contains(x) {
        let i = choose|i: int| 0 <= i < a.len() && a[i] == x;
        assert((a + b)[i] == x);
    }
    if b.contains(x) {
        let i = choose|i: int| 0 <= i < b.len() && b[i] == x;
        assert((a + b)[a.len() + i] == x);
    }
}

/// Two changes after one another.
pub proof fn lemma_only_both(
    layout: Layout,
    a: Disk,
    b: Disk,
    c: Disk,
    places: Seq<int>,
    clusters: Seq<u32>,
    more_places: Seq<int>,
    more_clusters: Seq<u32>,
)
    requires
        only(layout, a, b, places, clusters),
        only(layout, b, c, more_places, more_clusters),
    ensures
        only(layout, a, c, places + more_places, clusters + more_clusters),
{
    let all = places + more_places;
    assert forall|t: int| fat_end(layout) <= t <= 0xFFFF_FFFF && !all.contains(t) implies #[trigger] layout.sector(
        c,
        t,
    ) == layout.sector(a, t) by {
        lemma_concat_contains(places, more_places, t);
        assert(layout.sector(b, t) == layout.sector(a, t));
    }
    let both = clusters + more_clusters;
    assert forall|o: u32| layout.has_cluster(o) && !both.contains(o) implies #[trigger] layout.fat_entry(
        c,
        o,
    ) == layout.fat_entry(a, o) by {
        lemma_concat_contains(clusters, more_clusters, o);
        assert(layout.fat_entry(b, o) == layout.fat_entry(a, o));
    }
}

/// A change of free clusters, and of those with sectors among `touched`, spares the rest.
pub proof fn lemma_spared(
    layout: Layout,
    a: Disk,
    b: Disk,
    places: Seq<int>,
    clusters: Seq<u32>,
    touched: Seq<int>,
)
    requires
        only(layout, a, b, places, clusters),
        forall|k: int|
            0 <= k < clusters.len() ==> layout.fat_entry(a, #[trigger] clusters[k]) == 0
                || touched.contains(layout.first_sector(clusters[k])),
        forall|k: int|
            0 <= k < places.len() ==> in_free(layout, a, #[trigger] places[k]) || touched.contains(
                places[k],
            ),
    ensures
        spared(layout, a, b, touched),
{
    assert forall|c: u32|
        layout.has_cluster(c) && layout.fat_entry(a, c) != 0 && !touched.contains(
            layout.first_sector(c),
        ) implies #[trigger] layout.fat_entry(b, c) == layout.fat_entry(a, c) by {
        if clusters.contains(c) {
            let k = choose|k: int| 0 <= k < clusters.len() && clusters[k] == c;
            assert(layout.fat_entry(a, clusters[k]) == 0 || touched.contains(
                layout.first_sector(clusters[k]),
            ));
        }
    }
    assert forall|t: int|
        fat_end(layout) <= t <= 0xFFFF_FFFF && !touched.contains(t) && !in_free(
            layout,
            a,
            t,
        ) implies #[trigger] layout.sector(b, t) == layout.sector(a, t) by {
        if places.contains(t) {
            let k = choose|k: int| 0 <= k < places.len() && places[k] == t;
            assert(in_free(layout, a, places[k]) || touched.contains(places[k]));
        }
    }
}

/// The sectors of free clusters are in free clusters.
pub proof fn lemma_free_sectors(layout: Layout, disk: Disk, clusters: Seq<u32>, t: int)
    requires
        layout.wf(),
        crate::fat::write::all_there(layout, clusters),
        forall|k: int|
            0 <= k < clusters.len() ==> layout.fat_entry(disk, #[trigger] clusters[k]) == 0,
        layout.sectors_of(clusters).contains(t),
    ensures
        in_free(layout, disk, t),
{
    lemma_sector_of(layout, clusters, t);
    let k = choose|k: int| 0 <= k < clusters.len() && in_cluster(layout, #[trigger] clusters[k], t);
    assert(layout.has_cluster(clusters[k]));
    assert(layout.fat_entry(disk, clusters[k]) == 0);
}

/// What writing back part of a directory does.
pub proof fn lemma_dir_stored(
    layout: Layout,
    disk: Disk,
    dir: Dir,
    places: Seq<int>,
    data: Seq<u8>,
    from: int,
    to: int,
)
    requires
        sound(layout, disk),
        layout.dir_sectors(disk, dir) == Ok::<Seq<int>, Fault>(places),
        data.len() == 512 * places.len(),
        0 <= from < to,
        32 * to <= data.len(),
        forall|i: int|
            0 <= i < data.len() && !(32 * from <= i < 32 * to) ==> data[i] == layout.bytes_at(
                disk,
                places,
            )[i],
    ensures
        ({
            let after = layout.with_data(
                disk,
                places.subrange(from / 16, (to + 15) / 16),
                data.subrange(512 * (from / 16), 512 * ((to + 15) / 16)),
            );
            &&& only(layout, disk, after, places, Seq::empty())
            &&& layout.dir_bytes(after, dir) == Ok::<Seq<u8>, Fault>(data)
        }),
{
    lemma_dir_sectors(layout, disk, dir);
    let first = from / 16;
    let end = (to + 15) / 16;
    lemma_part_stored(layout, disk, places, data, first, end);
    let after = layout.with_data(
        disk,
        places.subrange(first, end),
        data.subrange(512 * first, 512 * end),
    );
    lemma_fat_end(layout);
    lemma_dir_kept(layout, disk, after, dir);
    assert(only(layout, disk, after, places, Seq::empty()));
}

/// The clusters that data is put in.
pub open spec fn clusters_taken(v: Volume, data: Seq<u8>) -> Seq<u32> {
    if data.len() == 0 {
        Seq::empty()
    } else {
        v.allocated(v.clusters_for(data.len() as int))->0
    }
}

/// What is known once data is put in new clusters, of which there are none for no data.
pub open spec fn put_in(v: Volume, w: Volume, new: Seq<u32>, data: Seq<u8>) -> bool {
    &&& w.layout == v.layout
    &&& w.stamp == v.stamp
    &&& new.no_duplicates()
    &&& crate::fat::write::all_there(v.layout, new)
    &&& forall|k: int|
        0 <= k < new.len() ==> v.layout.fat_entry(v.disk, #[trigger] new[k]) == 0
    &&& only(v.layout, v.disk, w.disk, v.layout.sectors_of(new), new)
    &&& new.len() == 0 <==> data.len() == 0
    &&& new.len() > 0 ==> new.len() == (data.len() + v.layout.cluster_bytes() - 1)
        / v.layout.cluster_bytes() && holds(
        v.layout,
        w.disk,
        new,
        change::padded(data, new.len() * v.layout.cluster_bytes()),
    )
}

pub proof fn lemma_chain_written(v: Volume, data: Seq<u8>)
    requires
        sound(v.layout, v.disk),
        v.chain_written(data).0 is Ok,
    ensures
        put_in(v, v.chain_written(data).1, clusters_taken(v, data), data),
        v.chain_written(data).0->Ok_0 == (if data.len() == 0 {
            0
        } else {
            clusters_taken(v, data)[0]
        }),
        v.layout.fat_type == FatType::Fat16 ==> v.chain_written(data).0->Ok_0 < 0x1_0000,
{
    let new = clusters_taken(v, data);
    let w = v.chain_written(data).1;
    if data.len() == 0 {
        assert(v.layout.sectors_of(new) =~= Seq::<int>::empty());
        assert(only(v.layout, v.disk, w.disk, v.layout.sectors_of(new), new));
    } else {
        let n = data.len() as int;
        let size = v.layout.cluster_bytes();
        let k = v.clusters_for(n);
        assert(k >= 1 && n <= k * size) by (nonlinear_arith)
            requires
                k == (n + size - 1) / size,
                size > 0,
                n > 0,
        ;
        lemma_allocated(v, k);
        lemma_with_chain(v, new, data);
        assert(v.layout.has_cluster(new[0]));
    }
}

/// A directory is as it was once data is put in new clusters, and has no sector of theirs.
pub proof fn lemma_dir_unchanged(v: Volume, w: Volume, new: Seq<u32>, data: Seq<u8>, dir: Dir)
    requires
        sound(v.layout, v.disk),
        put_in(v, w, new, data),
    ensures
        v.layout.dir_sectors(v.disk, dir) matches Ok(places) ==> {
            &&& v.layout.dir_sectors(w.disk, dir) == v.layout.dir_sectors(v.disk, dir)
            &&& v.layout.bytes_at(w.disk, places) == v.layout.bytes_at(v.disk, places)
            &&& apart(places, v.layout.sectors_of(new))
        },
{
    let layout = v.layout;
    if let Ok(places) = layout.dir_sectors(v.disk, dir) {
        lemma_dir_sectors(layout, v.disk, dir);
        assert forall|i: int| 0 <= i < places.len() implies !layout.sectors_of(new).contains(
            #[trigger] places[i],
        ) by {
            if layout.sectors_of(new).contains(places[i]) {
                lemma_free_sectors(layout, v.disk, new, places[i]);
            }
        }
        assert forall|c: u32|
            layout.has_cluster(c) && layout.fat_entry(v.disk, c) != 0 && places.contains(
                layout.first_sector(c),
            ) implies #[trigger] layout.fat_entry(w.disk, c) == layout.fat_entry(v.disk, c) by {
            if new.contains(c) {
                let k = choose|k: int| 0 <= k < new.len() && new[k] == c;
                assert(layout.fat_entry(v.disk, new[k]) == 0);
            }
        }
        lemma_dir_kept(layout, v.disk, w.disk, dir);
        assert forall|i: int| 0 <= i < places.len() implies layout.sector(
            v.disk,
            #[trigger] places[i],
        ) == layout.sector(w.disk, places[i]) by {
            assert(!layout.sectors_of(new).contains(places[i]));
        }
        lemma_bytes_same(layout, v.disk, w.disk, places);
    }
}

/// What is put in a chain is still there after a change elsewhere.
pub proof fn lemma_put_kept(
    layout: Layout,
    a: Disk,
    b: Disk,
    new: Seq<u32>,
    data: Seq<u8>,
    places: Seq<int>,
    clusters: Seq<u32>,
)
    requires
        layout.wf(),
        holds(layout, a, new, data),
        only(layout, a, b, places, clusters),
        apart(places, layout.sectors_of(new)),
        forall|k: int| 0 <= k < clusters.len() ==> !new.contains(#[trigger] clusters[k]),
    ensures
        holds(layout, b, new, data),
{
    assert forall|c: u32| layout.has_cluster(c) && new.contains(c) implies #[trigger] layout.fat_entry(
        b,
        c,
    ) == layout.fat_entry(a, c) by {
        if clusters.contains(c) {
            let k = choose|k: int| 0 <= k < clusters.len() && clusters[k] == c;
            assert(!new.contains(clusters[k]));
        }
    }
    assert forall|t: int|
        fat_end(layout) <= t <= 0xFFFF_FFFF && layout.sectors_of(new).contains(
            t,
        ) implies #[trigger] layout.sector(b, t) == layout.sector(a, t) by {
        if places.contains(t) {
            let i = choose|i: int| 0 <= i < places.len() && places[i] == t;
            assert(!layout.sectors_of(new).contains(places[i]));
        }
    }
    lemma_holds_kept(layout, a, b, new, data);
}

/// The FAT entries of a chain lead from each cluster to the next.
proof fn lemma_chain_links(layout: Layout, disk: Disk, c: u32, left: nat)
    ensures
        layout.chain_from(disk, c, left, None) matches Ok(clusters) ==> forall|k: int|
            0 <= k < clusters.len() - 1 ==> #[trigger] layout.fat_entry(disk, clusters[k])
                == clusters[k + 1],
    decreases left,
{
    if let Ok(clusters) = layout.chain_from(disk, c, left, None) {
        if let volume::Link::To(next) = layout.link(disk, c) {
            lemma_chain_links(layout, disk, next, (left - 1) as nat);
            read::lemma_chain_valid(layout, disk, next, (left - 1) as nat, None);
            let rest = layout.chain_from(disk, next, (left - 1) as nat, None)->Ok_0;
            assert forall|k: int| 0 <= k < clusters.len() - 1 implies #[trigger] layout.fat_entry(disk, clusters[k]) == clusters[k + 1] by {
                if k > 0 {
                    assert(clusters[k] == rest[k - 1]);
                    assert(layout.fat_entry(disk, rest[k - 1]) == rest[k]);
                }
            }
        }
    }
}

/// There are no more different clusters than there are clusters.
proof fn lemma_pigeonhole(s: Seq<u32>, low: int, high: int)
    requires
        s.no_duplicates(),
        low <= high,
        forall|i: int| 0 <= i < s.len() ==> low <= #[trigger] s[i] < high,
    ensures
        s.len() <= high - low,
    decreases high - low,
{
    if s.len() > 0 {
        assert(low <= s[0] < high);
        if exists|i: int| 0 <= i < s.len() && #[trigger] s[i] == high - 1 {
            let i = choose|i: int| 0 <= i < s.len() && #[trigger] s[i] == high - 1;
            let t = s.remove(i);
            assert forall|a: int, b: int|
                0 <= a < t.len() && 0 <= b < t.len() && a != b implies t[a] != t[b] by {
                let x = if a < i {
                    a
                } else {
                    a + 1
                };
                let y = if b < i {
                    b
                } else {
                    b + 1
                };
                assert(t[a] == s[x] && t[b] == s[y]);
            }
            assert forall|a: int| 0 <= a < t.len() implies low <= #[trigger] t[a] < high - 1 by {
                let x = if a < i {
                    a
                } else {
                    a + 1
                };
                assert(t[a] == s[x]);
                assert(s[x] != s[i]);
            }
            lemma_pigeonhole(t, low, high - 1);
        } else {
            lemma_pigeonhole(s, low, high - 1);
        }
    }
}

/// A chain that is linked to another goes on with it.
#[verifier::rlimit(40)]
#[verifier::spinoff_prover]
proof fn lemma_chain_extended(
    layout: Layout,
    a: Disk,
    b: Disk,
    first: u32,
    chain: Seq<u32>,
    new: Seq<u32>,
)
    requires
        layout.wf(),
        layout.chain(a, first) == Ok::<Seq<u32>, Fault>(chain),
        new.len() > 0,
        new.no_duplicates(),
        crate::fat::write::all_there(layout, new),
        forall|k: int| 0 <= k < new.len() ==> layout.fat_entry(a, #[trigger] new[k]) == 0,
        forall|m: int|
            0 <= m < new.len() ==> #[trigger] layout.fat_entry(b, new[m]) == next_of(
                layout,
                new,
                m,
            ),
        layout.fat_entry(b, chain.last()) == new[0],
        forall|o: u32|
            layout.has_cluster(o) && !new.push(chain.last()).contains(o)
                ==> #[trigger] layout.fat_entry(b, o) == layout.fat_entry(a, o),
    ensures
        layout.chain(b, first) == Ok::<Seq<u32>, Fault>(chain + new),
{
    let left = layout.cluster_count as nat;
    let n = chain.len() as int;
    let last = chain.last();
    let changed = new.push(last);
    read::lemma_chain_valid(layout, a, first, left, None);
    lemma_chain_used(layout, a, first, left);
    lemma_chain_distinct(layout, a, first, left);
    lemma_chain_links(layout, a, first, left);
    assert(last == chain[n - 1]);
    let all = chain + new;
    assert forall|i: int, j: int| 0 <= i < j < all.len() implies all[i] != all[j] by {
        if j < n {
            assert(chain[i] != chain[j]);
        } else if i >= n {
            assert(new[i - n] != new[j - n]);
        } else {
            assert(layout.fat_entry(a, chain[i]) != 0);
            assert(layout.fat_entry(a, new[j - n]) == 0);
        }
    }
    assert forall|k: int| 0 <= k < all.len() implies layout.has_cluster(#[trigger] all[k]) by {
        if k < n {
            assert(layout.has_cluster(chain[k]));
        } else {
            assert(layout.has_cluster(new[k - n]));
        }
    }
    lemma_pigeonhole(all, 2, layout.cluster_count + 2);
    assert forall|k: int| 0 <= k < all.len() implies #[trigger] layout.fat_entry(b, all[k])
        == next_of(layout, all, k) by {
        if k < n - 1 {
            assert(all[k] == chain[k]);
            assert(chain[k] != chain[n - 1]);
            assert(layout.fat_entry(a, chain[k]) == chain[k + 1]);
            assert(!changed.contains(chain[k])) by {
                if changed.contains(chain[k]) {
                    let m = choose|m: int| 0 <= m < changed.len() && changed[m] == chain[k];
                    if m < new.len() {
                        assert(layout.fat_entry(a, new[m]) == 0);
                        assert(layout.fat_entry(a, chain[k]) != 0);
                    }
                }
            }
            assert(layout.has_cluster(chain[k]));
        } else if k == n - 1 {
            assert(all[k] == last);
            assert(all[k + 1] == new[0]);
        } else {
            let m = k - n;
            assert(all[k] == new[m]);
            assert(layout.fat_entry(b, new[m]) == next_of(layout, new, m));
            if m + 1 < new.len() {
                assert(all[k + 1] == new[m + 1]);
            }
        }
    }
    lemma_chain_made(layout, b, all, 0, left, None);
    assert(all.subrange(0, all.len() as int) =~= all);
    assert(all[0] == chain[0]);
}

/// What a directory that grew is.
#[verifier::rlimit(40)]
#[verifier::spinoff_prover]
pub proof fn lemma_dir_grown(w: Volume, dir: Dir, places: Seq<int>, needed: int)
    requires
        sound(w.layout, w.disk),
        w.layout.dir_sectors(w.disk, dir) == Ok::<Seq<int>, Fault>(places),
        w.dir_grown(
            dir,
            (ImageModel { places, bytes: w.layout.bytes_at(w.disk, places) }),
            needed,
        ).0 is Ok,
        entries::end_slot(w.layout.bytes_at(w.disk, places), 0) + needed > entries::slot_count(
            w.layout.bytes_at(w.disk, places),
        ),
        0 < needed,
    ensures
        ({
            let layout = w.layout;
            let held = layout.bytes_at(w.disk, places);
            let (result, g) = w.dir_grown(dir, (ImageModel { places, bytes: held }), needed);
            let (at, more) = result->Ok_0;
            let first = layout.dir_start(dir)->0;
            let chain = layout.chain(w.disk, first.0)->Ok_0;
            let count = w.clusters_for(32 * (needed - (entries::slot_count(held) - at)));
            let new = w.allocated(count)->0;
            &&& layout.dir_start(dir) is Some
            &&& layout.chain(w.disk, first.0) is Ok
            &&& places == layout.sectors_of(chain)
            &&& chain.len() > 0
            &&& layout.has_cluster(chain.last())
            &&& layout.fat_entry(w.disk, chain.last()) != 0
            &&& at == entries::end_slot(held, 0)
            &&& g.layout == layout
            &&& g.stamp == w.stamp
            &&& new.len() > 0
            &&& crate::fat::write::all_there(layout, new)
            &&& forall|k: int|
                0 <= k < new.len() ==> layout.fat_entry(w.disk, #[trigger] new[k]) == 0
            &&& only(
                layout,
                w.disk,
                g.disk,
                layout.sectors_of(new),
                new.push(chain.last()),
            )
            &&& more.places == places + layout.sectors_of(new)
            &&& more.bytes == held + bytes::zeros((count * layout.cluster_bytes()) as nat)
            &&& layout.dir_sectors(g.disk, dir) == Ok::<Seq<int>, Fault>(more.places)
            &&& layout.bytes_at(g.disk, more.places) == more.bytes
            &&& count * layout.cluster_bytes() >= 32 * (needed - (entries::slot_count(held) - at))
            &&& held.len() % 512 == 0
        }),
{
    let layout = w.layout;
    let held = layout.bytes_at(w.disk, places);
    let image = ImageModel { places, bytes: held };
    let (result, g) = w.dir_grown(dir, image, needed);
    let (at, more) = result->Ok_0;
    let first = layout.dir_start(dir)->0;
    let left = layout.cluster_count as nat;
    let chain = layout.chain(w.disk, first.0)->Ok_0;
    let last = chain.last();
    let n = chain.len() as int;
    let missing = 32 * (needed - (entries::slot_count(held) - at));
    let size = layout.cluster_bytes();
    let count = w.clusters_for(missing);
    assert(count >= 1 && count * size >= missing) by (nonlinear_arith)
        requires
            count == (missing + size - 1) / size,
            missing > 0,
            size > 0,
    ;
    let new = w.allocated(count)->0;
    lemma_allocated(w, count);
    read::lemma_chain_valid(layout, w.disk, first.0, left, None);
    lemma_chain_used(layout, w.disk, first.0, left);
    lemma_chain_distinct(layout, w.disk, first.0, left);
    lemma_chain_links(layout, w.disk, first.0, left);
    assert(last == chain[n - 1]);
    assert(layout.has_cluster(last));
    assert(layout.has_cluster(new[0]));
    assert(layout.fat_entry(w.disk, new[0]) == 0);
    lemma_with_chain(w, new, Seq::empty());
    let g1 = w.with_chain(new, Seq::empty());
    lemma_with_entry(layout, g1.disk, last, new[0]);
    lemma_fat_end(layout);
    let changed = new.push(last);
    assert forall|k: int| 0 <= k < new.len() implies changed.contains(#[trigger] new[k]) by {
        assert(changed[k] == new[k]);
    }
    assert(changed.contains(last)) by {
        assert(changed[new.len() as int] == last);
    }
    assert(only(layout, w.disk, g.disk, layout.sectors_of(new), changed)) by {
        assert forall|o: u32| layout.has_cluster(o) && !changed.contains(o) implies #[trigger] layout.fat_entry(
            g.disk,
            o,
        ) == layout.fat_entry(w.disk, o) by {
            assert(!new.contains(o)) by {
                if new.contains(o) {
                    let k = choose|k: int| 0 <= k < new.len() && new[k] == o;
                    assert(changed.contains(new[k]));
                }
            }
            assert(layout.fat_entry(g1.disk, o) == layout.fat_entry(w.disk, o));
        }
        assert forall|t: int|
            fat_end(layout) <= t <= 0xFFFF_FFFF && !layout.sectors_of(new).contains(
                t,
            ) implies #[trigger] layout.sector(g.disk, t) == layout.sector(w.disk, t) by {
            assert(layout.sector(g1.disk, t) == layout.sector(w.disk, t));
        }
    }
    // The chain goes on.
    assert forall|m: int| 0 <= m < new.len() implies #[trigger] layout.fat_entry(g.disk, new[m])
        == next_of(layout, new, m) by {
        assert(layout.fat_entry(g1.disk, new[m]) == next_of(layout, new, m));
        assert(layout.has_cluster(new[m]) && layout.fat_entry(w.disk, new[m]) == 0);
    }
    lemma_chain_extended(layout, w.disk, g.disk, first.0, chain, new);
    layout.lemma_sectors_concat(chain, new);
    // What it holds.
    lemma_dir_sectors(layout, w.disk, dir);
    lemma_grown_bytes(layout, w.disk, g1.disk, g.disk, places, new);
    assert(change::padded(Seq::empty(), new.len() * size) =~= bytes::zeros((count * size) as nat));
    lemma_held_length(layout, w.disk, places);
}

/// What a directory that grew holds.
proof fn lemma_grown_bytes(
    layout: Layout,
    w: Disk,
    g1: Disk,
    g: Disk,
    places: Seq<int>,
    new: Seq<u32>,
)
    requires
        sound(layout, w),
        past_fats(layout, places),
        new.no_duplicates(),
        crate::fat::write::all_there(layout, new),
        forall|k: int| 0 <= k < new.len() ==> layout.fat_entry(w, #[trigger] new[k]) == 0,
        forall|i: int| 0 <= i < places.len() ==> !in_free(layout, w, #[trigger] places[i]),
        forall|t: int|
            fat_end(layout) <= t <= 0xFFFF_FFFF && !layout.sectors_of(new).contains(t)
                ==> #[trigger] layout.sector(g, t) == layout.sector(w, t),
        forall|t: int|
            fat_end(layout) <= t <= 0xFFFF_FFFF ==> #[trigger] layout.sector(g, t)
                == layout.sector(g1, t),
    ensures
        layout.bytes_at(g, places + layout.sectors_of(new)) == layout.bytes_at(w, places)
            + layout.bytes_at(g1, layout.sectors_of(new)),
{
    let fresh = layout.sectors_of(new);
    layout.lemma_bytes_concat(g, places, fresh);
    assert forall|i: int| 0 <= i < places.len() implies layout.sector(g, #[trigger] places[i])
        == layout.sector(w, places[i]) by {
        if fresh.contains(places[i]) {
            lemma_free_sectors(layout, w, new, places[i]);
        }
    }
    lemma_bytes_same(layout, g, w, places);
    lemma_sectors_distinct(layout, new);
    assert forall|i: int| 0 <= i < fresh.len() implies layout.sector(g, #[trigger] fresh[i])
        == layout.sector(g1, fresh[i]) by {}
    lemma_bytes_same(layout, g, g1, fresh);
}

/// The sectors of the chain that starts at `first` (none for 0).
pub open spec fn sectors_from(layout: Layout, disk: Disk, first: u32) -> Seq<int> {
    if first == 0 {
        Seq::empty()
    } else {
        layout.sectors_of(layout.chain(disk, first)->Ok_0)
    }
}

/// Whether a directory's sectors are those it had, `places`, and ones that were free; the
/// clusters `new` are a chain, if there are any, and have none of those sectors.
#[verifier::opaque]
pub open spec fn laid_out(
    layout: Layout,
    before: Disk,
    disk: Disk,
    dir: Dir,
    places: Seq<int>,
    new: Seq<u32>,
) -> bool {
    &&& layout.dir_sectors(disk, dir) matches Ok(now) && forall|i: int|
        0 <= i < now.len() ==> !layout.sectors_of(new).contains(#[trigger] now[i]) && (in_free(
            layout,
            before,
            now[i],
        ) || places.contains(now[i]))
    &&& new.len() > 0 ==> layout.chain(disk, new[0]) == Ok::<Seq<u32>, Fault>(new)
}

proof fn lemma_laid_out(
    layout: Layout,
    before: Disk,
    disk: Disk,
    dir: Dir,
    places: Seq<int>,
    new: Seq<u32>,
    now: Seq<int>,
)
    requires
        layout.dir_sectors(disk, dir) == Ok::<Seq<int>, Fault>(now),
        new.len() > 0 ==> layout.chain(disk, new[0]) == Ok::<Seq<u32>, Fault>(new),
        forall|i: int|
            0 <= i < now.len() ==> !layout.sectors_of(new).contains(#[trigger] now[i]) && (in_free(
                layout,
                before,
                now[i],
            ) || places.contains(now[i])),
    ensures
        laid_out(layout, before, disk, dir, places, new),
{
    reveal(laid_out);
}

/// Whether a directory says what it said, `held` being what it held, of every name but `name`.
pub open spec fn says_the_rest(
    layout: Layout,
    disk: Disk,
    dir: Dir,
    held: Seq<u8>,
    name: Seq<char>,
) -> bool {
    layout.dir_bytes(disk, dir) matches Ok(now) && others::others_listed(
        held,
        now,
        layout.fat_type,
        name,
    )
}

/// Whether a disk has `name` in a directory, as a file or directory whose chain holds `data`.
pub open spec fn has_entry(
    layout: Layout,
    disk: Disk,
    dir: Dir,
    name: Seq<char>,
    attr: u8,
    data: Seq<u8>,
) -> bool {
    &&& layout.lookup(disk, dir, name) matches Ok(located)
    &&& if attr == entries::ATTR_DIRECTORY {
        located.entry.kind == EntryKind::Directory
    } else {
        located.entry.kind == EntryKind::File && located.entry.size == data.len()
    }
    &&& layout.chain_bytes(
        disk,
        located.entry.first_cluster.0,
        Some(data.len() as int),
    ) == Ok::<Seq<u8>, Fault>(data)
    &&& attr == entries::ATTR_DIRECTORY && 0 < data.len() <= layout.cluster_bytes()
        ==> located.entry.first_cluster.0 != 0 && layout.dir_bytes(
        disk,
        Dir::Chain(located.entry.first_cluster),
    ) == Ok::<Seq<u8>, Fault>(change::padded(data, layout.cluster_bytes()))
}

/// Whether a disk has `name` in a directory, as a file that holds `data`.
pub open spec fn has_file(
    layout: Layout,
    disk: Disk,
    dir: Dir,
    name: Seq<char>,
    data: Seq<u8>,
) -> bool {
    has_entry(layout, disk, dir, name, entries::ATTR_ARCHIVE, data)
}

/// What was put in new clusters is read from them.
pub proof fn lemma_put_read(layout: Layout, disk: Disk, new: Seq<u32>, data: Seq<u8>)
    requires
        layout.wf(),
        data.len() == 0 || (new.len() == (data.len() + layout.cluster_bytes() - 1)
            / layout.cluster_bytes() && holds(
            layout,
            disk,
            new,
            change::padded(data, new.len() * layout.cluster_bytes()),
        )),
    ensures
        layout.chain_bytes(
            disk,
            (if data.len() == 0 {
                0
            } else {
                new[0]
            }),
            Some(data.len() as int),
        ) == Ok::<Seq<u8>, Fault>(data),
        0 < data.len() <= layout.cluster_bytes() ==> new[0] != 0 && layout.dir_bytes(
            disk,
            Dir::Chain(Cluster(new[0])),
        ) == Ok::<Seq<u8>, Fault>(change::padded(data, layout.cluster_bytes())),
        data.len() > 0 ==> new.len() > 0 && layout.chain(disk, new[0]) == Ok::<Seq<u32>, Fault>(
            new,
        ),
{
    if data.len() > 0 {
        lemma_holds_read(layout, disk, new, data);
        lemma_chain_made(layout, disk, new, 0, layout.cluster_count as nat, None);
        assert(new.subrange(0, new.len() as int) =~= new);
        assert(layout.has_cluster(new[0]));
        let n = data.len() as int;
        let size = layout.cluster_bytes();
        if n <= size {
            assert((n + size - 1) / size == 1) by (nonlinear_arith)
                requires
                    0 < n <= size,
            ;
            assert(1 * size == size);
        }
    } else {
        assert(data =~= Seq::<u8>::empty());
    }
}

/// A file whose entry is pointed at new data holds it.
proof fn lemma_replaced(
    v: Volume,
    w: Volume,
    new: Seq<u32>,
    dir: Dir,
    places: Seq<int>,
    name: Seq<char>,
    data: Seq<u8>,
    first: u32,
)
    requires
        sound(v.layout, v.disk),
        put_in(v, w, new, data),
        first == (if data.len() == 0 {
            0
        } else {
            new[0]
        }),
        v.layout.fat_type == FatType::Fat16 ==> first < 0x1_0000,
        data.len() <= u32::MAX,
        v.layout.dir_sectors(v.disk, dir) == Ok::<Seq<int>, Fault>(places),
        entries::entry_for(
            v.layout.bytes_at(v.disk, places),
            v.layout.fat_type,
            name,
        ) matches Some(located) && located.entry.kind == EntryKind::File && {
            let old = located.entry.first_cluster.0;
            &&& old != 0 ==> v.layout.chain(v.disk, old) is Ok
            &&& apart(places, sectors_from(v.layout, v.disk, old))
        },
    ensures
        ({
            let held = v.layout.bytes_at(v.disk, places);
            let located = entries::entry_for(held, v.layout.fat_type, name)->0;
            let changed = ImageModel {
                places,
                bytes: bytes::splice(
                    held,
                    32 * located.slot + 20,
                    stored::pointer(first, data.len() as u32, v.stamp),
                ),
            };
            let old = located.entry.first_cluster.0;
            let (result, z) = w.dir_stored(changed, located.slot, located.slot + 1).chain_freed(
                old,
            );
            &&& result is Ok
            &&& z.layout == v.layout
            &&& sound(v.layout, z.disk)
            &&& spared(
                v.layout,
                v.disk,
                z.disk,
                places + sectors_from(v.layout, v.disk, old),
            )
            &&& has_file(v.layout, z.disk, dir, name, data)
            &&& says_the_rest(v.layout, z.disk, dir, held, name)
        }),
{
    let layout = v.layout;
    let d = v.disk;
    let held = layout.bytes_at(d, places);
    let located = entries::entry_for(held, layout.fat_type, name)->0;
    let slot = located.slot;
    let size = data.len() as u32;
    let pointer = stored::pointer(first, size, v.stamp);
    let changed = ImageModel { places, bytes: bytes::splice(held, 32 * slot + 20, pointer) };
    let old = located.entry.first_cluster.0;
    let x = w.dir_stored(changed, slot, slot + 1);
    lemma_repointed(held, layout.fat_type, name, first, size, v.stamp);
    lemma_repointed_disk(v, w, new, dir, places, name, data, first);
    lemma_freed_after(v, x, new, dir, places, changed.bytes, data, old);
    others::lemma_repointed_others(held, layout.fat_type, name, pointer);
}

/// What is known once a file's entry points at new data.
pub proof fn lemma_repointed_disk(
    v: Volume,
    w: Volume,
    new: Seq<u32>,
    dir: Dir,
    places: Seq<int>,
    name: Seq<char>,
    data: Seq<u8>,
    first: u32,
)
    requires
        sound(v.layout, v.disk),
        put_in(v, w, new, data),
        first == (if data.len() == 0 {
            0
        } else {
            new[0]
        }),
        v.layout.fat_type == FatType::Fat16 ==> first < 0x1_0000,
        data.len() <= u32::MAX,
        v.layout.dir_sectors(v.disk, dir) == Ok::<Seq<int>, Fault>(places),
        entries::entry_for(
            v.layout.bytes_at(v.disk, places),
            v.layout.fat_type,
            name,
        ) matches Some(located) && located.entry.kind == EntryKind::File,
    ensures
        ({
            let layout = v.layout;
            let held = layout.bytes_at(v.disk, places);
            let located = entries::entry_for(held, layout.fat_type, name)->0;
            let changed = ImageModel {
                places,
                bytes: bytes::splice(
                    held,
                    32 * located.slot + 20,
                    stored::pointer(first, data.len() as u32, v.stamp),
                ),
            };
            let x = w.dir_stored(changed, located.slot, located.slot + 1);
            &&& x.layout == layout
            &&& only(layout, v.disk, x.disk, layout.sectors_of(new) + places, new)
            &&& data.len() == 0 || holds(
                layout,
                x.disk,
                new,
                change::padded(data, new.len() * layout.cluster_bytes()),
            )
            &&& layout.dir_sectors(x.disk, dir) == Ok::<Seq<int>, Fault>(places)
            &&& past_fats(layout, places)
            &&& layout.dir_bytes(x.disk, dir) == Ok::<Seq<u8>, Fault>(changed.bytes)
            &&& entries::entry_for(changed.bytes, layout.fat_type, name) matches Some(found)
                && found.entry.first_cluster.0 == first && found.entry.size == data.len()
                && found.entry.kind == EntryKind::File
        }),
{
    let layout = v.layout;
    let d = v.disk;
    let held = layout.bytes_at(d, places);
    let located = entries::entry_for(held, layout.fat_type, name)->0;
    let slot = located.slot;
    let size = data.len() as u32;
    let pointer = stored::pointer(first, size, v.stamp);
    let changed = ImageModel { places, bytes: bytes::splice(held, 32 * slot + 20, pointer) };
    let old = located.entry.first_cluster.0;
    let x = w.dir_stored(changed, slot, slot + 1);
    lemma_dir_sectors(layout, d, dir);
    lemma_dir_unchanged(v, w, new, data, dir);
    lemma_repointed(held, layout.fat_type, name, first, size, v.stamp);
    lemma_held_length(layout, d, places);
    lemma_dir_stored(layout, w.disk, dir, places, changed.bytes, slot, slot + 1);
    let none = Seq::<u32>::empty();
    let fresh = layout.sectors_of(new);
    lemma_only_both(layout, d, w.disk, x.disk, fresh, new, places, none);
    assert(new + none =~= new);
    lemma_dir_kept(layout, w.disk, x.disk, dir);
    if data.len() > 0 {
        lemma_put_kept(
            layout,
            w.disk,
            x.disk,
            new,
            change::padded(data, new.len() * layout.cluster_bytes()),
            places,
            none,
        );
    }
}

/// A chain in use is as it was once new clusters are put in and a directory changed.
pub proof fn lemma_chain_left(
    layout: Layout,
    d: Disk,
    x: Disk,
    new: Seq<u32>,
    places: Seq<int>,
    old: u32,
)
    requires
        sound(layout, d),
        forall|k: int| 0 <= k < new.len() ==> layout.fat_entry(d, #[trigger] new[k]) == 0,
        only(layout, d, x, places, new),
        layout.chain(d, old) is Ok,
    ensures
        layout.chain(x, old) == layout.chain(d, old),
        crate::fat::write::all_there(layout, layout.chain(d, old)->Ok_0),
{
    let left = layout.cluster_count as nat;
    let chain = layout.chain(d, old)->Ok_0;
    lemma_chain_used(layout, d, old, left);
    read::lemma_chain_valid(layout, d, old, left, None);
    assert forall|k: int| 0 <= k < chain.len() implies layout.fat_entry(x, #[trigger] chain[k])
        == layout.fat_entry(d, chain[k]) by {
        assert(layout.has_cluster(chain[k]));
        lemma_not_taken(layout, d, new, chain[k]);
    }
    lemma_chain_same(layout, d, x, old, left, None);
}

/// What is known while a file's old chain is given back, after its entry points at new data.
pub proof fn lemma_freed_partly(
    v: Volume,
    x: Volume,
    new: Seq<u32>,
    dir: Dir,
    places: Seq<int>,
    held: Seq<u8>,
    data: Seq<u8>,
    old: u32,
    m: Disk,
)
    requires
        sound(v.layout, v.disk),
        x.layout == v.layout,
        new.no_duplicates(),
        crate::fat::write::all_there(v.layout, new),
        forall|k: int|
            0 <= k < new.len() ==> v.layout.fat_entry(v.disk, #[trigger] new[k]) == 0,
        only(v.layout, v.disk, x.disk, v.layout.sectors_of(new) + places, new),
        data.len() == 0 || (new.len() == (data.len() + v.layout.cluster_bytes() - 1)
            / v.layout.cluster_bytes() && holds(
            v.layout,
            x.disk,
            new,
            change::padded(data, new.len() * v.layout.cluster_bytes()),
        )),
        v.layout.dir_sectors(x.disk, dir) == Ok::<Seq<int>, Fault>(places),
        past_fats(v.layout, places),
        v.layout.dir_bytes(x.disk, dir) == Ok::<Seq<u8>, Fault>(held),
        old != 0 ==> v.layout.chain(v.disk, old) is Ok,
        apart(places, sectors_from(v.layout, v.disk, old)),
        only(
            v.layout,
            x.disk,
            m,
            Seq::empty(),
            crate::fat::cuts::chain_at(v.layout, x.disk, old),
        ),
    ensures
        spared(v.layout, v.disk, m, places + sectors_from(v.layout, v.disk, old)),
        v.layout.dir_bytes(m, dir) == Ok::<Seq<u8>, Fault>(held),
        v.layout.chain_bytes(
            m,
            (if data.len() == 0 {
                0
            } else {
                new[0]
            }),
            Some(data.len() as int),
        ) == Ok::<Seq<u8>, Fault>(data),
        v.layout.dir_sectors(m, dir) == Ok::<Seq<int>, Fault>(places),
        data.len() > 0 ==> v.layout.chain(m, new[0]) == Ok::<Seq<u32>, Fault>(new),
{
    let layout = v.layout;
    let d = v.disk;
    let old_sectors = sectors_from(layout, d, old);
    let freed = crate::fat::cuts::chain_at(layout, x.disk, old);
    if old != 0 {
        lemma_chain_left(layout, d, x.disk, new, layout.sectors_of(new) + places, old);
        lemma_chain_used(layout, d, old, layout.cluster_count as nat);
    }
    assert forall|k: int| 0 <= k < freed.len() implies !new.contains(#[trigger] freed[k])
        && old_sectors.contains(layout.first_sector(freed[k])) by {
        lemma_not_taken(layout, d, new, freed[k]);
        assert(in_cluster(layout, freed[k], layout.first_sector(freed[k])));
        lemma_sector_of(layout, freed, layout.first_sector(freed[k]));
    }
    // What was put in is still there.
    if data.len() > 0 {
        lemma_put_kept(
            layout,
            x.disk,
            m,
            new,
            change::padded(data, new.len() * layout.cluster_bytes()),
            Seq::empty(),
            freed,
        );
    }
    lemma_put_read(layout, m, new, data);
    lemma_dir_left(layout, x.disk, m, dir, places, freed, old_sectors);
    lemma_rest_spared(layout, d, x.disk, m, new, places, freed, old_sectors);
}

/// What is known once a file's old chain is given back, after its entry points at new data.
pub proof fn lemma_freed_after(
    v: Volume,
    x: Volume,
    new: Seq<u32>,
    dir: Dir,
    places: Seq<int>,
    held: Seq<u8>,
    data: Seq<u8>,
    old: u32,
)
    requires
        sound(v.layout, v.disk),
        x.layout == v.layout,
        new.no_duplicates(),
        crate::fat::write::all_there(v.layout, new),
        forall|k: int|
            0 <= k < new.len() ==> v.layout.fat_entry(v.disk, #[trigger] new[k]) == 0,
        only(v.layout, v.disk, x.disk, v.layout.sectors_of(new) + places, new),
        data.len() == 0 || (new.len() == (data.len() + v.layout.cluster_bytes() - 1)
            / v.layout.cluster_bytes() && holds(
            v.layout,
            x.disk,
            new,
            change::padded(data, new.len() * v.layout.cluster_bytes()),
        )),
        v.layout.dir_sectors(x.disk, dir) == Ok::<Seq<int>, Fault>(places),
        past_fats(v.layout, places),
        v.layout.dir_bytes(x.disk, dir) == Ok::<Seq<u8>, Fault>(held),
        old != 0 ==> v.layout.chain(v.disk, old) is Ok,
        apart(places, sectors_from(v.layout, v.disk, old)),
    ensures
        ({
            let (result, z) = x.chain_freed(old);
            &&& result is Ok
            &&& z.layout == v.layout
            &&& sound(v.layout, z.disk)
            &&& spared(
                v.layout,
                v.disk,
                z.disk,
                places + sectors_from(v.layout, v.disk, old),
            )
            &&& v.layout.dir_bytes(z.disk, dir) == Ok::<Seq<u8>, Fault>(held)
            &&& v.layout.chain_bytes(
                z.disk,
                (if data.len() == 0 {
                    0
                } else {
                    new[0]
                }),
                Some(data.len() as int),
            ) == Ok::<Seq<u8>, Fault>(data)
            &&& v.layout.dir_sectors(z.disk, dir) == Ok::<Seq<int>, Fault>(places)
            &&& data.len() > 0 ==> v.layout.chain(z.disk, new[0]) == Ok::<Seq<u32>, Fault>(new)
        }),
{
    let layout = v.layout;
    let (result, z) = x.chain_freed(old);
    if old != 0 {
        lemma_chain_left(
            layout,
            v.disk,
            x.disk,
            new,
            layout.sectors_of(new) + places,
            old,
        );
        let freed = layout.chain(v.disk, old)->Ok_0;
        crate::fat::cuts::lemma_freed_only(layout, x.disk, freed, freed.len() as int);
    } else {
        assert(only(layout, x.disk, z.disk, Seq::empty(), Seq::empty()));
    }
    lemma_freed_partly(v, x, new, dir, places, held, data, old, z.disk);
}

/// A directory stays when clusters that aren't its own are freed.
pub proof fn lemma_dir_left(
    layout: Layout,
    a: Disk,
    b: Disk,
    dir: Dir,
    places: Seq<int>,
    freed: Seq<u32>,
    old_sectors: Seq<int>,
)
    requires
        layout.wf(),
        only(layout, a, b, Seq::empty(), freed),
        layout.dir_sectors(a, dir) == Ok::<Seq<int>, Fault>(places),
        past_fats(layout, places),
        apart(places, old_sectors),
        forall|k: int|
            0 <= k < freed.len() ==> old_sectors.contains(
                layout.first_sector(#[trigger] freed[k]),
            ),
    ensures
        layout.dir_bytes(b, dir) == layout.dir_bytes(a, dir),
        layout.dir_sectors(b, dir) == layout.dir_sectors(a, dir),
{
    assert forall|c: u32|
        layout.has_cluster(c) && layout.fat_entry(a, c) != 0 && places.contains(
            layout.first_sector(c),
        ) implies #[trigger] layout.fat_entry(b, c) == layout.fat_entry(a, c) by {
        if freed.contains(c) {
            let k = choose|k: int| 0 <= k < freed.len() && freed[k] == c;
            assert(old_sectors.contains(layout.first_sector(freed[k])));
            let i = choose|i: int| 0 <= i < places.len() && places[i] == layout.first_sector(c);
            assert(!old_sectors.contains(places[i]));
        }
    }
    lemma_dir_kept(layout, a, b, dir);
    assert forall|i: int| 0 <= i < places.len() implies layout.sector(a, #[trigger] places[i])
        == layout.sector(b, places[i]) by {}
    lemma_bytes_same(layout, a, b, places);
}

/// Replacing a file spares all but its directory and what it held.
pub proof fn lemma_rest_spared(
    layout: Layout,
    d: Disk,
    x: Disk,
    z: Disk,
    new: Seq<u32>,
    places: Seq<int>,
    freed: Seq<u32>,
    old_sectors: Seq<int>,
)
    requires
        layout.wf(),
        crate::fat::write::all_there(layout, new),
        forall|k: int| 0 <= k < new.len() ==> layout.fat_entry(d, #[trigger] new[k]) == 0,
        only(layout, d, x, layout.sectors_of(new) + places, new),
        only(layout, x, z, Seq::empty(), freed),
        forall|k: int|
            0 <= k < freed.len() ==> old_sectors.contains(
                layout.first_sector(#[trigger] freed[k]),
            ),
    ensures
        spared(layout, d, z, places + old_sectors),
{
    let fresh = layout.sectors_of(new);
    let all_places = fresh + places;
    let touched = places + old_sectors;
    lemma_only_both(layout, d, x, z, all_places, new, Seq::empty(), freed);
    assert(all_places + Seq::<int>::empty() =~= all_places);
    let both = new + freed;
    assert forall|k: int| 0 <= k < both.len() implies layout.fat_entry(d, #[trigger] both[k]) == 0
        || touched.contains(layout.first_sector(both[k])) by {
        if k < new.len() {
            assert(layout.fat_entry(d, new[k]) == 0);
        } else {
            assert(both[k] == freed[k - new.len()]);
            assert(old_sectors.contains(layout.first_sector(freed[k - new.len()])));
            lemma_concat_contains(places, old_sectors, layout.first_sector(both[k]));
        }
    }
    assert forall|k: int| 0 <= k < all_places.len() implies in_free(
        layout,
        d,
        #[trigger] all_places[k],
    ) || touched.contains(all_places[k]) by {
        if k < fresh.len() {
            assert(fresh.contains(fresh[k]));
            lemma_free_sectors(layout, d, new, fresh[k]);
        } else {
            assert(places.contains(places[k - fresh.len()]));
            lemma_concat_contains(places, old_sectors, all_places[k]);
        }
    }
    lemma_spared(layout, d, z, all_places, both, touched);
}

/// A cluster that is in use isn't among those taken.
pub proof fn lemma_not_taken(layout: Layout, disk: Disk, new: Seq<u32>, c: u32)
    requires
        forall|k: int| 0 <= k < new.len() ==> layout.fat_entry(disk, #[trigger] new[k]) == 0,
    ensures
        layout.fat_entry(disk, c) != 0 ==> !new.contains(c),
{
    if new.contains(c) {
        let k = choose|k: int| 0 <= k < new.len() && new[k] == c;
        assert(layout.fat_entry(disk, new[k]) == 0);
    }
}

/// A directory's sectors hold 512 bytes each.
pub proof fn lemma_held_length(layout: Layout, disk: Disk, places: Seq<int>)
    requires
        sound(layout, disk),
        past_fats(layout, places),
    ensures
        layout.bytes_at(disk, places).len() == 512 * places.len(),
{
    lemma_fat_end(layout);
    assert forall|i: int| 0 <= i < places.len() implies layout.sector(
        disk,
        #[trigger] places[i],
    ).len() == 512 by {
        assert(fat_end(layout) <= places[i] <= 0xFFFF_FFFF);
    }
    layout.lemma_bytes_length(disk, places);
}

/// What a directory holds once entries for `name` are added to it.
pub open spec fn dir_with(
    w: Volume,
    dir: Dir,
    image: ImageModel,
    name: Seq<char>,
    attr: u8,
    first: u32,
    size: u32,
) -> Seq<u8> {
    let new = stored::new_entries(
        name,
        stored::taken_names(image.bytes),
        attr,
        first,
        size,
        w.stamp,
    )->0;
    let count = new.len() as int / 32;
    match stored::run_from(image.bytes, 0, count) {
        Some(at) => bytes::splice(image.bytes, 32 * at, new),
        None => {
            let (at, more) = w.dir_grown(dir, image, count).0->Ok_0;
            bytes::splice(more.bytes, 32 * at, new)
        },
    }
}

/// A new file whose entries are stored in a directory as it is holds its data.
proof fn lemma_added_here(
    v: Volume,
    w: Volume,
    new: Seq<u32>,
    dir: Dir,
    places: Seq<int>,
    name: Seq<char>,
    data: Seq<u8>,
    first: u32,
    attr: u8,
    size: u32,
    at: int,
)
    requires
        sound(v.layout, v.disk),
        put_in(v, w, new, data),
        plain_name(name),
        attr == entries::ATTR_ARCHIVE || attr == entries::ATTR_DIRECTORY,
        attr == entries::ATTR_ARCHIVE ==> size == data.len(),
        first == (if data.len() == 0 {
            0
        } else {
            new[0]
        }),
        v.layout.fat_type == FatType::Fat16 ==> first < 0x1_0000,
        v.layout.dir_sectors(v.disk, dir) == Ok::<Seq<int>, Fault>(places),
        entries::entry_for(
            v.layout.bytes_at(v.disk, places),
            v.layout.fat_type,
            name,
        ) is None,
        no_stray_pieces(v.layout.bytes_at(v.disk, places)),
        ({
            let held = v.layout.bytes_at(v.disk, places);
            let made_now = stored::new_entries(
                name,
                stored::taken_names(held),
                attr,
                first,
                size,
                w.stamp,
            );
            &&& made_now is Some
            &&& stored::run_from(held, 0, (made_now->0).len() as int / 32) == Some(at)
        }),
    ensures
        ({
            let held = v.layout.bytes_at(v.disk, places);
            let made_now = stored::new_entries(
                name,
                stored::taken_names(held),
                attr,
                first,
                size,
                w.stamp,
            )->0;
            let z = w.entries_put((ImageModel { places, bytes: held }), at, made_now);
            &&& z.layout == v.layout
            &&& sound(v.layout, z.disk)
            &&& spared(v.layout, v.disk, z.disk, places)
            &&& has_entry(v.layout, z.disk, dir, name, attr, data)
            &&& says_the_rest(v.layout, z.disk, dir, held, name)
            &&& v.layout.dir_bytes(z.disk, dir) == Ok::<Seq<u8>, Fault>(
                bytes::splice(held, 32 * at, made_now),
            )
        }),
{
    let layout = v.layout;
    let d = v.disk;
    let held = layout.bytes_at(d, places);
    let image = ImageModel { places, bytes: held };
    let taken = stored::taken_names(held);
    let made_now = stored::new_entries(name, taken, attr, first, size, w.stamp)->0;
    let count = made_now.len() as int / 32;
    lemma_made(name, taken, attr, first, size, w.stamp);
    assert(made_now.len() == 32 * (made(name, taken).pieces + 1));
    lemma_dir_sectors(layout, d, dir);
    lemma_dir_unchanged(v, w, new, data, dir);
    lemma_held_length(layout, d, places);
    let none = Seq::<u32>::empty();
    let z = w.entries_put(image, at, made_now);
    stored::lemma_run_fits(held, 0, count);
    lemma_run_place(held, count);
    lemma_entries_found(held, layout.fat_type, name, taken, attr, first, size, w.stamp, at);
    let after = bytes::splice(held, 32 * at, made_now);
    lemma_dir_stored(layout, w.disk, dir, places, after, at, at + count);
    if data.len() > 0 {
        lemma_put_kept(
            layout,
            w.disk,
            z.disk,
            new,
            change::padded(data, new.len() * layout.cluster_bytes()),
            places,
            none,
        );
    }
    lemma_put_read(layout, z.disk, new, data);
    lemma_added_spared(layout, d, w.disk, z.disk, new, places, places, none);
    others::lemma_stored_others(
        held,
        layout.fat_type,
        name,
        taken,
        attr,
        first,
        size,
        w.stamp,
        at,
    );
}

/// Adding a file spares all but its directory.
pub proof fn lemma_added_spared(
    layout: Layout,
    d: Disk,
    w: Disk,
    z: Disk,
    new: Seq<u32>,
    places: Seq<int>,
    later: Seq<int>,
    changed: Seq<u32>,
)
    requires
        layout.wf(),
        crate::fat::write::all_there(layout, new),
        forall|k: int| 0 <= k < new.len() ==> layout.fat_entry(d, #[trigger] new[k]) == 0,
        only(layout, d, w, layout.sectors_of(new), new),
        only(layout, w, z, later, changed),
        forall|i: int|
            0 <= i < later.len() ==> in_free(layout, d, #[trigger] later[i]) || places.contains(
                later[i],
            ),
        forall|k: int|
            0 <= k < changed.len() ==> layout.fat_entry(d, #[trigger] changed[k]) == 0
                || places.contains(layout.first_sector(changed[k])),
    ensures
        spared(layout, d, z, places),
{
    let fresh = layout.sectors_of(new);
    lemma_only_both(layout, d, w, z, fresh, new, later, changed);
    let all_places = fresh + later;
    assert forall|k: int| 0 <= k < all_places.len() implies in_free(
        layout,
        d,
        #[trigger] all_places[k],
    ) || places.contains(all_places[k]) by {
        if k < fresh.len() {
            assert(fresh.contains(fresh[k]));
            lemma_free_sectors(layout, d, new, fresh[k]);
        } else {
            assert(all_places[k] == later[k - fresh.len()]);
        }
    }
    let both = new + changed;
    assert forall|k: int| 0 <= k < both.len() implies layout.fat_entry(d, #[trigger] both[k]) == 0
        || places.contains(layout.first_sector(both[k])) by {
        if k < new.len() {
            assert(layout.fat_entry(d, new[k]) == 0);
        } else {
            assert(both[k] == changed[k - new.len()]);
        }
    }
    lemma_spared(layout, d, z, all_places, both, places);
}

/// A new file whose entries are stored in a directory that grew for them holds its data.
#[verifier::rlimit(40)]
#[verifier::spinoff_prover]
proof fn lemma_added_grown(
    v: Volume,
    w: Volume,
    new: Seq<u32>,
    dir: Dir,
    places: Seq<int>,
    name: Seq<char>,
    data: Seq<u8>,
    first: u32,
    attr: u8,
    size: u32,
)
    requires
        sound(v.layout, v.disk),
        put_in(v, w, new, data),
        plain_name(name),
        attr == entries::ATTR_ARCHIVE || attr == entries::ATTR_DIRECTORY,
        attr == entries::ATTR_ARCHIVE ==> size == data.len(),
        first == (if data.len() == 0 {
            0
        } else {
            new[0]
        }),
        v.layout.fat_type == FatType::Fat16 ==> first < 0x1_0000,
        v.layout.dir_sectors(v.disk, dir) == Ok::<Seq<int>, Fault>(places),
        entries::entry_for(
            v.layout.bytes_at(v.disk, places),
            v.layout.fat_type,
            name,
        ) is None,
        no_stray_pieces(v.layout.bytes_at(v.disk, places)),
        ({
            let held = v.layout.bytes_at(v.disk, places);
            let made_now = stored::new_entries(
                name,
                stored::taken_names(held),
                attr,
                first,
                size,
                w.stamp,
            );
            let count = (made_now->0).len() as int / 32;
            &&& made_now is Some
            &&& stored::run_from(held, 0, count) is None
            &&& w.dir_grown(dir, (ImageModel { places, bytes: held }), count).0 is Ok
        }),
    ensures
        ({
            let held = v.layout.bytes_at(v.disk, places);
            let made_now = stored::new_entries(
                name,
                stored::taken_names(held),
                attr,
                first,
                size,
                w.stamp,
            )->0;
            let count = made_now.len() as int / 32;
            let (result, g) = w.dir_grown(dir, (ImageModel { places, bytes: held }), count);
            let (at, more) = result->Ok_0;
            let z = g.entries_put(more, at, made_now);
            &&& z.layout == v.layout
            &&& sound(v.layout, z.disk)
            &&& spared(v.layout, v.disk, z.disk, places)
            &&& has_entry(v.layout, z.disk, dir, name, attr, data)
            &&& says_the_rest(v.layout, z.disk, dir, held, name)
            &&& v.layout.dir_bytes(z.disk, dir) == Ok::<Seq<u8>, Fault>(
                bytes::splice(more.bytes, 32 * at, made_now),
            )
        }),
{
    let layout = v.layout;
    let d = v.disk;
    let held = layout.bytes_at(d, places);
    let image = ImageModel { places, bytes: held };
    let taken = stored::taken_names(held);
    let made_now = stored::new_entries(name, taken, attr, first, size, w.stamp)->0;
    let count = made_now.len() as int / 32;
    lemma_made(name, taken, attr, first, size, w.stamp);
    assert(made_now.len() == 32 * (made(name, taken).pieces + 1));
    lemma_dir_sectors(layout, d, dir);
    lemma_dir_unchanged(v, w, new, data, dir);
    lemma_held_length(layout, d, places);
    let none = Seq::<u32>::empty();
    entries::lemma_end_slot(held, 0);
    stored::lemma_no_room(held, 0, count);
    lemma_dir_grown(w, dir, places, count);
    let (result, g) = w.dir_grown(dir, image, count);
    let (at, more) = result->Ok_0;
    let z = g.entries_put(more, at, made_now);
    let chain = layout.chain(w.disk, (layout.dir_start(dir)->0).0)->Ok_0;
    let last = chain.last();
    let grown_by = w.clusters_for(32 * (count - (entries::slot_count(held) - at)));
    let extra = w.allocated(grown_by)->0;
    let zeros = (grown_by * layout.cluster_bytes()) as nat;
    let extra_sectors = layout.sectors_of(extra);
    lemma_multiple(grown_by, layout.sectors_per_cluster as int);
    lemma_grown_dir(held, layout.fat_type, name, zeros, count);
    lemma_entries_found(more.bytes, layout.fat_type, name, taken, attr, first, size, w.stamp, at);
    let after = bytes::splice(more.bytes, 32 * at, made_now);
    lemma_dir_sectors(layout, g.disk, dir);
    lemma_held_length(layout, g.disk, more.places);
    lemma_dir_stored(layout, g.disk, dir, more.places, after, at, at + count);
    let changed = extra.push(last);
    lemma_only_both(layout, w.disk, g.disk, z.disk, extra_sectors, changed, more.places, none);
    assert(changed + none =~= changed);
    let later = extra_sectors + more.places;
    lemma_grown_apart(v, w, new, data, dir, places, chain, extra);
    assert forall|i: int| 0 <= i < later.len() implies !layout.sectors_of(new).contains(
        #[trigger] later[i],
    ) && (in_free(layout, d, later[i]) || places.contains(later[i])) by {
        lemma_later_place(layout, d, new, extra, changed, places, more.places, later, i);
    }
    if data.len() > 0 {
        lemma_put_kept(
            layout,
            w.disk,
            z.disk,
            new,
            change::padded(data, new.len() * layout.cluster_bytes()),
            later,
            changed,
        );
    }
    lemma_put_read(layout, z.disk, new, data);
    lemma_added_spared(layout, d, w.disk, z.disk, new, places, later, changed);
    others::lemma_grown_others(held, layout.fat_type, name, zeros);
    others::lemma_stored_others(
        more.bytes,
        layout.fat_type,
        name,
        taken,
        attr,
        first,
        size,
        w.stamp,
        at,
    );
    others::lemma_others_twice(held, more.bytes, after, layout.fat_type, name);
}

pub proof fn lemma_multiple(n: int, per: int)
    requires
        n >= 0,
        per >= 0,
    ensures
        n * (per * 512) >= 0,
        n * (per * 512) % 32 == 0,
{
    assert(n * (per * 512) == 32 * (n * (per * 16))) by (nonlinear_arith);
    assert(n * (per * 16) >= 0) by (nonlinear_arith)
        requires
            n >= 0,
            per >= 0,
    ;
}

/// The clusters that a directory took to grow are neither a new file's nor in use, but for the
/// directory's own.
pub proof fn lemma_grown_apart(
    v: Volume,
    w: Volume,
    new: Seq<u32>,
    data: Seq<u8>,
    dir: Dir,
    places: Seq<int>,
    chain: Seq<u32>,
    extra: Seq<u32>,
)
    requires
        sound(v.layout, v.disk),
        put_in(v, w, new, data),
        v.layout.dir_sectors(v.disk, dir) == Ok::<Seq<int>, Fault>(places),
        places == v.layout.sectors_of(chain),
        chain.len() > 0,
        v.layout.has_cluster(chain.last()),
        crate::fat::write::all_there(v.layout, extra),
        forall|k: int|
            0 <= k < extra.len() ==> v.layout.fat_entry(w.disk, #[trigger] extra[k]) == 0,
    ensures
        forall|k: int|
            0 <= k < extra.push(chain.last()).len() ==> !new.contains(
                #[trigger] extra.push(chain.last())[k],
            ) && (v.layout.fat_entry(v.disk, extra.push(chain.last())[k]) == 0 || places.contains(
                v.layout.first_sector(extra.push(chain.last())[k]),
            )),
        forall|k: int|
            0 <= k < places.len() ==> !in_free(v.layout, v.disk, #[trigger] places[k])
                && !v.layout.sectors_of(new).contains(places[k]),
        forall|c: u32|
            v.layout.has_cluster(c) && places.contains(#[trigger] v.layout.first_sector(c))
                && extra.contains(c) ==> false,
{
    let layout = v.layout;
    let d = v.disk;
    let last = chain.last();
    let changed = extra.push(last);
    lemma_dir_sectors(layout, d, dir);
    lemma_dir_unchanged(v, w, new, data, dir);
    assert forall|k: int| 0 <= k < extra.len() implies !new.contains(#[trigger] extra[k])
        && layout.fat_entry(d, extra[k]) == 0 by {
        assert(layout.has_cluster(extra[k]) && layout.fat_entry(w.disk, extra[k]) == 0);
        lemma_linked_used(layout, w.disk, new, extra[k], data);
    }
    assert forall|k: int| 0 <= k < changed.len() implies !new.contains(#[trigger] changed[k]) && (
    layout.fat_entry(d, changed[k]) == 0 || places.contains(layout.first_sector(changed[k]))) by {
        if k < extra.len() {
            assert(changed[k] == extra[k]);
        } else {
            let n = chain.len() as int;
            let t = layout.first_sector(last);
            assert(in_cluster(layout, chain[n - 1], t));
            lemma_sector_of(layout, chain, t);
            let i = choose|i: int| 0 <= i < places.len() && places[i] == t;
            if new.contains(last) {
                let m = choose|m: int| 0 <= m < new.len() && new[m] == last;
                assert(in_cluster(layout, new[m], t));
                lemma_sector_of(layout, new, t);
                assert(!layout.sectors_of(new).contains(places[i]));
            }
        }
    }
    assert forall|k: int| 0 <= k < places.len() implies !in_free(
        layout,
        d,
        #[trigger] places[k],
    ) && !layout.sectors_of(new).contains(places[k]) by {}
    assert forall|c: u32|
        layout.has_cluster(c) && places.contains(#[trigger] layout.first_sector(c))
            && extra.contains(c) implies false by {
        let k = choose|k: int| 0 <= k < extra.len() && extra[k] == c;
        assert(layout.fat_entry(d, extra[k]) == 0);
        let i = choose|i: int| 0 <= i < places.len() && places[i] == layout.first_sector(c);
        assert(in_cluster(layout, c, places[i]));
        assert(in_free(layout, d, places[i]));
    }
}

/// A new file whose entries are stored holds its data.
pub proof fn lemma_added(
    v: Volume,
    w: Volume,
    new: Seq<u32>,
    dir: Dir,
    places: Seq<int>,
    name: Seq<char>,
    data: Seq<u8>,
    first: u32,
    attr: u8,
    size: u32,
)
    requires
        sound(v.layout, v.disk),
        put_in(v, w, new, data),
        plain_name(name),
        attr == entries::ATTR_ARCHIVE || attr == entries::ATTR_DIRECTORY,
        attr == entries::ATTR_ARCHIVE ==> size == data.len(),
        first == (if data.len() == 0 {
            0
        } else {
            new[0]
        }),
        v.layout.fat_type == FatType::Fat16 ==> first < 0x1_0000,
        v.layout.dir_sectors(v.disk, dir) == Ok::<Seq<int>, Fault>(places),
        entries::entry_for(
            v.layout.bytes_at(v.disk, places),
            v.layout.fat_type,
            name,
        ) is None,
        no_stray_pieces(v.layout.bytes_at(v.disk, places)),
        w.entry_added(
            dir,
            (ImageModel { places, bytes: v.layout.bytes_at(v.disk, places) }),
            name,
            attr,
            first,
            size,
        ).0 is Ok,
    ensures
        ({
            let z = w.entry_added(
                dir,
                (ImageModel { places, bytes: v.layout.bytes_at(v.disk, places) }),
                name,
                attr,
                first,
                size,
            ).1;
            &&& z.layout == v.layout
            &&& sound(v.layout, z.disk)
            &&& spared(v.layout, v.disk, z.disk, places)
            &&& has_entry(v.layout, z.disk, dir, name, attr, data)
            &&& says_the_rest(
                v.layout,
                z.disk,
                dir,
                v.layout.bytes_at(v.disk, places),
                name,
            )
            &&& v.layout.dir_bytes(z.disk, dir) == Ok::<Seq<u8>, Fault>(
                dir_with(
                    w,
                    dir,
                    (ImageModel { places, bytes: v.layout.bytes_at(v.disk, places) }),
                    name,
                    attr,
                    first,
                    size,
                ),
            )
        }),
{
    let held = v.layout.bytes_at(v.disk, places);
    let made_now = stored::new_entries(
        name,
        stored::taken_names(held),
        attr,
        first,
        size,
        w.stamp,
    )->0;
    match stored::run_from(held, 0, made_now.len() as int / 32) {
        Some(at) => {
            lemma_added_here(v, w, new, dir, places, name, data, first, attr, size, at);
        },
        None => {
            lemma_added_grown(v, w, new, dir, places, name, data, first, attr, size);
        },
    }
}

/// Where a new file and its directory are once its entries are stored in it as it is.
#[verifier::rlimit(40)]
#[verifier::spinoff_prover]
proof fn lemma_here_laid_out(
    v: Volume,
    w: Volume,
    new: Seq<u32>,
    dir: Dir,
    places: Seq<int>,
    name: Seq<char>,
    data: Seq<u8>,
    first: u32,
    attr: u8,
    size: u32,
)
    requires
        sound(v.layout, v.disk),
        put_in(v, w, new, data),
        plain_name(name),
        attr == entries::ATTR_ARCHIVE || attr == entries::ATTR_DIRECTORY,
        v.layout.dir_sectors(v.disk, dir) == Ok::<Seq<int>, Fault>(places),
        w.entry_added(
            dir,
            (ImageModel { places, bytes: v.layout.bytes_at(v.disk, places) }),
            name,
            attr,
            first,
            size,
        ).0 is Ok,
        ({
            let held = v.layout.bytes_at(v.disk, places);
            let made_now = stored::new_entries(
                name,
                stored::taken_names(held),
                attr,
                first,
                size,
                w.stamp,
            )->0;
            stored::run_from(held, 0, made_now.len() as int / 32) is Some
        }),
    ensures
        laid_out(
            v.layout,
            v.disk,
            w.entry_added(
                dir,
                (ImageModel { places, bytes: v.layout.bytes_at(v.disk, places) }),
                name,
                attr,
                first,
                size,
            ).1.disk,
            dir,
            places,
            new,
        ),
{
    let layout = v.layout;
    let d = v.disk;
    let held = layout.bytes_at(d, places);
    let image = ImageModel { places, bytes: held };
    let taken = stored::taken_names(held);
    let made_now = stored::new_entries(name, taken, attr, first, size, w.stamp)->0;
    let count = made_now.len() as int / 32;
    let none = Seq::<u32>::empty();
    lemma_made(name, taken, attr, first, size, w.stamp);
    assert(made_now.len() == 32 * (made(name, taken).pieces + 1));
    lemma_dir_sectors(layout, d, dir);
    lemma_dir_unchanged(v, w, new, data, dir);
    lemma_held_length(layout, d, places);
    let at = stored::run_from(held, 0, count)->0;
    let z = w.entries_put(image, at, made_now);
    stored::lemma_run_fits(held, 0, count);
    lemma_run_place(held, count);
    let after = bytes::splice(held, 32 * at, made_now);
    lemma_dir_stored(layout, w.disk, dir, places, after, at, at + count);
    lemma_dir_kept(layout, w.disk, z.disk, dir);
    lemma_still_chained(v, w, z, new, data, places, none);
    lemma_laid_out(layout, d, z.disk, dir, places, new, places);
}

/// Where a new file and its directory are once its entries are stored in it, grown.
#[verifier::rlimit(60)]
#[verifier::spinoff_prover]
proof fn lemma_grown_laid_out(
    v: Volume,
    w: Volume,
    new: Seq<u32>,
    dir: Dir,
    places: Seq<int>,
    name: Seq<char>,
    data: Seq<u8>,
    first: u32,
    attr: u8,
    size: u32,
)
    requires
        sound(v.layout, v.disk),
        put_in(v, w, new, data),
        plain_name(name),
        attr == entries::ATTR_ARCHIVE || attr == entries::ATTR_DIRECTORY,
        v.layout.dir_sectors(v.disk, dir) == Ok::<Seq<int>, Fault>(places),
        w.entry_added(
            dir,
            (ImageModel { places, bytes: v.layout.bytes_at(v.disk, places) }),
            name,
            attr,
            first,
            size,
        ).0 is Ok,
        ({
            let held = v.layout.bytes_at(v.disk, places);
            let made_now = stored::new_entries(
                name,
                stored::taken_names(held),
                attr,
                first,
                size,
                w.stamp,
            )->0;
            stored::run_from(held, 0, made_now.len() as int / 32) is None
        }),
    ensures
        laid_out(
            v.layout,
            v.disk,
            w.entry_added(
                dir,
                (ImageModel { places, bytes: v.layout.bytes_at(v.disk, places) }),
                name,
                attr,
                first,
                size,
            ).1.disk,
            dir,
            places,
            new,
        ),
{
    let layout = v.layout;
    let d = v.disk;
    let held = layout.bytes_at(d, places);
    let image = ImageModel { places, bytes: held };
    let taken = stored::taken_names(held);
    let made_now = stored::new_entries(name, taken, attr, first, size, w.stamp)->0;
    let count = made_now.len() as int / 32;
    let none = Seq::<u32>::empty();
    lemma_made(name, taken, attr, first, size, w.stamp);
    assert(made_now.len() == 32 * (made(name, taken).pieces + 1));
    lemma_dir_sectors(layout, d, dir);
    lemma_dir_unchanged(v, w, new, data, dir);
    lemma_held_length(layout, d, places);
    entries::lemma_end_slot(held, 0);
    stored::lemma_no_room(held, 0, count);
    lemma_dir_grown(w, dir, places, count);
    let (result, g) = w.dir_grown(dir, image, count);
    let (at, more) = result->Ok_0;
    let z = g.entries_put(more, at, made_now);
    let chain = layout.chain(w.disk, (layout.dir_start(dir)->0).0)->Ok_0;
    let grown_by = w.clusters_for(32 * (count - (entries::slot_count(held) - at)));
    let extra = w.allocated(grown_by)->0;
    let extra_sectors = layout.sectors_of(extra);
    lemma_multiple(grown_by, layout.sectors_per_cluster as int);
    let after = bytes::splice(more.bytes, 32 * at, made_now);
    lemma_dir_sectors(layout, g.disk, dir);
    lemma_held_length(layout, g.disk, more.places);
    lemma_dir_stored(layout, g.disk, dir, more.places, after, at, at + count);
    lemma_dir_kept(layout, g.disk, z.disk, dir);
    let changed = extra.push(chain.last());
    lemma_only_both(
        layout,
        w.disk,
        g.disk,
        z.disk,
        extra_sectors,
        changed,
        more.places,
        none,
    );
    assert(changed + none =~= changed);
    let later = extra_sectors + more.places;
    lemma_grown_apart(v, w, new, data, dir, places, chain, extra);
    assert forall|i: int| 0 <= i < later.len() implies !layout.sectors_of(new).contains(
        #[trigger] later[i],
    ) && (in_free(layout, d, later[i]) || places.contains(later[i])) by {
        lemma_later_place(layout, d, new, extra, changed, places, more.places, later, i);
    }
    lemma_still_chained(v, w, z, new, data, later, changed);
    let now = more.places;
    assert forall|i: int| 0 <= i < now.len() implies !layout.sectors_of(new).contains(
        #[trigger] now[i],
    ) && (in_free(layout, d, now[i]) || places.contains(now[i])) by {
        assert(later[extra_sectors.len() + i] == now[i]);
    }
    lemma_laid_out(layout, d, z.disk, dir, places, new, now);
}

/// Where a new file and its directory are once its entries are stored.
pub proof fn lemma_added_laid_out(
    v: Volume,
    w: Volume,
    new: Seq<u32>,
    dir: Dir,
    places: Seq<int>,
    name: Seq<char>,
    data: Seq<u8>,
    first: u32,
    attr: u8,
    size: u32,
)
    requires
        sound(v.layout, v.disk),
        put_in(v, w, new, data),
        plain_name(name),
        attr == entries::ATTR_ARCHIVE || attr == entries::ATTR_DIRECTORY,
        v.layout.dir_sectors(v.disk, dir) == Ok::<Seq<int>, Fault>(places),
        w.entry_added(
            dir,
            (ImageModel { places, bytes: v.layout.bytes_at(v.disk, places) }),
            name,
            attr,
            first,
            size,
        ).0 is Ok,
    ensures
        laid_out(
            v.layout,
            v.disk,
            w.entry_added(
                dir,
                (ImageModel { places, bytes: v.layout.bytes_at(v.disk, places) }),
                name,
                attr,
                first,
                size,
            ).1.disk,
            dir,
            places,
            new,
        ),
{
    let held = v.layout.bytes_at(v.disk, places);
    let made_now = stored::new_entries(
        name,
        stored::taken_names(held),
        attr,
        first,
        size,
        w.stamp,
    )->0;
    if stored::run_from(held, 0, made_now.len() as int / 32) is Some {
        lemma_here_laid_out(v, w, new, dir, places, name, data, first, attr, size);
    } else {
        lemma_grown_laid_out(v, w, new, dir, places, name, data, first, attr, size);
    }
}

/// New clusters stay chained when others change.
proof fn lemma_still_chained(
    v: Volume,
    w: Volume,
    z: Volume,
    new: Seq<u32>,
    data: Seq<u8>,
    places: Seq<int>,
    clusters: Seq<u32>,
)
    requires
        v.layout.wf(),
        put_in(v, w, new, data),
        only(v.layout, w.disk, z.disk, places, clusters),
        apart(places, v.layout.sectors_of(new)),
        forall|k: int| 0 <= k < clusters.len() ==> !new.contains(#[trigger] clusters[k]),
    ensures
        new.len() > 0 ==> v.layout.chain(z.disk, new[0]) == Ok::<Seq<u32>, Fault>(new),
{
    if new.len() > 0 {
        lemma_put_kept(
            v.layout,
            w.disk,
            z.disk,
            new,
            change::padded(data, new.len() * v.layout.cluster_bytes()),
            places,
            clusters,
        );
        lemma_put_read(v.layout, z.disk, new, data);
    }
}

/// A cluster that is still free after others were chained isn't one of them.
pub proof fn lemma_linked_used(layout: Layout, disk: Disk, new: Seq<u32>, c: u32, data: Seq<u8>)
    requires
        layout.wf(),
        layout.fat_entry(disk, c) == 0,
        new.len() > 0 ==> crate::fat::write::all_there(layout, new) && forall|k: int|
            0 <= k < new.len() ==> #[trigger] layout.fat_entry(disk, new[k]) == next_of(
                layout,
                new,
                k,
            ),
    ensures
        !new.contains(c),
{
    if new.contains(c) {
        let k = choose|k: int| 0 <= k < new.len() && new[k] == c;
        assert(layout.fat_entry(disk, new[k]) == next_of(layout, new, k));
        if k + 1 < new.len() {
            assert(layout.has_cluster(new[k + 1]));
        }
    }
}

/// Where the sectors are that a directory that grew has.
pub proof fn lemma_later_place(
    layout: Layout,
    disk: Disk,
    new: Seq<u32>,
    extra: Seq<u32>,
    changed: Seq<u32>,
    places: Seq<int>,
    more_places: Seq<int>,
    later: Seq<int>,
    i: int,
)
    requires
        layout.wf(),
        crate::fat::write::all_there(layout, extra),
        changed.len() > extra.len(),
        forall|k: int| 0 <= k < extra.len() ==> changed[k] == #[trigger] extra[k],
        forall|k: int|
            0 <= k < changed.len() ==> !new.contains(#[trigger] changed[k]) && (layout.fat_entry(
                disk,
                changed[k],
            ) == 0 || places.contains(layout.first_sector(changed[k]))),
        forall|k: int|
            0 <= k < places.len() ==> !in_free(layout, disk, #[trigger] places[k])
                && !layout.sectors_of(new).contains(places[k]),
        forall|c: u32|
            layout.has_cluster(c) && places.contains(#[trigger] layout.first_sector(c))
                && extra.contains(c) ==> false,
        more_places == places + layout.sectors_of(extra),
        later == layout.sectors_of(extra) + more_places,
        0 <= i < later.len(),
    ensures
        !layout.sectors_of(new).contains(later[i]),
        in_free(layout, disk, later[i]) || places.contains(later[i]),
{
    let t = later[i];
    let extra_sectors = layout.sectors_of(extra);
    if extra_sectors.contains(t) {
        lemma_sector_of(layout, extra, t);
        let k = choose|k: int| 0 <= k < extra.len() && in_cluster(layout, #[trigger] extra[k], t);
        let c = extra[k];
        assert(changed[k] == extra[k]);
        assert(!new.contains(changed[k]));
        assert(layout.has_cluster(extra[k]));
        assert(extra.contains(c));
        assert(layout.fat_entry(disk, c) == 0);
        if layout.sectors_of(new).contains(t) {
            lemma_sector_of(layout, new, t);
            let m = choose|m: int| 0 <= m < new.len() && in_cluster(layout, #[trigger] new[m], t);
            lemma_clusters_apart(layout, c, new[m], t);
            assert(new.contains(new[m]));
        }
    } else {
        lemma_concat_contains(extra_sectors, more_places, t);
        assert(later.contains(t));
        lemma_concat_contains(places, extra_sectors, t);
        let m = choose|m: int| 0 <= m < places.len() && places[m] == t;
        assert(!layout.sectors_of(new).contains(places[m]));
    }
}

/// Where a run of free slots is found, it starts no later than where the entries end.
pub proof fn lemma_run_place(dir: Seq<u8>, count: int)
    requires
        count > 0,
    ensures
        stored::run_from(dir, 0, count) matches Some(at) ==> at <= entries::end_slot(dir, 0),
{
    stored::lemma_run_fits(dir, 0, count);
    entries::lemma_end_slot(dir, 0);
    if let Some(at) = stored::run_from(dir, 0, count) {
        let end = entries::end_slot(dir, 0);
        if at > end {
            assert(stored::fits_at(dir, end, count));
        }
    }
}

/// Where the data of the file at a path starts, if it is there (0 if it has none).
pub open spec fn old_start(v: Volume, held: Seq<u8>, name: Seq<char>) -> u32 {
    match entries::entry_for(held, v.layout.fat_type, name) {
        Some(located) => located.entry.first_cluster.0,
        None => 0,
    }
}

/// Whether a volume is ready for a change of what is at `path`: its FAT has an entry for every
/// cluster; and the directories on the way, the directory itself and what is at the path share
/// no sector.
pub open spec fn ready(v: Volume, path: Seq<char>) -> bool {
    let (parent, name) = volume::split_path(path);
    &&& sound(v.layout, v.disk)
    &&& v.layout.dir_of(v.disk, parent) matches Ok(dir) ==> (v.layout.dir_sectors(
        v.disk,
        dir,
    ) matches Ok(places) ==> {
        let held = v.layout.bytes_at(v.disk, places);
        let old = old_start(v, held, name);
        &&& old != 0 ==> v.layout.chain(v.disk, old) is Ok
        &&& apart(places, sectors_from(v.layout, v.disk, old))
        &&& way_clear(
            v.layout,
            v.disk,
            Dir::Root,
            text::pieces_from(parent, 0, '/'),
            places + sectors_from(v.layout, v.disk, old),
        )
    })
}

/// Whether a volume is in order as far as storing a name at `path` goes: it is ready for that;
/// the name can be stored so that it comes back; and no piece of a long name is stray in the
/// directory.
pub open spec fn in_order(v: Volume, path: Seq<char>) -> bool {
    let (parent, name) = volume::split_path(path);
    &&& ready(v, path)
    &&& plain_name(name)
    &&& v.layout.dir_of(v.disk, parent) matches Ok(dir) ==> (v.layout.dir_sectors(
        v.disk,
        dir,
    ) matches Ok(places) ==> no_stray_pieces(v.layout.bytes_at(v.disk, places)))
}

/// What is put in a directory's file is there.
pub proof fn lemma_file_put(v: Volume, dir: Dir, places: Seq<int>, name: Seq<char>, data: Seq<u8>)
    requires
        sound(v.layout, v.disk),
        plain_name(name),
        data.len() <= u32::MAX,
        v.layout.dir_sectors(v.disk, dir) == Ok::<Seq<int>, Fault>(places),
        no_stray_pieces(v.layout.bytes_at(v.disk, places)),
        ({
            let old = old_start(v, v.layout.bytes_at(v.disk, places), name);
            &&& old != 0 ==> v.layout.chain(v.disk, old) is Ok
            &&& apart(places, sectors_from(v.layout, v.disk, old))
        }),
        v.file_put(
            dir,
            (ImageModel { places, bytes: v.layout.bytes_at(v.disk, places) }),
            name,
            data,
        ).0 is Ok,
    ensures
        ({
            let held = v.layout.bytes_at(v.disk, places);
            let z = v.file_put(dir, (ImageModel { places, bytes: held }), name, data).1;
            let old = old_start(v, held, name);
            &&& z.layout == v.layout
            &&& sound(v.layout, z.disk)
            &&& spared(
                v.layout,
                v.disk,
                z.disk,
                places + sectors_from(v.layout, v.disk, old),
            )
            &&& has_file(v.layout, z.disk, dir, name, data)
            &&& says_the_rest(v.layout, z.disk, dir, held, name)
        }),
{
    let held = v.layout.bytes_at(v.disk, places);
    let b = v.begun();
    let w = b.chain_written(data).1;
    let first = b.chain_written(data).0->Ok_0;
    lemma_chain_written(b, data);
    let new = clusters_taken(b, data);
    assert(put_in(b, w, new, data));
    match entries::entry_for(held, v.layout.fat_type, name) {
        Some(located) => {
            lemma_replaced(b, w, new, dir, places, name, data, first);
        },
        None => {
            lemma_added(
                b,
                w,
                new,
                dir,
                places,
                name,
                data,
                first,
                entries::ATTR_ARCHIVE,
                data.len() as u32,
            );
            assert(places + Seq::<int>::empty() =~= places);
        },
    }
}

/// What is written to a file is what reading it gives back, whether the file is new or there
/// already, on every volume that is in order.
pub proof fn written_files_read_back(v: Volume, path: Seq<char>, data: Seq<u8>)
    requires
        in_order(v, path),
        v.file_written(path, data).0 is Ok,
    ensures
        v.layout.file_of(v.file_written(path, data).1.disk, path) == Ok::<Seq<u8>, Fault>(data),
{
    let layout = v.layout;
    let (parent, name) = volume::split_path(path);
    let dir = layout.dir_of(v.disk, parent)->Ok_0;
    let places = layout.dir_sectors(v.disk, dir)->Ok_0;
    let held = layout.bytes_at(v.disk, places);
    let old = old_start(v, held, name);
    let touched = places + sectors_from(layout, v.disk, old);
    let z = v.file_changed(path, data).1;
    lemma_file_put(v, dir, places, name, data);
    lemma_finished(z);
    let last = z.finished().disk;
    lemma_fat_end(layout);
    lemma_entry_kept(layout, z.disk, last, dir, name, entries::ATTR_ARCHIVE, data);
    lemma_finished_spared(v, z, dir, parent, touched);
}

/// The way to a directory stays when a change that spared it is finished.
pub proof fn lemma_finished_spared(v: Volume, z: Volume, dir: Dir, parent: Seq<char>, touched: Seq<int>)
    requires
        sound(v.layout, v.disk),
        z.layout == v.layout,
        sound(v.layout, z.disk),
        spared(v.layout, v.disk, z.disk, touched),
        v.layout.dir_of(v.disk, parent) == Ok::<Dir, Fault>(dir),
        way_clear(
            v.layout,
            v.disk,
            Dir::Root,
            text::pieces_from(parent, 0, '/'),
            touched,
        ),
    ensures
        v.layout.dir_of(z.finished().disk, parent) == Ok::<Dir, Fault>(dir),
{
    let layout = v.layout;
    let last = z.finished().disk;
    lemma_finished(z);
    lemma_fat_end(layout);
    assert(spared(layout, v.disk, last, touched)) by {
        assert forall|c: u32|
            layout.has_cluster(c) && layout.fat_entry(v.disk, c) != 0 && !touched.contains(
                layout.first_sector(c),
            ) implies #[trigger] layout.fat_entry(last, c) == layout.fat_entry(v.disk, c) by {
            assert(layout.fat_entry(z.disk, c) == layout.fat_entry(v.disk, c));
        }
        assert forall|t: int|
            fat_end(layout) <= t <= 0xFFFF_FFFF && !touched.contains(t) && !in_free(
                layout,
                v.disk,
                t,
            ) implies #[trigger] layout.sector(last, t) == layout.sector(v.disk, t) by {
            assert(layout.sector(z.disk, t) == layout.sector(v.disk, t));
        }
    }
    lemma_way_spared(
        layout,
        v.disk,
        last,
        Dir::Root,
        text::pieces_from(parent, 0, '/'),
        touched,
    );
}

/// A file or directory is still there when neither the FAT nor what is after it changes.
proof fn lemma_entry_kept(
    layout: Layout,
    a: Disk,
    b: Disk,
    dir: Dir,
    name: Seq<char>,
    attr: u8,
    data: Seq<u8>,
)
    requires
        sound(layout, a),
        has_entry(layout, a, dir, name, attr, data),
        forall|t: int|
            fat_end(layout) <= t <= 0xFFFF_FFFF ==> #[trigger] layout.sector(b, t)
                == layout.sector(a, t),
        forall|o: u32|
            layout.has_cluster(o) ==> #[trigger] layout.fat_entry(b, o) == layout.fat_entry(a, o),
    ensures
        has_entry(layout, b, dir, name, attr, data),
{
    lemma_bytes_kept(layout, a, b, dir);
    let located = layout.lookup(a, dir, name)->Ok_0;
    lemma_bytes_kept(layout, a, b, Dir::Chain(located.entry.first_cluster));
    let first = located.entry.first_cluster.0;
    let need = Some(data.len() as int);
    let left = layout.cluster_count as nat;
    if data.len() > 0 {
        let clusters = layout.chain_from(a, first, left, need)->Ok_0;
        read::lemma_chain_valid(layout, a, first, left, need);
        assert forall|k: int| 0 <= k < clusters.len() implies layout.fat_entry(
            b,
            #[trigger] clusters[k],
        ) == layout.fat_entry(a, clusters[k]) by {
            assert(layout.has_cluster(clusters[k]));
        }
        lemma_chain_same(layout, a, b, first, left, need);
        lemma_past_fats(layout, clusters);
        let sectors = layout.sectors_of(clusters);
        assert forall|i: int| 0 <= i < sectors.len() implies layout.sector(
            a,
            #[trigger] sectors[i],
        ) == layout.sector(b, sectors[i]) by {}
        lemma_bytes_same(layout, a, b, sectors);
    }
}

/// The sectors of clusters are after the FATs.
pub proof fn lemma_past_fats(layout: Layout, clusters: Seq<u32>)
    requires
        layout.wf(),
        crate::fat::write::all_there(layout, clusters),
    ensures
        past_fats(layout, layout.sectors_of(clusters)),
{
    let sectors = layout.sectors_of(clusters);
    lemma_fat_end(layout);
    assert forall|i: int| 0 <= i < sectors.len() implies fat_end(layout) <= #[trigger] sectors[i]
        <= 0xFFFF_FFFF by {
        assert(sectors.contains(sectors[i]));
        lemma_sector_of(layout, clusters, sectors[i]);
        let k = choose|k: int|
            0 <= k < clusters.len() && in_cluster(layout, #[trigger] clusters[k], sectors[i]);
        layout.lemma_cluster_place(clusters[k]);
    }
}

/// What a directory holds stays when neither the FAT nor what is after it changes.
pub proof fn lemma_bytes_kept(layout: Layout, a: Disk, b: Disk, dir: Dir)
    requires
        sound(layout, a),
        forall|t: int|
            fat_end(layout) <= t <= 0xFFFF_FFFF ==> #[trigger] layout.sector(b, t)
                == layout.sector(a, t),
        forall|o: u32|
            layout.has_cluster(o) ==> #[trigger] layout.fat_entry(b, o) == layout.fat_entry(a, o),
    ensures
        layout.dir_bytes(a, dir) is Ok ==> layout.dir_bytes(b, dir) == layout.dir_bytes(a, dir),
{
    if let Ok(places) = layout.dir_sectors(a, dir) {
        lemma_dir_kept(layout, a, b, dir);
        lemma_dir_sectors(layout, a, dir);
        assert forall|i: int| 0 <= i < places.len() implies layout.sector(a, #[trigger] places[i])
            == layout.sector(b, places[i]) by {}
        lemma_bytes_same(layout, a, b, places);
    }
}

/// The 8.3 name of "." or ".." is that.
proof fn lemma_dot_name(slot: Seq<u8>, dots: int)
    requires
        slot.len() == 32,
        1 <= dots <= 2,
        slot.subrange(0, 11) == change::dot_name(dots),
        slot[12] == 0,
    ensures
        names::short_name_in(slot) == Seq::new(dots as nat, |i: int| '.'),
{
    let name = change::dot_name(dots);
    assert forall|i: int| 0 <= i < 11 implies slot[i] == name[i] by {
        assert(slot.subrange(0, 11)[i] == name[i]);
    }
    let base = slot.subrange(0, 8);
    let ext = slot.subrange(8, 11);
    let base_chars = Seq::new(8, |i: int| base[i] as char);
    let ext_chars = Seq::new(3, |i: int| ext[i] as char);
    names::lemma_trimmed(base_chars);
    names::lemma_trimmed(ext_chars);
    assert(ext_chars.len() == ext.len() && base_chars.len() == base.len());
    let n = names::trimmed(base_chars).len() as int;
    if n > dots {
        assert(names::trimmed(base_chars).last() == base_chars[n - 1]);
        assert(base[n - 1] == 0x20);
    }
    if n < dots {
        assert(base[n] == 0x2E);
        assert(names::is_space(base_chars[n]));
    }
    let m = names::trimmed(ext_chars).len() as int;
    if m > 0 {
        assert(names::trimmed(ext_chars).last() == ext_chars[m - 1]);
        assert(ext[m - 1] == 0x20);
    }
    assert(names::trimmed(base_chars) =~= Seq::new(dots as nat, |i: int| '.'));
    assert(names::short_part(base, false) == names::trimmed(base_chars));
    assert(names::short_part(ext, false) == names::trimmed(ext_chars));
}

/// A new directory lists nothing.
pub proof fn lemma_dots_empty(v: Volume, cluster: u32, dir: Dir, length: int)
    requires
        length >= 512,
    ensures
        entries::listing(
            change::padded(v.dots(cluster, dir), length),
            v.layout.fat_type,
        ).len() == 0,
        entries::end_slot(change::padded(v.dots(cluster, dir), length), 0) == 2,
        forall|i: int|
            0 <= i < 2 ==> !entries::is_long(
                #[trigger] entries::slot_at(change::padded(v.dots(cluster, dir), length), i),
            ) && !entries::is_listed(change::padded(v.dots(cluster, dir), length), i),
{
    let all = change::padded(v.dots(cluster, dir), length);
    let parent = match dir {
        Dir::Root => 0,
        Dir::Chain(first) => first.0,
    };
    let one = stored::own_entry(
        change::dot_name(1),
        0,
        entries::ATTR_DIRECTORY,
        cluster,
        0,
        v.stamp,
    );
    let two = stored::own_entry(
        change::dot_name(2),
        0,
        entries::ATTR_DIRECTORY,
        parent,
        0,
        v.stamp,
    );
    assert(entries::slot_at(all, 0) =~= one);
    assert(entries::slot_at(all, 1) =~= two);
    assert(one.subrange(0, 11) =~= change::dot_name(1));
    assert(two.subrange(0, 11) =~= change::dot_name(2));
    assert(one[11] == 0x10 && one[12] == 0 && two[12] == 0);
    lemma_dot_name(one, 1);
    lemma_dot_name(two, 2);
    assert(all[0] == one[0] && all[32] == two[0] && all[64] == 0);
    assert(entries::end_slot(all, 2) == 2);
    assert(entries::end_slot(all, 1) == 2);
    assert(entries::end_slot(all, 0) == 2);
    assert(entries::pieces_from(all, 0, 1) == 0);
    assert(!entries::is_piece(all, 1, 1));
    assert(entries::pieces_from(all, 1, 1) == 0);
    assert(entries::name_at(all, 0) =~= seq!['.']);
    assert(entries::name_at(all, 1) =~= seq!['.', '.']);
    assert(entries::listed(all, v.layout.fat_type, 0).len() == 0);
    assert(entries::listed(all, v.layout.fat_type, 1).len() == 0);
    assert(entries::listed(all, v.layout.fat_type, 2).len() == 0);
}

/// What is known once an empty directory is made.
#[verifier::spinoff_prover]
pub proof fn lemma_dir_made(v: Volume, path: Seq<char>, dir: Dir, places: Seq<int>)
    requires
        in_order(v, path),
        v.dir_changed(path).0 is Ok,
        v.layout.dir_of(v.disk, volume::split_path(path).0) == Ok::<Dir, Fault>(dir),
        v.layout.dir_sectors(v.disk, dir) == Ok::<Seq<int>, Fault>(places),
    ensures
        ({
            let name = volume::split_path(path).1;
            let clusters = v.begun().allocated(1)->0;
            let z = v.dir_changed(path).1;
            &&& z.layout == v.layout
            &&& sound(v.layout, z.disk)
            &&& spared(v.layout, v.disk, z.disk, places)
            &&& has_entry(
                v.layout,
                z.disk,
                dir,
                name,
                entries::ATTR_DIRECTORY,
                v.dots(clusters[0], dir),
            )
            &&& says_the_rest(v.layout, z.disk, dir, v.layout.bytes_at(v.disk, places), name)
        }),
{
    let layout = v.layout;
    let name = volume::split_path(path).1;
    let b = v.begun();
    let clusters = b.allocated(1)->0;
    let dots = v.dots(clusters[0], dir);
    let size = layout.cluster_bytes();
    assert(dots.len() == 64);
    assert((64 + size - 1) / size == 1) by (nonlinear_arith)
        requires
            size >= 512,
    ;
    assert(b.chain_written(dots) == (
        Ok::<u32, Fault>(clusters[0]),
        b.with_chain(clusters, dots),
    ));
    lemma_chain_written(b, dots);
    let w = b.with_chain(clusters, dots);
    assert(clusters_taken(b, dots) == clusters);
    lemma_added(
        b,
        w,
        clusters,
        dir,
        places,
        name,
        dots,
        clusters[0],
        entries::ATTR_DIRECTORY,
        0,
    );
}

/// A directory that is made is there, and lists nothing, on every volume that is in order.
#[verifier::rlimit(30)]
#[verifier::spinoff_prover]
pub proof fn made_directories_are_empty(v: Volume, path: Seq<char>)
    requires
        in_order(v, path),
        v.dir_created(path).0 is Ok,
    ensures
        ({
            let after = v.dir_created(path).1.disk;
            &&& v.layout.entry_of(after, path) matches Ok(entry)
            &&& entry.kind == EntryKind::Directory
            &&& v.layout.dir_bytes(after, volume::dir_at(entry.first_cluster)) matches Ok(held)
            &&& entries::listing(held, v.layout.fat_type).len() == 0
        }),
{
    let layout = v.layout;
    let (parent, name) = volume::split_path(path);
    let dir = layout.dir_of(v.disk, parent)->Ok_0;
    let places = layout.dir_sectors(v.disk, dir)->Ok_0;
    let clusters = v.begun().allocated(1)->0;
    let dots = v.dots(clusters[0], dir);
    let size = layout.cluster_bytes();
    assert(dots.len() == 64);
    lemma_dir_made(v, path, dir, places);
    let z = v.dir_changed(path).1;
    lemma_finished(z);
    let last = z.finished().disk;
    lemma_fat_end(layout);
    lemma_entry_kept(layout, z.disk, last, dir, name, entries::ATTR_DIRECTORY, dots);
    assert(places + sectors_from(layout, v.disk, 0) =~= places);
    lemma_finished_spared(v, z, dir, parent, places);
    lemma_dots_empty(v, clusters[0], dir, size);
}

// Removing.
/// What a directory with slots marked deleted holds.
pub proof fn lemma_deleted(dir: Seq<u8>, from: int, to: int)
    requires
        0 <= from,
        32 * to <= dir.len(),
    ensures
        change::with_deleted(dir, from, to).len() == dir.len(),
        forall|i: int|
            0 <= i < dir.len() ==> #[trigger] change::with_deleted(dir, from, to)[i] == if i % 32
                == 0 && from <= i / 32 < to {
                entries::ENTRY_DELETED
            } else {
                dir[i]
            },
    decreases to - from,
{
    if from < to {
        lemma_deleted(dir, from, to - 1);
    }
}

/// Names don't depend on what is before a slot that holds no piece of a long name.
pub proof fn lemma_pieces_past(a: Seq<u8>, b: Seq<u8>, low: int, i: int, k: int)
    requires
        0 <= low < i < entries::slot_count(a),
        a.len() == b.len(),
        1 <= k <= i - low,
        !entries::is_long(entries::slot_at(a, low)),
        !entries::is_long(entries::slot_at(b, low)),
        forall|j: int|
            low < j < entries::slot_count(a) ==> #[trigger] entries::slot_at(a, j)
                == entries::slot_at(b, j),
    ensures
        entries::pieces_from(a, i, k) == entries::pieces_from(b, i, k),
        entries::pieces_from(a, i, k) > 0 ==> entries::pieces_from(a, i, k) < i - low,
    decreases 32 - k,
{
    if k <= 31 {
        assert(entries::slot_at(a, i) == entries::slot_at(b, i));
        if i - k > low {
            let x = entries::slot_at(a, i - k);
            assert(x == entries::slot_at(b, i - k));
            assert(a[32 * (i - k)] == x[0] && b[32 * (i - k)] == entries::slot_at(b, i - k)[0]);
            lemma_pieces_past(a, b, low, i, k + 1);
        } else {
            assert(i - k == low);
        }
    }
}

pub proof fn lemma_units_past(a: Seq<u8>, b: Seq<u8>, low: int, i: int, k: int)
    requires
        0 <= k < i - low,
        i < entries::slot_count(a),
        forall|j: int|
            low < j < entries::slot_count(a) ==> #[trigger] entries::slot_at(a, j)
                == entries::slot_at(b, j),
    ensures
        entries::long_units(a, i, k) == entries::long_units(b, i, k),
    decreases k,
{
    if k > 0 {
        lemma_units_past(a, b, low, i, k - 1);
        assert(entries::slot_at(a, i - k) == entries::slot_at(b, i - k));
    }
}

/// Whether a directory lists a name once at most.
pub open spec fn listed_once(dir: Seq<u8>, name: Seq<char>) -> bool {
    forall|i: int, j: int|
        0 <= i < j < entries::end_slot(dir, 0) ==> !(#[trigger] lists(dir, name, i)
            && #[trigger] lists(dir, name, j))
}

/// Whether slot `i` of a directory lists `name`, but for case.
pub open spec fn lists(dir: Seq<u8>, name: Seq<char>, i: int) -> bool {
    entries::is_listed(dir, i) && names::same_name(entries::name_at(dir, i), name)
}

/// A name whose entry is marked deleted is listed no more.
#[verifier::rlimit(30)]
#[verifier::spinoff_prover]
pub proof fn lemma_gone(dir: Seq<u8>, fat_type: FatType, name: Seq<char>)
    requires
        entries::entry_for(dir, fat_type, name) is Some,
        listed_once(dir, name),
    ensures
        ({
            let located = entries::entry_for(dir, fat_type, name)->0;
            let after = change::with_deleted(dir, located.first_slot, located.slot + 1);
            &&& 0 <= located.first_slot <= located.slot < entries::slot_count(dir)
            &&& after.len() == dir.len()
            &&& forall|i: int|
                0 <= i < dir.len() && !(32 * located.first_slot <= i < 32 * (located.slot + 1))
                    ==> #[trigger] after[i] == dir[i]
            &&& entries::entry_for(after, fat_type, name) is None
        }),
{
    let end = entries::end_slot(dir, 0);
    entries::lemma_end_slot(dir, 0);
    lemma_slot_first(dir, name, 0, end);
    let located = entries::entry_for(dir, fat_type, name)->0;
    let slot = located.slot;
    let from = located.first_slot;
    entries::lemma_pieces(dir, slot, 1);
    let after = change::with_deleted(dir, from, slot + 1);
    lemma_deleted(dir, from, slot + 1);
    let count = entries::slot_count(dir);
    assert forall|i: int| 0 <= i < end implies after[#[trigger] (32 * i)] != entries::ENTRY_END by {
        assert(dir[32 * i] != entries::ENTRY_END);
    }
    lemma_end_after(after, 0, end);
    if end < count {
        assert(after[32 * end] == dir[32 * end]);
    }
    assert(entries::end_slot(after, end) == end);
    assert forall|i: int| 0 <= i < from implies same_head(
        #[trigger] entries::slot_at(dir, i),
        entries::slot_at(after, i),
    ) by {
        assert(entries::slot_at(dir, i) =~= entries::slot_at(after, i));
    }
    assert forall|j: int| slot < j < count implies #[trigger] entries::slot_at(dir, j)
        == entries::slot_at(after, j) by {
        assert(entries::slot_at(dir, j) =~= entries::slot_at(after, j));
    }
    assert(entries::slot_at(after, slot)[0] == after[32 * slot]);
    lemma_slot_first(after, name, 0, end);
    if let Some(i) = entries::slot_of(after, name, 0, end) {
        assert(lists(dir, name, slot));
        if i < from {
            assert(alike(dir, after, from));
            lemma_names_alike(dir, after, from, i);
            assert(!(entries::is_listed(dir, i) && names::same_name(
                entries::name_at(dir, i),
                name,
            )));
        } else if i <= slot {
            assert(entries::slot_at(after, i)[0] == after[32 * i]);
            assert(after[32 * i] == entries::ENTRY_DELETED);
        } else {
            lemma_pieces_past(dir, after, slot, i, 1);
            entries::lemma_pieces(dir, i, 1);
            lemma_units_past(dir, after, slot, i, entries::pieces_from(dir, i, 1));
            assert(entries::slot_at(dir, i) == entries::slot_at(after, i));
            assert(lists(dir, name, i));
        }
        assert(false);
    }
}

/// What is removed isn't found any more, on every volume that is ready for it and whose directory
/// lists the name once.
pub proof fn removed_paths_are_not_found(v: Volume, path: Seq<char>)
    requires
        ready(v, path),
        ({
            let (parent, name) = volume::split_path(path);
            v.layout.dir_of(v.disk, parent) matches Ok(dir) && v.layout.dir_bytes(
                v.disk,
                dir,
            ) matches Ok(held) && listed_once(held, name)
        }),
        v.removed(path).0 is Ok,
    ensures
        v.layout.entry_of(v.removed(path).1.disk, path) == Err::<entries::EntryModel, Fault>(
            Fault::NotFound,
        ),
{
    let layout = v.layout;
    let (parent, name) = volume::split_path(path);
    let dir = layout.dir_of(v.disk, parent)->Ok_0;
    let places = layout.dir_sectors(v.disk, dir)->Ok_0;
    let held = layout.bytes_at(v.disk, places);
    let located = entries::entry_for(held, layout.fat_type, name)->0;
    let old = located.entry.first_cluster.0;
    let b = v.begun();
    let image = ImageModel { places, bytes: held };
    let changed = ImageModel {
        bytes: change::with_deleted(held, located.first_slot, located.slot + 1),
        ..image
    };
    let x = b.dir_stored(changed, located.first_slot, located.slot + 1);
    let none = Seq::<u32>::empty();
    let no_data = Seq::<u8>::empty();
    lemma_gone(held, layout.fat_type, name);
    lemma_dir_sectors(layout, v.disk, dir);
    lemma_held_length(layout, v.disk, places);
    lemma_dir_stored(
        layout,
        b.disk,
        dir,
        places,
        changed.bytes,
        located.first_slot,
        located.slot + 1,
    );
    assert(layout.sectors_of(none) + places =~= places);
    lemma_dir_kept(layout, b.disk, x.disk, dir);
    lemma_freed_after(b, x, none, dir, places, changed.bytes, no_data, old);
    let z = v.path_removed(path).1;
    assert(z == x.chain_freed(old).1);
    lemma_finished(z);
    lemma_fat_end(layout);
    lemma_bytes_kept(layout, z.disk, z.finished().disk, dir);
    lemma_finished_spared(v, z, dir, parent, places + sectors_from(layout, v.disk, old));
}

} // verus!
