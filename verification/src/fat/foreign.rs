//! Volumes as other systems write them, byte by byte, and what is read of them.

use super::entries::{Cluster, EntryKind, FatType};
use super::names;
use super::volume;
use super::volume::{Dir, Disk, Fault, Layout, Link, RootDir};
use crate::bytes;
use vstd::prelude::*;

verus! {

/// Byte number `n` of a volume.
pub open spec fn volume_byte(layout: Layout, disk: Disk, n: int) -> u8 {
    disk[(layout.start + n / 512) as u64][n % 512]
}

/// What the FAT has for cluster `c`: the 16-bit word number `c` of it on FAT16, the low 28 bits of
/// the 32-bit word number `c` on FAT32, the low bytes first.
pub open spec fn stored_entry(layout: Layout, disk: Disk, c: u32) -> int {
    if layout.fat_type == FatType::Fat16 {
        let at = 512 * layout.fat_start + 2 * c;
        volume_byte(layout, disk, at) + 256 * volume_byte(layout, disk, at + 1)
    } else {
        let at = 512 * layout.fat_start + 4 * c;
        (volume_byte(layout, disk, at) + 256 * volume_byte(layout, disk, at + 1) + 65536
            * volume_byte(layout, disk, at + 2) + 16777216 * volume_byte(layout, disk, at + 3))
            % 0x1000_0000
    }
}

/// The lowest of the entries that end a chain.
pub open spec fn first_end(layout: Layout) -> int {
    if layout.fat_type == FatType::Fat16 {
        0xFFF8
    } else {
        0x0FFF_FFF8
    }
}

/// Whether the FAT links clusters one to the next, and ends after the last: with any of the
/// entries that end a chain.
pub open spec fn linked(layout: Layout, disk: Disk, clusters: Seq<u32>) -> bool {
    &&& clusters.len() > 0
    &&& forall|k: int|
        0 <= k < clusters.len() ==> 2 <= #[trigger] clusters[k] < layout.cluster_count + 2
    &&& forall|k: int|
        0 <= k < clusters.len() - 1 ==> stored_entry(layout, disk, #[trigger] clusters[k])
            == clusters[k + 1]
    &&& stored_entry(layout, disk, clusters[clusters.len() - 1]) >= first_end(layout)
}

/// The bytes of a cluster. The first is number 2.
pub open spec fn cluster_content(layout: Layout, disk: Disk, c: u32) -> Seq<u8> {
    let first = layout.data_start + (c - 2) * layout.sectors_per_cluster;
    Seq::new(
        (512 * layout.sectors_per_cluster) as nat,
        |k: int| volume_byte(layout, disk, 512 * first + k),
    )
}

/// The bytes of clusters, one after another.
pub open spec fn contents(layout: Layout, disk: Disk, clusters: Seq<u32>) -> Seq<u8>
    decreases clusters.len(),
{
    if clusters.len() == 0 {
        Seq::empty()
    } else {
        contents(layout, disk, clusters.drop_last()) + cluster_content(
            layout,
            disk,
            clusters.last(),
        )
    }
}

/// Whether every sector of a volume holds 512 bytes.
pub open spec fn whole_sectors(layout: Layout, disk: Disk) -> bool {
    forall|n: u64|
        layout.start <= n <= layout.start + 0xFFFF_FFFF ==> (#[trigger] disk[n]).len() == 512
}

/// Every FAT entry from 0xFFF8 up ends a chain on FAT16, every one from 0x0FFFFFF8 up on FAT32,
/// where the top four bits don't count; the entry below marks a bad cluster, and all others
/// are the number of the next cluster.
pub proof fn entries_end_chains(layout: Layout, disk: Disk, c: u32)
    requires
        layout.wf(),
        layout.has_cluster(c),
    ensures
        ({
            let entry = stored_entry(layout, disk, c);
            &&& layout.fat_entry(disk, c) == entry
            &&& layout.link(disk, c) == (if entry >= first_end(layout) {
                Link::End
            } else if entry == first_end(layout) - 1 {
                Link::Bad
            } else {
                Link::To(entry as u32)
            })
        }),
{
    let n = 512 * layout.fat_start + c * layout.width();
    if layout.fat_type == FatType::Fat16 {
        assert(c * layout.width() == 2 * c);
    } else {
        assert(c * layout.width() == 4 * c);
    }
    assert(n / 512 == layout.fat_sector(c));
    assert(n % 512 == layout.fat_offset(c));
    assert((n + 1) / 512 == n / 512 && (n + 1) % 512 == n % 512 + 1);
    let block = layout.sector(disk, layout.fat_sector(c));
    let at = layout.fat_offset(c);
    assert(block[at] == volume_byte(layout, disk, n));
    assert(block[at + 1] == volume_byte(layout, disk, n + 1));
    if layout.fat_type == FatType::Fat32 {
        assert((n + 2) / 512 == n / 512 && (n + 2) % 512 == n % 512 + 2);
        assert((n + 3) / 512 == n / 512 && (n + 3) % 512 == n % 512 + 3);
        assert(block[at + 2] == volume_byte(layout, disk, n + 2));
        assert(block[at + 3] == volume_byte(layout, disk, n + 3));
    }
}

/// A chain is followed as far as it has to be.
proof fn lemma_follow(
    layout: Layout,
    disk: Disk,
    clusters: Seq<u32>,
    left: nat,
    need: Option<int>,
) -> (m: int)
    requires
        layout.wf(),
        linked(layout, disk, clusters),
        clusters.len() <= left,
    ensures
        1 <= m <= clusters.len(),
        layout.chain_from(disk, clusters[0], left, need) == Ok::<Seq<u32>, Fault>(
            clusters.subrange(0, m),
        ),
        need is None ==> m == clusters.len(),
        need matches Some(n) ==> (m < clusters.len() ==> m * layout.cluster_bytes() >= n),
    decreases clusters.len(),
{
    let c = clusters[0];
    entries_end_chains(layout, disk, c);
    let more = match need {
        Some(n) => Some(n - layout.cluster_bytes()),
        None => None,
    };
    if clusters.len() == 1 {
        assert(clusters.subrange(0, 1) =~= seq![c]);
        1
    } else {
        let rest = clusters.drop_first();
        assert(stored_entry(layout, disk, clusters[0]) == clusters[1]);
        assert forall|k: int| 0 <= k < rest.len() implies 2 <= #[trigger] rest[k]
            < layout.cluster_count + 2 by {
            assert(rest[k] == clusters[k + 1]);
        }
        assert forall|k: int| 0 <= k < rest.len() - 1 implies stored_entry(
            layout,
            disk,
            #[trigger] rest[k],
        ) == rest[k + 1] by {
            assert(rest[k] == clusters[k + 1]);
            assert(rest[k + 1] == clusters[k + 2]);
        }
        assert(rest[rest.len() - 1] == clusters[clusters.len() - 1]);
        if more matches Some(n) && n <= 0 {
            assert(clusters.subrange(0, 1) =~= seq![c]);
            1
        } else {
            let m = lemma_follow(layout, disk, rest, (left - 1) as nat, more);
            assert(seq![c] + rest.subrange(0, m) =~= clusters.subrange(0, m + 1));
            assert((m + 1) * layout.cluster_bytes() == m * layout.cluster_bytes()
                + layout.cluster_bytes()) by (nonlinear_arith);
            m + 1
        }
    }
}

/// What consecutive sectors hold.
proof fn lemma_run_bytes(layout: Layout, disk: Disk, first: int, n: int)
    requires
        layout.wf(),
        whole_sectors(layout, disk),
        0 <= first,
        0 <= n,
        first + n <= 0x1_0000_0000,
    ensures
        layout.bytes_at(disk, volume::sector_range(first, n)) == Seq::new(
            (512 * n) as nat,
            |k: int| volume_byte(layout, disk, 512 * first + k),
        ),
    decreases n,
{
    let all = Seq::new((512 * n) as nat, |k: int| volume_byte(layout, disk, 512 * first + k));
    let sectors = volume::sector_range(first, n);
    if n == 0 {
        assert(layout.bytes_at(disk, sectors) =~= all);
    } else {
        lemma_run_bytes(layout, disk, first, n - 1);
        assert(sectors.drop_last() =~= volume::sector_range(first, n - 1));
        let last = first + n - 1;
        assert(sectors.last() == last);
        let block = layout.sector(disk, last);
        assert(layout.block(last) == layout.start + last);
        assert(disk[layout.block(last)].len() == 512);
        assert forall|k: int| 0 <= k < 512 implies #[trigger] block[k] == volume_byte(
            layout,
            disk,
            512 * first + (512 * (n - 1) + k),
        ) by {
            let at = 512 * first + (512 * (n - 1) + k);
            assert(at / 512 == last && at % 512 == k);
        }
        assert(layout.bytes_at(disk, sectors) =~= all);
    }
}

/// What the sectors of clusters hold.
proof fn lemma_contents(layout: Layout, disk: Disk, clusters: Seq<u32>)
    requires
        layout.wf(),
        whole_sectors(layout, disk),
        forall|k: int|
            0 <= k < clusters.len() ==> 2 <= #[trigger] clusters[k] < layout.cluster_count + 2,
    ensures
        layout.bytes_at(disk, layout.sectors_of(clusters)) == contents(layout, disk, clusters),
        contents(layout, disk, clusters).len() == clusters.len() * layout.cluster_bytes(),
    decreases clusters.len(),
{
    if clusters.len() > 0 {
        let front = clusters.drop_last();
        let last = clusters[clusters.len() - 1];
        assert forall|k: int| 0 <= k < front.len() implies 2 <= #[trigger] front[k]
            < layout.cluster_count + 2 by {
            assert(front[k] == clusters[k]);
        }
        lemma_contents(layout, disk, front);
        layout.lemma_cluster_place(last);
        let run = volume::sector_range(
            layout.first_sector(last),
            layout.sectors_per_cluster as int,
        );
        lemma_run_bytes(
            layout,
            disk,
            layout.first_sector(last),
            layout.sectors_per_cluster as int,
        );
        layout.lemma_bytes_concat(disk, layout.sectors_of(front), run);
        assert(layout.bytes_at(disk, run) =~= cluster_content(layout, disk, last));
        assert(clusters.len() * layout.cluster_bytes() == (clusters.len() - 1)
            * layout.cluster_bytes() + layout.cluster_bytes()) by (nonlinear_arith);
    } else {
        assert(clusters.len() * layout.cluster_bytes() == 0) by (nonlinear_arith)
            requires
                clusters.len() == 0,
        ;
    }
}

/// What the first clusters hold is the start of what all of them hold.
proof fn lemma_contents_start(layout: Layout, disk: Disk, clusters: Seq<u32>, m: int)
    requires
        0 <= m <= clusters.len(),
    ensures
        contents(layout, disk, clusters.subrange(0, m)).is_prefix_of(
            contents(layout, disk, clusters),
        ),
    decreases clusters.len() - m,
{
    if m < clusters.len() {
        lemma_contents_start(layout, disk, clusters, m + 1);
        let more = clusters.subrange(0, m + 1);
        assert(more.drop_last() =~= clusters.subrange(0, m));
        let a = contents(layout, disk, clusters.subrange(0, m));
        let b = contents(layout, disk, more);
        let all = contents(layout, disk, clusters);
        assert(b.subrange(0, a.len() as int) =~= a);
        assert(all.subrange(0, b.len() as int) == b);
        assert(all.subrange(0, a.len() as int) =~= b.subrange(0, a.len() as int));
    } else {
        assert(clusters.subrange(0, m) =~= clusters);
    }
}

/// A chain has exactly the clusters that its FAT entries lead to, up to the one whose entry ends
/// it, whichever of the entries that end a chain that is. It holds the bytes of these clusters,
/// one after another, and is read without an error: all of it, or as much as is asked for if it
/// has that much.
pub proof fn chains_hold_their_clusters(
    layout: Layout,
    disk: Disk,
    clusters: Seq<u32>,
    n: int,
)
    requires
        layout.wf(),
        whole_sectors(layout, disk),
        linked(layout, disk, clusters),
        clusters.len() <= layout.cluster_count,
        0 <= n,
    ensures
        ({
            let first = clusters[0];
            let all = contents(layout, disk, clusters);
            &&& layout.chain(disk, first) == Ok::<Seq<u32>, Fault>(clusters)
            &&& layout.chain_bytes(disk, first, None) == Ok::<Seq<u8>, Fault>(all)
            &&& all.len() == clusters.len() * (512 * layout.sectors_per_cluster)
            &&& layout.chain_bytes(disk, first, Some(n)) == (if n <= all.len() {
                Ok(all.subrange(0, n))
            } else {
                Err(Fault::Truncated)
            })
        }),
{
    let first = clusters[0];
    let left = layout.cluster_count as nat;
    let all = contents(layout, disk, clusters);
    let m = lemma_follow(layout, disk, clusters, left, None);
    assert(clusters.subrange(0, m) =~= clusters);
    lemma_contents(layout, disk, clusters);
    if n == 0 {
        assert(all.subrange(0, 0) =~= Seq::<u8>::empty());
    } else {
        let few = lemma_follow(layout, disk, clusters, left, Some(n));
        let some = clusters.subrange(0, few);
        assert forall|k: int| 0 <= k < some.len() implies 2 <= #[trigger] some[k]
            < layout.cluster_count + 2 by {
            assert(some[k] == clusters[k]);
        }
        lemma_contents(layout, disk, some);
        lemma_contents_start(layout, disk, clusters, few);
        let part = contents(layout, disk, some);
        assert(all.subrange(0, part.len() as int) =~= part);
        if few == clusters.len() {
            assert(some =~= clusters);
        } else {
            assert(part.len() >= n);
            assert(all.len() >= part.len());
            assert(part.subrange(0, n) =~= all.subrange(0, n));
        }
    }
}

/// A chain that runs into a cluster that is marked bad, or to a number that is no cluster's, is
/// an error that names it; one that doesn't end after as many clusters as there are goes
/// round.
pub proof fn broken_chains_are_told(layout: Layout, disk: Disk, clusters: Seq<u32>)
    requires
        layout.wf(),
        clusters.len() > 0,
        clusters.len() <= layout.cluster_count,
        forall|k: int|
            0 <= k < clusters.len() ==> 2 <= #[trigger] clusters[k] < layout.cluster_count + 2,
        forall|k: int|
            0 <= k < clusters.len() - 1 ==> stored_entry(layout, disk, #[trigger] clusters[k])
                == clusters[k + 1],
        stored_entry(layout, disk, clusters[clusters.len() - 1]) < first_end(layout),
    ensures
        ({
            let last = clusters[clusters.len() - 1];
            let next = stored_entry(layout, disk, last);
            &&& next == first_end(layout) - 1 ==> layout.chain(disk, clusters[0]) == Err::<
                Seq<u32>,
                Fault,
            >(Fault::BadCluster(last))
            &&& next != first_end(layout) - 1 && !(2 <= next < layout.cluster_count + 2)
                ==> layout.chain(disk, clusters[0]) == Err::<Seq<u32>, Fault>(
                Fault::BadCluster(next as u32),
            )
            &&& next != first_end(layout) - 1 && 2 <= next < layout.cluster_count + 2
                && clusters.len() == layout.cluster_count ==> layout.chain(disk, clusters[0])
                == Err::<Seq<u32>, Fault>(Fault::ChainLoop)
        }),
{
    lemma_unended(layout, disk, clusters, layout.cluster_count as nat);
}

proof fn lemma_unended(layout: Layout, disk: Disk, clusters: Seq<u32>, left: nat)
    requires
        layout.wf(),
        0 < clusters.len() <= left,
        forall|k: int|
            0 <= k < clusters.len() ==> 2 <= #[trigger] clusters[k] < layout.cluster_count + 2,
        forall|k: int|
            0 <= k < clusters.len() - 1 ==> stored_entry(layout, disk, #[trigger] clusters[k])
                == clusters[k + 1],
        stored_entry(layout, disk, clusters[clusters.len() - 1]) < first_end(layout),
    ensures
        ({
            let last = clusters[clusters.len() - 1];
            let next = stored_entry(layout, disk, last);
            let chain = layout.chain_from(disk, clusters[0], left, None);
            &&& next == first_end(layout) - 1 ==> chain == Err::<Seq<u32>, Fault>(
                Fault::BadCluster(last),
            )
            &&& next != first_end(layout) - 1 && !(2 <= next < layout.cluster_count + 2)
                ==> chain == Err::<Seq<u32>, Fault>(Fault::BadCluster(next as u32))
            &&& next != first_end(layout) - 1 && 2 <= next < layout.cluster_count + 2
                && clusters.len() == left ==> chain == Err::<Seq<u32>, Fault>(Fault::ChainLoop)
        }),
    decreases clusters.len(),
{
    entries_end_chains(layout, disk, clusters[0]);
    if clusters.len() == 1 {
        let next = stored_entry(layout, disk, clusters[0]);
        reveal_with_fuel(Layout::chain_from, 2);
    } else {
        let rest = clusters.drop_first();
        assert(stored_entry(layout, disk, clusters[0]) == clusters[1]);
        assert forall|k: int| 0 <= k < rest.len() implies 2 <= #[trigger] rest[k]
            < layout.cluster_count + 2 by {
            assert(rest[k] == clusters[k + 1]);
        }
        assert forall|k: int| 0 <= k < rest.len() - 1 implies stored_entry(
            layout,
            disk,
            #[trigger] rest[k],
        ) == rest[k + 1] by {
            assert(rest[k] == clusters[k + 1]);
            assert(rest[k + 1] == clusters[k + 2]);
        }
        assert(rest[rest.len() - 1] == clusters[clusters.len() - 1]);
        lemma_unended(layout, disk, rest, (left - 1) as nat);
    }
}

/// What the root directory holds: on FAT32 what its chain does, which starts where the boot
/// sector says; on FAT16 the sectors between the FATs and the data.
pub proof fn root_directories_hold_their_sectors(
    layout: Layout,
    disk: Disk,
    clusters: Seq<u32>,
)
    requires
        layout.wf(),
        whole_sectors(layout, disk),
        layout.root matches RootDir::Chain(first) ==> linked(layout, disk, clusters)
            && clusters.len() <= layout.cluster_count && clusters[0] == first.0,
    ensures
        layout.dir_bytes(disk, Dir::Root) == Ok::<Seq<u8>, Fault>(
            match layout.root {
                RootDir::Chain(_) => contents(layout, disk, clusters),
                RootDir::Fixed { start, sectors } => Seq::new(
                    (512 * sectors) as nat,
                    |k: int| volume_byte(layout, disk, 512 * start + k),
                ),
            },
        ),
{
    match layout.root {
        RootDir::Chain(first) => {
            chains_hold_their_clusters(layout, disk, clusters, 0);
            lemma_contents(layout, disk, clusters);
        },
        RootDir::Fixed { start, sectors } => {
            lemma_run_bytes(layout, disk, start as int, sectors as int);
        },
    }
}

/// A file holds as much of its chain as its entry says, and one of no bytes holds nothing,
/// wherever its entry points.
pub proof fn files_hold_their_chains(
    layout: Layout,
    disk: Disk,
    path: Seq<char>,
    clusters: Seq<u32>,
)
    requires
        layout.wf(),
        whole_sectors(layout, disk),
        layout.entry_of(disk, path) matches Ok(entry) && (entry.kind == EntryKind::File && entry.size
            > 0 ==> linked(layout, disk, clusters) && clusters.len() <= layout.cluster_count
            && clusters[0] == entry.first_cluster.0),
    ensures
        ({
            let entry = layout.entry_of(disk, path)->Ok_0;
            let all = contents(layout, disk, clusters);
            layout.file_of(disk, path) == (if entry.kind == EntryKind::Directory {
                Err(Fault::NotAFile)
            } else if entry.size == 0 {
                Ok(Seq::empty())
            } else if entry.size <= clusters.len() * (512 * layout.sectors_per_cluster) {
                Ok(all.subrange(0, entry.size as int))
            } else {
                Err(Fault::Truncated)
            })
        }),
{
    let entry = layout.entry_of(disk, path)->Ok_0;
    if entry.kind == EntryKind::File && entry.size > 0 {
        chains_hold_their_clusters(layout, disk, clusters, entry.size as int);
    }
}

/// What a boot sector says of the sizes of things, in sectors: the reserved ones, each FAT, the
/// whole volume. Of the last two there is a short and a long form, used when the short one is 0.
pub open spec fn reserved_in(boot: Seq<u8>) -> int {
    boot[14] + 256 * boot[15]
}

pub open spec fn fat_size_in(boot: Seq<u8>) -> int {
    let short = boot[22] + 256 * boot[23];
    if short != 0 {
        short
    } else {
        boot[36] + 256 * boot[37] + 65536 * boot[38] + 16777216 * boot[39]
    }
}

pub open spec fn volume_size_in(boot: Seq<u8>) -> int {
    let short = boot[19] + 256 * boot[20];
    if short != 0 {
        short
    } else {
        boot[32] + 256 * boot[33] + 65536 * boot[34] + 16777216 * boot[35]
    }
}

/// A boot sector says where everything is: the FATs come after the reserved sectors, the fixed
/// root directory (`root` sectors, as many as its entries of 32 bytes take) after them, and
/// then as many whole clusters as fit, `count`. That number alone says whether it is
/// FAT12, which is refused, FAT16 or FAT32, where the root directory is a chain.
pub proof fn boot_sectors_say_where_everything_is(
    boot: Seq<u8>,
    start: u64,
    root: int,
    count: int,
)
    requires
        boot.len() == 512,
        boot[510] == 0x55,
        boot[511] == 0xAA,
        boot[11] + 256 * boot[12] == 512,
        boot[13] == 1 || boot[13] == 2 || boot[13] == 4 || boot[13] == 8 || boot[13] == 16
            || boot[13] == 32 || boot[13] == 64 || boot[13] == 128,
        reserved_in(boot) > 0,
        boot[16] > 0,
        fat_size_in(boot) > 0,
        0 <= root,
        512 * root >= 32 * (boot[17] + 256 * boot[18]) > 512 * (root - 1),
        ({
            let data = reserved_in(boot) + boot[16] * fat_size_in(boot) + root;
            &&& data < volume_size_in(boot)
            &&& data + count * boot[13] <= volume_size_in(boot)
            &&& volume_size_in(boot) < data + (count + 1) * boot[13]
        }),
    ensures
        ({
            let after_fats = reserved_in(boot) + boot[16] * fat_size_in(boot);
            let info = boot[48] + 256 * boot[49];
            match volume::layout_in(boot, start) {
                Err(fault) => count < 4085 && fault == Fault::Fat12,
                Ok(layout) => {
                    &&& count >= 4085
                    &&& layout.start == start
                    &&& layout.sectors_per_cluster == boot[13]
                    &&& layout.fat_start == reserved_in(boot)
                    &&& layout.fat_count == boot[16]
                    &&& layout.fat_size == fat_size_in(boot)
                    &&& layout.data_start == after_fats + root
                    &&& count < 65525 ==> {
                        &&& layout.fat_type == FatType::Fat16
                        &&& layout.cluster_count == count
                        &&& layout.fsinfo is None
                        &&& layout.root matches RootDir::Fixed { start, sectors } && start
                            == after_fats && sectors == root
                    }
                    &&& count >= 65525 ==> {
                        &&& layout.fat_type == FatType::Fat32
                        &&& count <= 0x0FFF_FFF5 ==> layout.cluster_count == count
                        &&& layout.root == RootDir::Chain(
                            Cluster(
                                (boot[44] + 256 * boot[45] + 65536 * boot[46] + 16777216
                                    * boot[47]) as u32,
                            ),
                        )
                        &&& layout.fsinfo == (if 0 < info < reserved_in(boot) {
                            Some(info as u64)
                        } else {
                            None
                        })
                    }
                },
            }
        }),
{
    let per = boot[13] as int;
    let data = reserved_in(boot) + boot[16] * fat_size_in(boot) + root;
    let room = volume_size_in(boot) - data;
    assert(bytes::le16(boot, 11) == 512);
    assert(bytes::le16(boot, 14) == reserved_in(boot));
    assert(volume::fat_sectors(boot) == fat_size_in(boot));
    assert(volume::total_sectors(boot) == volume_size_in(boot));
    assert(bytes::le16(boot, 17) == boot[17] + 256 * boot[18]);
    assert(volume::root_sectors(boot) == root);
    assert(volume::after_fats(boot) == reserved_in(boot) + boot[16] * fat_size_in(boot));
    assert(0 <= boot[16] * fat_size_in(boot) <= 255 * 0xFFFF_FFFF) by (nonlinear_arith)
        requires
            0 <= boot[16] <= 255,
            0 <= fat_size_in(boot) <= 0xFFFF_FFFF,
    ;
    assert(room / per == count) by (nonlinear_arith)
        requires
            per > 0,
            count * per <= room,
            room < (count + 1) * per,
    ;
}

/// What is no FAT volume of 512-byte sectors is told by what is wrong with its boot sector.
pub proof fn other_boot_sectors_are_refused(boot: Seq<u8>, start: u64)
    requires
        boot.len() == 512,
    ensures
        boot[510] != 0x55 || boot[511] != 0xAA ==> volume::layout_in(boot, start) == Err::<
            Layout,
            Fault,
        >(Fault::NotFat("no boot signature"@)),
        boot[510] == 0x55 && boot[511] == 0xAA && boot[11] + 256 * boot[12] != 512
            ==> volume::layout_in(boot, start) == Err::<Layout, Fault>(
            Fault::UnsupportedSectorSize((boot[11] + 256 * boot[12]) as u16),
        ),
        boot[510] == 0x55 && boot[511] == 0xAA && boot[11] + 256 * boot[12] == 512 && (boot[13] == 0
            || boot[13] == 3 || boot[13] == 255) ==> volume::layout_in(boot, start) == Err::<
            Layout,
            Fault,
        >(Fault::NotFat("cluster size is not a power of two"@)),
{
}

/// A character in UTF-16: its code, or two units of 10 bits each above 0xD800 and 0xDC00, the high
/// bits first, for what its code is above 0x10000.
pub proof fn characters_in_utf16(c: char)
    ensures
        (c as u32) < 0x1_0000 ==> names::utf16_char(c) == seq![c as u32 as u16],
        c as u32 >= 0x1_0000 ==> {
            let units = names::utf16_char(c);
            &&& units.len() == 2
            &&& 0xD800 <= units[0] <= 0xDBFF
            &&& 0xDC00 <= units[1] <= 0xDFFF
            &&& 0x1_0000 + 1024 * (units[0] - 0xD800) + (units[1] - 0xDC00) == c as u32
        },
{
}

} // verus!
