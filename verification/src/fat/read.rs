//! Reading FAT volumes.

use super::entries;
use super::entries::{
    find_entry, parse_entries, Cluster, DirEntry, EntryKind, FatType, Located, Stamp,
};
use super::names;
use super::volume;
use super::volume::{from_utf8_lossy, read_layout, Dir, FatError, Layout, RootDir};
use crate::block::{zero_block, Block, BlockDevice, Lba, BLOCK_SIZE};
use crate::bytes;
use crate::text;
use crate::text::{chars_of, find_char, string_of};
use vstd::prelude::*;

verus! {

/// Most sectors read or written in one go: a run of clusters longer than this is read or
/// written in pieces.
pub const MAX_RUN_SECTORS: u64 = 256;

/// A mounted volume.
pub struct Fat<D: BlockDevice> {
    pub device: D,
    pub layout: Layout,
    pub label: String,
    /// The last FAT sector read, since chains mostly stay within one.
    pub fat_cache: Option<(u64, Block)>,
    /// A FAT sector with changes that aren't on the device yet.
    pub fat_dirty: Option<(u64, Block)>,
    /// What new and changed entries get as their date and time.
    pub stamp: Stamp,
    /// How many clusters are free, once they have been counted.
    pub free_count: Option<u32>,
    /// Where to look for a free cluster first.
    pub next_free: u32,
}

/// The date and time entries get until `set_time`: 2026-01-01 00:00.
pub open spec fn default_stamp() -> Stamp {
    Stamp { date: 0x5C21, time: 0 }
}

/// The parts of a path: its parent directory and final name.
pub fn split(path: &str) -> (r: (String, String))
    ensures
        (r.0@, r.1@) == volume::split_path(path@),
{
    let chars = chars_of(path);
    let mut n: usize = chars.len();
    assert(path@.subrange(0, n as int) =~= path@);
    while n > 0 && chars[n - 1] == '/'
        invariant
            n <= chars@.len(),
            chars@ == path@,
            volume::without_slashes(path@) == volume::without_slashes(
                path@.subrange(0, n as int),
            ),
        decreases n,
    {
        assert(path@.subrange(0, n as int).drop_last() =~= path@.subrange(0, n - 1));
        n -= 1;
    }
    let ghost bare = path@.subrange(0, n as int);
    assert(volume::without_slashes(path@) == bare);
    let mut end: usize = n;
    while end > 0 && chars[end - 1] != '/'
        invariant
            end <= n <= chars@.len(),
            chars@ == path@,
            bare == path@.subrange(0, n as int),
            names::last_place(bare, '/', bare.len() as int) == names::last_place(
                bare,
                '/',
                end as int,
            ),
        decreases end,
    {
        assert(bare[end - 1] == chars@[end - 1]);
        end -= 1;
    }
    if end == 0 {
        assert(names::last_place(bare, '/', 0) == -1);
        let name = string_of(&chars[0..n]);
        let parent = String::new();
        assert(parent@ =~= Seq::<char>::empty());
        (parent, name)
    } else {
        assert(bare[end - 1] == chars@[end - 1]);
        let parent = string_of(&chars[0..end - 1]);
        let name = string_of(&chars[end..n]);
        assert(parent@ =~= bare.subrange(0, end - 1));
        assert(name@ =~= bare.subrange(end as int, bare.len() as int));
        (parent, name)
    }
}

impl<D: BlockDevice> Fat<D> {
    /// What the device holds.
    pub open spec fn disk(&self) -> volume::Disk {
        self.device.disk()
    }

    /// How many commands of the device failed.
    pub open spec fn failures(&self) -> nat {
        self.device.failures()
    }

    /// What holds of every mounted volume between calls: no change is pending, and the FAT
    /// sector that is kept is as on the device.
    pub open spec fn wf(&self) -> bool {
        &&& self.layout.wf()
        &&& self.fat_dirty is None
        &&& self.cache_true()
    }

    /// The FAT sector that is kept is as on the device.
    pub open spec fn cache_true(&self) -> bool {
        self.fat_cache matches Some((sector, block)) ==> sector <= 0xFFFF_FFFF && block@
            == self.layout.sector(self.disk(), sector as int)
    }

    /// The FAT sector that is kept.
    pub open spec fn kept_sector(&self) -> Option<u64> {
        match self.fat_cache {
            Some((sector, _)) => Some(sector),
            None => None,
        }
    }

    /// Whether nothing but what is kept of the FAT has changed from `other`.
    pub open spec fn same_as(&self, other: &Self) -> bool {
        &&& self.layout == other.layout
        &&& self.label == other.label
        &&& self.disk() == other.disk()
        &&& self.device.past() == other.device.past()
        &&& self.fat_dirty == other.fat_dirty
        &&& self.stamp == other.stamp
        &&& self.free_count == other.free_count
        &&& self.next_free == other.next_free
    }

    /// Opens the volume whose boot sector is at `start`.
    pub fn mount(device: D, start: Lba) -> (r: Result<Self, FatError<D::Error>>)
        requires
            start.0 <= volume::LATEST_START,
        ensures
            match r {
                Ok(fat) => {
                    let boot = device.disk()[start.0];
                    &&& fat.wf()
                    &&& fat.disk() == device.disk()
                    &&& fat.failures() == device.failures()
                    &&& volume::layout_in(boot, start.0) == Ok::<Layout, volume::Fault>(fat.layout)
                    &&& fat.label@ == names::trimmed(
                        volume::lossy_text(
                            boot.subrange(
                                volume::label_place(fat.layout.fat_type),
                                volume::label_place(fat.layout.fat_type) + 11,
                            ),
                        ),
                    )
                    &&& fat.stamp == default_stamp()
                    &&& fat.free_count is None
                    &&& fat.next_free == 2
                },
                Err(error) => error is Device || (error.fault() matches Some(fault)
                    && volume::layout_in(device.disk()[start.0], start.0) == Err::<
                    Layout,
                    volume::Fault,
                >(fault)),
            },
    {
        let mut device = device;
        let mut boot = zero_block();
        match device.read_block(start, &mut boot) {
            Ok(_) => {},
            Err(error) => {
                return Err(FatError::Device(error));
            },
        }
        let layout: Layout = match read_layout::<D::Error>(&boot, start.0) {
            Ok(layout) => layout,
            Err(error) => {
                return Err(error);
            },
        };
        let at: usize = match layout.fat_type {
            FatType::Fat16 => 43,
            FatType::Fat32 => 71,
        };
        let text = from_utf8_lossy(&boot[at..at + 11]);
        let mut chars = chars_of(&text);
        names::trim_end(&mut chars);
        let label = string_of(&chars);
        Ok(
            Fat {
                device,
                layout,
                label,
                fat_cache: None,
                fat_dirty: None,
                stamp: Stamp { date: 0x5C21, time: 0 },
                free_count: None,
                next_free: 2,
            },
        )
    }

    pub fn fat_type(&self) -> (r: FatType)
        ensures
            r == self.layout.fat_type,
    {
        self.layout.fat_type
    }

    /// The volume label from the boot sector (may be `NO NAME`).
    pub fn label(&self) -> (r: &str)
        ensures
            r@ == self.label@,
    {
        &self.label
    }

    pub fn cluster_size(&self) -> (r: usize)
        requires
            self.wf(),
        ensures
            r == self.layout.cluster_bytes(),
    {
        self.layout.sectors_per_cluster as usize * BLOCK_SIZE
    }

    pub fn cluster_count(&self) -> (r: u32)
        ensures
            r == self.layout.cluster_count,
    {
        self.layout.cluster_count
    }

    pub fn into_device(self) -> (r: D)
        ensures
            r == self.device,
    {
        self.device
    }

    /// Has the FAT sector `sector` at hand.
    fn load_fat(&mut self, sector: u64) -> (r: Result<(), FatError<D::Error>>)
        requires
            old(self).wf(),
            sector <= 0xFFFF_FFFF,
        ensures
            final(self).wf(),
            final(self).same_as(old(self)),
            volume::told(r, old(self).failures(), final(self).failures()),
            match r {
                Ok(_) => final(self).fat_cache matches Some((cached, _)) && cached == sector,
                Err(error) => error is Device,
            },
            // A sector that is kept isn't read again.
            final(self).device.blocks_read() <= old(self).device.blocks_read() + read_for(
                old(self).kept_sector(),
                sector as int,
            ),
    {
        let cached = match self.fat_cache {
            Some((cached, _)) => cached == sector,
            None => false,
        };
        if !cached {
            let mut block = zero_block();
            match self.device.read_block(Lba(self.layout.start).offset(sector), &mut block) {
                Ok(_) => {},
                Err(error) => {
                    return Err(FatError::Device(error));
                },
            }
            self.fat_cache = Some((sector, block));
        }
        Ok(())
    }

    /// Where the FAT entry of `cluster` is: its sector in the first FAT, and its place there.
    pub fn fat_position(&self, cluster: u32) -> (r: (u64, usize))
        requires
            self.layout.wf(),
        ensures
            r.0 == self.layout.fat_sector(cluster),
            r.1 == self.layout.fat_offset(cluster),
            r.0 <= 0xFFFF_FFFF,
            r.1 + self.layout.width() <= 512,
    {
        proof {
            lemma_entry_fits(cluster as int);
        }
        match self.layout.fat_type {
            FatType::Fat16 => {
                let offset: u64 = cluster as u64 * 2;
                (self.layout.fat_start + offset / 512, (offset % 512) as usize)
            },
            FatType::Fat32 => {
                let offset: u64 = cluster as u64 * 4;
                (self.layout.fat_start + offset / 512, (offset % 512) as usize)
            },
        }
    }

    /// The FAT entry of `cluster`.
    pub fn fat_entry(&mut self, cluster: u32) -> (r: Result<u32, FatError<D::Error>>)
        requires
            old(self).wf(),
        ensures
            final(self).wf(),
            final(self).same_as(old(self)),
            volume::told(r, old(self).failures(), final(self).failures()),
            match r {
                Ok(value) => value == old(self).layout.fat_entry(old(self).disk(), cluster)
                    && kept_is(final(self).kept_sector(), old(self).layout.fat_sector(cluster)),
                Err(error) => error is Device,
            },
            final(self).device.blocks_read() <= old(self).device.blocks_read() + read_for(
                old(self).kept_sector(),
                old(self).layout.fat_sector(cluster),
            ),
    {
        let (sector, at) = self.fat_position(cluster);
        self.load_fat(sector)?;
        let value: u32 = match &self.fat_cache {
            Some((_, block)) => match self.layout.fat_type {
                FatType::Fat16 => bytes::le16_at(block, at) as u32,
                FatType::Fat32 => bytes::le32_at(block, at) % 0x1000_0000,
            },
            None => 0,
        };
        Ok(value)
    }

    fn check(&self, cluster: u32) -> (r: Result<(), FatError<D::Error>>)
        requires
            self.layout.wf(),
        ensures
            match r {
                Ok(_) => self.layout.has_cluster(cluster),
                Err(error) => !self.layout.has_cluster(cluster) && error.fault() == Some(
                    volume::Fault::BadCluster(cluster),
                ),
            },
    {
        if cluster < 2 || cluster >= self.layout.cluster_count + 2 {
            return Err(FatError::BadCluster(cluster));
        }
        Ok(())
    }

    /// The cluster after `cluster` in its chain, or `None` at the end.
    fn next(&mut self, cluster: u32) -> (r: Result<Option<u32>, FatError<D::Error>>)
        requires
            old(self).wf(),
        ensures
            final(self).wf(),
            final(self).same_as(old(self)),
            volume::told(r, old(self).failures(), final(self).failures()),
            match (r, old(self).layout.link(old(self).disk(), cluster)) {
                (Ok(None), volume::Link::End) => true,
                (Ok(Some(next)), volume::Link::To(to)) => next == to,
                (Err(error), volume::Link::Bad) => volume::says(
                    error,
                    volume::Fault::BadCluster(cluster),
                ),
                (Err(error), _) => error is Device,
                _ => false,
            },
            r is Ok ==> kept_is(final(self).kept_sector(), old(self).layout.fat_sector(cluster)),
            final(self).device.blocks_read() <= old(self).device.blocks_read() + read_for(
                old(self).kept_sector(),
                old(self).layout.fat_sector(cluster),
            ),
    {
        let value = self.fat_entry(cluster)?;
        let mark: u32 = match self.layout.fat_type {
            FatType::Fat16 => 0xFFFF,
            FatType::Fat32 => 0x0FFF_FFFF,
        };
        if value >= mark - 7 {
            Ok(None)
        } else if value == mark - 8 {
            Err(FatError::BadCluster(cluster))
        } else {
            Ok(Some(value))
        }
    }

    /// The clusters of the chain starting at `first`, checked.
    pub fn chain(&mut self, first: u32) -> (r: Result<Vec<u32>, FatError<D::Error>>)
        requires
            old(self).wf(),
        ensures
            final(self).wf(),
            final(self).same_as(old(self)),
            volume::told(r, old(self).failures(), final(self).failures()),
            match r {
                Ok(clusters) => old(self).layout.chain(old(self).disk(), first) == Ok::<
                    Seq<u32>,
                    volume::Fault,
                >(clusters@),
                Err(error) => error is Device || (error.fault() matches Some(fault) && old(
                    self).layout.chain(old(self).disk(), first) == Err::<
                    Seq<u32>,
                    volume::Fault,
                >(fault)),
            },
    {
        let ghost layout = self.layout;
        let ghost disk = self.disk();
        let ghost whole = layout.chain(disk, first);
        let mut out: Vec<u32> = Vec::new();
        let mut current: u32 = first;
        proof {
            if let Ok(rest) = whole {
                assert(out@ + rest =~= rest);
            }
        }
        loop
            invariant
                self.wf(),
                self.same_as(old(self)),
                self.failures() == old(self).failures(),
                layout == self.layout,
                disk == self.disk(),
                out@.len() <= layout.cluster_count,
                whole == layout.chain(disk, first),
                whole == (match layout.chain_from(
                    disk,
                    current,
                    (layout.cluster_count - out@.len()) as nat,
                    None,
                ) {
                    Ok(rest) => Ok(out@ + rest),
                    Err(fault) => Err(fault),
                }),
            decreases layout.cluster_count - out@.len(),
        {
            match self.check(current) {
                Ok(_) => {},
                Err(error) => {
                    return Err(error);
                },
            }
            if out.len() as u64 >= self.layout.cluster_count as u64 {
                return Err(FatError::ChainLoop);
            }
            let ghost before = out@;
            out.push(current);
            match self.next(current) {
                Ok(Some(next)) => {
                    proof {
                        if let Ok(rest) = layout.chain_from(
                            disk,
                            next,
                            (layout.cluster_count - out@.len()) as nat,
                            None,
                        ) {
                            assert(before + (seq![current] + rest) =~= out@ + rest);
                        }
                    }
                    current = next;
                },
                Ok(None) => {
                    assert(before + seq![current] =~= out@);
                    return Ok(out);
                },
                Err(error) => {
                    return Err(error);
                },
            }
        }
    }

    /// The first sector of a cluster.
    pub fn first_sector(&self, cluster: u32) -> (r: u64)
        requires
            self.layout.wf(),
            self.layout.has_cluster(cluster),
        ensures
            r == self.layout.first_sector(cluster),
            r + self.layout.sectors_per_cluster <= 0xFFFF_FFFF,
    {
        proof {
            self.layout.lemma_cluster_place(cluster);
        }
        self.layout.data_start + (cluster - 2) as u64 * self.layout.sectors_per_cluster
    }

    /// Appends `count` sectors from `start` to `out`, in one read.
    fn read_sectors_into(&mut self, start: u64, count: usize, out: &mut Vec<u8>) -> (r: Result<
        (),
        FatError<D::Error>,
    >)
        requires
            old(self).wf(),
            start + count <= 0x1_0000_0000,
        ensures
            final(self).wf(),
            final(self).same_as(old(self)),
            volume::told(r, old(self).failures(), final(self).failures()),
            match r {
                Ok(_) => final(out)@ == old(out)@ + old(self).layout.bytes_at(
                    old(self).disk(),
                    volume::sector_range(start as int, count as int),
                ) && final(out)@.len() == old(out)@.len() + 512 * count,
                Err(error) => error is Device,
            },
            final(self).fat_cache == old(self).fat_cache,
            final(self).device.blocks_read() <= old(self).device.blocks_read() + count,
    {
        let ghost layout = self.layout;
        let ghost disk = self.disk();
        let block = zero_block();
        let mut blocks: Vec<Block> = vec![block; count];
        match self.device.read_blocks(Lba(self.layout.start).offset(start), &mut blocks) {
            Ok(_) => {},
            Err(error) => {
                return Err(FatError::Device(error));
            },
        }
        let mut i: usize = 0;
        assert(volume::sector_range(start as int, 0) =~= Seq::<int>::empty());
        assert(out@ =~= old(out)@ + layout.bytes_at(disk, volume::sector_range(start as int, 0)));
        while i < count
            invariant
                i <= count == blocks@.len(),
                layout.wf(),
                start + count <= 0x1_0000_0000,
                forall|k: int|
                    0 <= k < count ==> (#[trigger] blocks@[k])@ == disk[((layout.start + start)
                        + k) as u64],
                out@ == old(out)@ + layout.bytes_at(
                    disk,
                    volume::sector_range(start as int, i as int),
                ),
                out@.len() == old(out)@.len() + 512 * i,
            decreases count - i,
        {
            let ghost before = out@;
            bytes::push_all(out, &blocks[i]);
            i += 1;
            proof {
                let range = volume::sector_range(start as int, i as int);
                assert(range.drop_last() =~= volume::sector_range(start as int, i - 1));
                assert(range.last() == start + i - 1);
                assert(blocks@[i - 1]@ == layout.sector(disk, range.last()));
                assert(out@ =~= old(out)@ + layout.bytes_at(disk, range));
            }
        }
        Ok(())
    }

    /// Follows a chain from `start` on while it goes on to the very next cluster, for at most
    /// `max_run` clusters and no further than `limit` needs, `have` bytes being there already.
    /// Returns how many clusters that is, and what follows them.
    #[verifier::rlimit(50)]
    #[verifier::spinoff_prover]
    fn follow_run(
        &mut self,
        start: u32,
        done: u32,
        max_run: u64,
        limit: Option<u64>,
        Ghost(before): Ghost<Seq<u32>>,
        Ghost(kept): Ghost<Option<u64>>,
    ) -> (r: Result<(u64, Option<u32>), FatError<D::Error>>)
        requires
            old(self).wf(),
            kept_after(old(self).layout, kept, before) == old(self).kept_sector(),
            1 <= max_run <= 256,
            before.len() == done <= old(self).layout.cluster_count,
        ensures
            final(self).wf(),
            final(self).same_as(old(self)),
            volume::told(r, old(self).failures(), final(self).failures()),
            ({
                let layout = old(self).layout;
                let disk = old(self).disk();
                let need = bytes_needed(limit);
                match r {
                    Ok((run, next)) => {
                        &&& 1 <= run <= max_run
                        &&& done + run <= layout.cluster_count
                        &&& layout.has_cluster(start)
                        &&& layout.has_cluster((start + run - 1) as u32)
                        &&& stepped(layout, disk, before, start, need) == continued(
                            layout,
                            disk,
                            before + volume::cluster_run(start, run as int),
                            next,
                            need,
                        )
                        // No shorter than it can be.
                        &&& next == Some((start + run) as u32) ==> run == max_run || (
                        limit matches Some(limit) && (done + run) * layout.cluster_bytes()
                            >= limit)
                        &&& ({
                            let after = before + volume::cluster_run(start, run as int);
                            &&& kept_after(layout, kept, after) == final(self).kept_sector()
                            &&& final(self).device.blocks_read() + fat_reads(layout, kept, before)
                                <= old(self).device.blocks_read() + fat_reads(layout, kept, after)
                        })
                    },
                    Err(error) => error is Device || (error.fault() matches Some(fault) && stepped(
                        layout,
                        disk,
                        before,
                        start,
                        need,
                    ) == Err::<Seq<u32>, volume::Fault>(fault)),
                }
            }),
    {
        let ghost layout = self.layout;
        let ghost disk = self.disk();
        let ghost need = bytes_needed(limit);
        let ghost whole = stepped(layout, disk, before, start, need);
        let cluster_bytes: u64 = self.layout.sectors_per_cluster * 512;
        let mut run: u64 = 0;
        assert(before + volume::cluster_run(start, 0) =~= before);
        loop
            invariant
                self.wf(),
                self.same_as(old(self)),
                self.failures() == old(self).failures(),
                layout == self.layout,
                disk == self.disk(),
                layout == old(self).layout,
                disk == old(self).disk(),
                need == bytes_needed(limit),
                cluster_bytes == layout.cluster_bytes(),
                max_run <= 256,
                run < max_run,
                before.len() == done,
                done + run <= layout.cluster_count,
                run > 0 ==> layout.has_cluster(start) && layout.has_cluster(
                    (start + run - 1) as u32,
                ),
                start + run <= u32::MAX,
                whole == stepped(layout, disk, before, start, need),
                whole == stepped(
                    layout,
                    disk,
                    before + volume::cluster_run(start, run as int),
                    (start + run) as u32,
                    need,
                ),
                kept_after(layout, kept, before + volume::cluster_run(start, run as int))
                    == self.kept_sector(),
                self.device.blocks_read() + fat_reads(layout, kept, before) <= old(
                    self).device.blocks_read() + fat_reads(
                    layout,
                    kept,
                    before + volume::cluster_run(start, run as int),
                ),
            decreases layout.cluster_count - run,
        {
            let current: u32 = start + run as u32;
            match self.check(current) {
                Ok(_) => {},
                Err(error) => {
                    return Err(error);
                },
            }
            if done + run as u32 >= self.layout.cluster_count {
                return Err(FatError::ChainLoop);
            }
            let ghost walked = before + volume::cluster_run(start, run as int);
            let next = match self.next(current) {
                Ok(next) => next,
                Err(error) => {
                    return Err(error);
                },
            };
            run += 1;
            assert((done + run) * cluster_bytes <= 0x0FFF_FFF5 * 0x1_0000) by (nonlinear_arith)
                requires
                    0 <= done + run <= 0x0FFF_FFF5,
                    0 <= cluster_bytes <= 0x1_0000,
            ;
            let reached: u64 = (done as u64 + run) * cluster_bytes;
            proof {
                lemma_step(layout, disk, walked, current, need);
                assert(walked.push(current) =~= before + volume::cluster_run(start, run as int));
                lemma_one_more(layout, kept, walked, current);
            }
            let enough = match limit {
                Some(limit) => reached >= limit,
                None => false,
            };
            let more = match next {
                Some(next) => next == current + 1 && run < max_run && !enough,
                None => false,
            };
            if !more {
                return Ok((run, next));
            }
        }
    }

    /// Reads the chain starting at `first`: `limit` bytes of it, or all of it. Runs of
    /// consecutive clusters (the usual layout of a file) are read in one go.
    #[verifier::rlimit(50)]
    #[verifier::spinoff_prover]
    pub fn read_chain(&mut self, first: Cluster, limit: Option<usize>) -> (r: Result<
        Vec<u8>,
        FatError<D::Error>,
    >)
        requires
            old(self).wf(),
        ensures
            final(self).wf(),
            final(self).same_as(old(self)),
            volume::told(r, old(self).failures(), final(self).failures()),
            ({
                let expected = old(self).layout.chain_bytes(
                    old(self).disk(),
                    first.0,
                    (match limit {
                        Some(limit) => Some(limit as int),
                        None => None,
                    }),
                );
                match r {
                    Ok(data) => expected == Ok::<Seq<u8>, volume::Fault>(data@),
                    Err(error) => error is Device || (error.fault() matches Some(fault) && expected
                        == Err::<Seq<u8>, volume::Fault>(fault)),
                }
            }),
            // Nothing is read where nothing is wanted.
            limit == Some(0usize) ==> (r matches Ok(data) && data@ == Seq::<u8>::empty()),
            // Every sector of the chain is read once, and of the FAT none twice in a row.
            r is Ok && limit != Some(0usize) ==> ({
                let layout = old(self).layout;
                let read = layout.chain_from(
                    old(self).disk(),
                    first.0,
                    layout.cluster_count as nat,
                    (match limit {
                        Some(limit) => Some(limit as int),
                        None => None,
                    }),
                )->Ok_0;
                final(self).device.blocks_read() <= old(self).device.blocks_read()
                    + read.len() * layout.sectors_per_cluster + fat_reads(
                    layout,
                    old(self).kept_sector(),
                    read,
                )
            }),
    {
        let mut out: Vec<u8> = Vec::new();
        let wanted: Option<u64> = match limit {
            Some(limit) => Some(limit as u64),
            None => None,
        };
        if let Some(0) = wanted {
            assert(out@ =~= Seq::<u8>::empty());
            return Ok(out);
        }
        let ghost layout = self.layout;
        let ghost disk = self.disk();
        let ghost need = bytes_needed(wanted);
        let ghost whole = layout.chain_from(disk, first.0, layout.cluster_count as nat, need);
        let ghost size = layout.cluster_bytes();
        let per_cluster = self.layout.sectors_per_cluster;
        let max_run: u64 = longest_run(per_cluster);
        let mut cluster: Option<u32> = Some(first.0);
        let mut steps: u32 = 0;
        let ghost mut done: Seq<u32> = Seq::empty();
        let ghost kept = self.kept_sector();
        proof {
            assert(0 * per_cluster == 0);
            assert(layout.sectors_of(done) =~= Seq::<int>::empty());
            assert(layout.bytes_at(disk, Seq::<int>::empty()) =~= Seq::<u8>::empty());
            if let Ok(rest) = whole {
                assert(done + rest =~= rest);
            }
            assert(0 * size == 0);
        }
        while cluster.is_some()
            invariant_except_break
                self.wf(),
                self.same_as(old(self)),
                self.failures() == old(self).failures(),
                layout == self.layout,
                disk == self.disk(),
                layout == old(self).layout,
                disk == old(self).disk(),
                size == layout.cluster_bytes(),
                per_cluster == layout.sectors_per_cluster,
                1 <= max_run <= 256,
                max_run == 1 || max_run * per_cluster <= 256,
                need == bytes_needed(wanted),
                wanted != Some(0u64),
                limit matches Some(n) ==> wanted == Some(n as u64),
                limit is None ==> wanted is None,
                steps <= layout.cluster_count,
                done.len() == steps,
                out@ == layout.bytes_at(disk, layout.sectors_of(done)),
                out@.len() == steps * size,
                whole == layout.chain_from(disk, first.0, layout.cluster_count as nat, need),
                whole == continued(layout, disk, done, cluster, need),
                kept == old(self).kept_sector(),
                kept_after(layout, kept, done) == self.kept_sector(),
                self.device.blocks_read() <= old(self).device.blocks_read() + steps * per_cluster
                    + fat_reads(layout, kept, done),
            ensures
                self.wf(),
                self.same_as(old(self)),
                self.failures() == old(self).failures(),
                need == bytes_needed(wanted),
                wanted != Some(0u64),
                limit matches Some(n) ==> wanted == Some(n as u64),
                limit is None ==> wanted is None,
                out@ == layout.bytes_at(disk, layout.sectors_of(done)),
                whole == layout.chain_from(disk, first.0, layout.cluster_count as nat, need),
                whole == Ok::<Seq<u32>, volume::Fault>(done),
                kept == old(self).kept_sector(),
                self.device.blocks_read() <= old(self).device.blocks_read() + done.len()
                    * per_cluster + fat_reads(layout, kept, done),
            decreases layout.cluster_count - steps,
        {
            let start = cluster.unwrap();
            let covered = match wanted {
                Some(limit) => out.len() as u64 >= limit,
                None => false,
            };
            if covered {
                break;
            }
            let ghost read = done;
            let (run, next) = match self.follow_run(
                start,
                steps,
                max_run,
                wanted,
                Ghost(done),
                Ghost(kept),
            ) {
                Ok((run, next)) => (run, next),
                Err(error) => {
                    return Err(error);
                },
            };
            proof {
                done = read + volume::cluster_run(start, run as int);
                lemma_run_read(layout, disk, read, start, run as int);
                assert(run * per_cluster <= 256) by (nonlinear_arith)
                    requires
                        run <= max_run,
                        max_run == 1 || max_run * per_cluster <= 256,
                        per_cluster <= 128,
                        per_cluster >= 1,
                ;
                assert(512 * (run * per_cluster) == run * size) by (nonlinear_arith)
                    requires
                        size == per_cluster * 512,
                ;
                assert((steps + run) * size == steps * size + run * size) by (nonlinear_arith);
                assert((steps + run) * per_cluster == steps * per_cluster + run * per_cluster)
                    by (nonlinear_arith);
            }
            let sector = self.first_sector(start);
            let count: usize = (run * per_cluster) as usize;
            match self.read_sectors_into(sector, count, &mut out) {
                Ok(_) => {},
                Err(error) => {
                    return Err(error);
                },
            }
            steps = steps + run as u32;
            cluster = next;
        }
        match limit {
            Some(limit) => {
                if out.len() < limit {
                    return Err(FatError::Truncated);
                }
                out.truncate(limit);
            },
            None => {},
        }
        Ok(out)
    }
}

/// A whole directory in memory, with the sectors it lives in, to change and write back.
pub struct DirImage {
    pub sectors: Vec<u64>,
    pub bytes: Vec<u8>,
}

impl DirImage {
    /// The numbers of its sectors.
    pub open spec fn places(&self) -> Seq<int> {
        Seq::new(self.sectors@.len(), |i: int| self.sectors@[i] as int)
    }

    /// Whether it is what the directory on the disk is.
    pub open spec fn is_dir(&self, layout: Layout, disk: volume::Disk, dir: Dir) -> bool {
        &&& layout.dir_sectors(disk, dir) == Ok::<Seq<int>, volume::Fault>(self.places())
        &&& self.bytes@ == layout.bytes_at(disk, self.places())
        &&& self.wf(layout)
    }

    /// What holds of every directory in memory: its sectors are on the volume, and it has the
    /// bytes of each.
    pub open spec fn wf(&self, layout: Layout) -> bool {
        &&& self.bytes@.len() == 512 * self.sectors@.len()
        &&& forall|i: int|
            0 <= i < self.sectors@.len() ==> layout.fat_start + layout.fat_count * layout.fat_size
                <= #[trigger] self.sectors@[i] <= 0xFFFF_FFFF
    }
}

/// Appends `count` sectors from `first` on to `out`.
pub(crate) fn push_sectors(out: &mut Vec<u64>, first: u64, count: u64)
    requires
        first + count <= 0x1_0000_0000,
    ensures
        final(out)@.len() == old(out)@.len() + count,
        forall|i: int| 0 <= i < old(out)@.len() ==> #[trigger] final(out)@[i] == old(out)@[i],
        forall|i: int|
            old(out)@.len() <= i < final(out)@.len() ==> #[trigger] final(out)@[i] == first + (i
                - old(out)@.len()),
{
    let mut n: u64 = 0;
    while n < count
        invariant
            n <= count,
            first + count <= 0x1_0000_0000,
            out@.len() == old(out)@.len() + n,
            forall|i: int| 0 <= i < old(out)@.len() ==> #[trigger] out@[i] == old(out)@[i],
            forall|i: int|
                old(out)@.len() <= i < out@.len() ==> #[trigger] out@[i] == first + (i - old(
                    out,
                )@.len()),
        decreases count - n,
    {
        out.push(first + n);
        n += 1;
    }
}

/// The first cluster of a directory, unless it is the fixed root.
pub(crate) fn start_of(layout: &Layout, dir: Dir) -> (r: Option<Cluster>)
    ensures
        r == layout.dir_start(dir),
{
    match dir {
        Dir::Chain(first) => Some(first),
        Dir::Root => match layout.root {
            RootDir::Chain(first) => Some(first),
            RootDir::Fixed { .. } => None,
        },
    }
}

impl<D: BlockDevice> Fat<D> {
    /// What a directory holds.
    fn dir_bytes(&mut self, dir: Dir) -> (r: Result<Vec<u8>, FatError<D::Error>>)
        requires
            old(self).wf(),
        ensures
            final(self).wf(),
            final(self).same_as(old(self)),
            volume::told(r, old(self).failures(), final(self).failures()),
            match r {
                Ok(data) => old(self).layout.dir_bytes(old(self).disk(), dir) == Ok::<
                    Seq<u8>,
                    volume::Fault,
                >(data@),
                Err(error) => error is Device || (error.fault() matches Some(fault) && old(
                    self).layout.dir_bytes(old(self).disk(), dir) == Err::<Seq<u8>, volume::Fault>(
                    fault,
                )),
            },
    {
        match start_of(&self.layout, dir) {
            Some(first) => self.read_chain(first, None),
            None => {
                let mut out: Vec<u8> = Vec::new();
                match self.layout.root {
                    RootDir::Fixed { start, sectors } => {
                        match self.read_sectors_into(start, sectors as usize, &mut out) {
                            Ok(_) => {},
                            Err(error) => {
                                return Err(error);
                            },
                        }
                        assert(out@ =~= self.layout.bytes_at(
                            self.disk(),
                            volume::sector_range(start as int, sectors as int),
                        ));
                    },
                    RootDir::Chain(_) => {},
                }
                Ok(out)
            },
        }
    }

    /// The entry for `name` in a directory.
    fn find_in(&mut self, dir: Dir, name: &str) -> (r: Result<Located, FatError<D::Error>>)
        requires
            old(self).wf(),
        ensures
            final(self).wf(),
            final(self).same_as(old(self)),
            volume::told(r, old(self).failures(), final(self).failures()),
            match r {
                Ok(located) => old(self).layout.lookup(old(self).disk(), dir, name@) == Ok::<
                    entries::LocatedModel,
                    volume::Fault,
                >(located@),
                Err(error) => error is Device || (error.fault() matches Some(fault) && old(
                    self).layout.lookup(old(self).disk(), dir, name@) == Err::<
                    entries::LocatedModel,
                    volume::Fault,
                >(fault)),
            },
    {
        match self.dir_bytes(dir) {
            Ok(data) => match find_entry(&data, self.layout.fat_type, name) {
                Some(located) => Ok(located),
                None => Err(FatError::NotFound),
            },
            Err(error) => Err(error),
        }
    }

    /// The directory at a path.
    pub fn find_dir(&mut self, path: &str) -> (r: Result<Dir, FatError<D::Error>>)
        requires
            old(self).wf(),
        ensures
            final(self).wf(),
            final(self).same_as(old(self)),
            volume::told(r, old(self).failures(), final(self).failures()),
            match r {
                Ok(dir) => old(self).layout.dir_of(old(self).disk(), path@) == Ok::<
                    Dir,
                    volume::Fault,
                >(dir),
                Err(error) => error is Device || (error.fault() matches Some(fault) && old(
                    self).layout.dir_of(old(self).disk(), path@) == Err::<Dir, volume::Fault>(
                    fault,
                )),
            },
    {
        let ghost layout = self.layout;
        let ghost disk = self.disk();
        let ghost whole = layout.dir_of(disk, path@);
        let chars = chars_of(path);
        let mut dir = Dir::Root;
        let mut from: usize = 0;
        loop
            invariant
                self.wf(),
                self.same_as(old(self)),
                self.failures() == old(self).failures(),
                layout == self.layout,
                disk == self.disk(),
                whole == old(self).layout.dir_of(old(self).disk(), path@),
                chars@ == path@,
                from <= chars@.len(),
                whole == layout.dir_from(
                    disk,
                    dir,
                    text::pieces_from(path@, from as int, '/'),
                ),
            decreases chars@.len() - from,
        {
            let at = find_char(&chars, from, '/');
            let ghost parts = text::pieces_from(path@, from as int, '/');
            let ghost rest = parts.subrange(1, parts.len() as int);
            assert(parts[0] == path@.subrange(from as int, at as int));
            proof {
                if at < chars@.len() {
                    assert(rest =~= text::pieces_from(path@, at + 1, '/'));
                } else {
                    assert(rest =~= Seq::<Seq<char>>::empty());
                    assert(layout.dir_from(disk, dir, rest) == Ok::<Dir, volume::Fault>(dir));
                }
            }
            if at > from {
                let name = string_of(&chars[from..at]);
                assert(name@ == parts[0]);
                match self.find_in(dir, &name) {
                    Ok(located) => {
                        if located.entry.kind != EntryKind::Directory {
                            return Err(FatError::NotADirectory);
                        }
                        // A ".." entry pointing at the root uses cluster 0.
                        let first = located.entry.first_cluster;
                        dir = if first.0 == 0 {
                            Dir::Root
                        } else {
                            Dir::Chain(first)
                        };
                        proof {
                            if at >= chars@.len() {
                                assert(layout.dir_from(disk, dir, rest) == Ok::<Dir, volume::Fault>(
                                    dir,
                                ));
                            }
                        }
                    },
                    Err(error) => {
                        return Err(error);
                    },
                }
            }
            if at == chars.len() {
                return Ok(dir);
            }
            from = at + 1;
        }
    }

    /// Lists a directory. `path` is absolute, `/`-separated and matched case-insensitively,
    /// like `/overlays`. `.` and `..` are left out.
    pub fn read_dir(&mut self, path: &str) -> (r: Result<Vec<DirEntry>, FatError<D::Error>>)
        requires
            old(self).wf(),
        ensures
            final(self).wf(),
            final(self).same_as(old(self)),
            volume::told(r, old(self).failures(), final(self).failures()),
            match r {
                Ok(list) => old(self).layout.list_of(old(self).disk(), path@) matches Ok(listing)
                    && list@.len() == listing.len() && forall|k: int|
                    0 <= k < list@.len() ==> (#[trigger] list@[k])@ == listing[k].entry,
                Err(error) => error is Device || (error.fault() matches Some(fault) && old(
                    self).layout.list_of(old(self).disk(), path@) == Err::<
                    Seq<entries::LocatedModel>,
                    volume::Fault,
                >(fault)),
            },
    {
        let dir = match self.find_dir(path) {
            Ok(dir) => dir,
            Err(error) => {
                return Err(error);
            },
        };
        match self.dir_bytes(dir) {
            Ok(data) => Ok(parse_entries(&data, self.layout.fat_type)),
            Err(error) => Err(error),
        }
    }

    /// Looks up a file or directory. The root itself has no entry, so `/` is `NotFound`.
    pub fn metadata(&mut self, path: &str) -> (r: Result<DirEntry, FatError<D::Error>>)
        requires
            old(self).wf(),
        ensures
            final(self).wf(),
            final(self).same_as(old(self)),
            volume::told(r, old(self).failures(), final(self).failures()),
            match r {
                Ok(entry) => old(self).layout.entry_of(old(self).disk(), path@) == Ok::<
                    entries::EntryModel,
                    volume::Fault,
                >(entry@),
                Err(error) => error is Device || (error.fault() matches Some(fault) && old(
                    self).layout.entry_of(old(self).disk(), path@) == Err::<
                    entries::EntryModel,
                    volume::Fault,
                >(fault)),
            },
            // The root has no entry, and nothing is read to tell.
            volume::split_path(path@).1.len() == 0 ==> r == Err::<DirEntry, FatError<D::Error>>(
                FatError::NotFound,
            ),
    {
        let (parent, name) = split(path);
        if is_empty(&name) {
            return Err(FatError::NotFound);
        }
        let dir = match self.find_dir(&parent) {
            Ok(dir) => dir,
            Err(error) => {
                return Err(error);
            },
        };
        match self.find_in(dir, &name) {
            Ok(located) => Ok(located.entry),
            Err(error) => Err(error),
        }
    }

    /// Reads a whole file.
    pub fn read_file(&mut self, path: &str) -> (r: Result<Vec<u8>, FatError<D::Error>>)
        requires
            old(self).wf(),
        ensures
            final(self).wf(),
            final(self).same_as(old(self)),
            volume::told(r, old(self).failures(), final(self).failures()),
            match r {
                Ok(data) => old(self).layout.file_of(old(self).disk(), path@) == Ok::<
                    Seq<u8>,
                    volume::Fault,
                >(data@),
                Err(error) => error is Device || (error.fault() matches Some(fault) && old(
                    self).layout.file_of(old(self).disk(), path@) == Err::<Seq<u8>, volume::Fault>(
                    fault,
                )),
            },
            volume::split_path(path@).1.len() == 0 ==> r == Err::<Vec<u8>, FatError<D::Error>>(
                FatError::NotFound,
            ),
    {
        let entry = match self.metadata(path) {
            Ok(entry) => entry,
            Err(error) => {
                return Err(error);
            },
        };
        if entry.kind != EntryKind::File {
            return Err(FatError::NotAFile);
        }
        self.read_chain(entry.first_cluster, Some(entry.size as usize))
    }

    /// Reads a whole directory, noting the sectors it is in.
    pub fn load_dir(&mut self, dir: Dir) -> (r: Result<DirImage, FatError<D::Error>>)
        requires
            old(self).wf(),
        ensures
            final(self).wf(),
            final(self).same_as(old(self)),
            volume::told(r, old(self).failures(), final(self).failures()),
            match r {
                Ok(image) => image.is_dir(old(self).layout, old(self).disk(), dir),
                Err(error) => error is Device || (error.fault() matches Some(fault) && old(
                    self).layout.dir_bytes(old(self).disk(), dir) == Err::<Seq<u8>, volume::Fault>(
                    fault,
                )),
            },
    {
        let ghost layout = self.layout;
        let ghost disk = self.disk();
        let mut image = DirImage { sectors: Vec::new(), bytes: Vec::new() };
        match start_of(&self.layout, dir) {
            Some(first) => {
                let chain = match self.chain(first.0) {
                    Ok(chain) => chain,
                    Err(error) => {
                        return Err(error);
                    },
                };
                proof {
                    lemma_chain_valid(layout, disk, first.0, layout.cluster_count as nat, None);
                    assert(chain@.subrange(0, 0) =~= Seq::<u32>::empty());
                    assert(image.places() =~= Seq::<int>::empty());
                }
                let mut i: usize = 0;
                while i < chain.len()
                    invariant
                        self.wf(),
                        self.same_as(old(self)),
                        self.failures() == old(self).failures(),
                        layout == self.layout,
                        i <= chain@.len(),
                        forall|k: int|
                            0 <= k < chain@.len() ==> layout.has_cluster(#[trigger] chain@[k]),
                        image.places() == layout.sectors_of(chain@.subrange(0, i as int)),
                        image.bytes@.len() == 0,
                        forall|k: int|
                            0 <= k < image.sectors@.len() ==> layout.data_start
                                <= #[trigger] image.sectors@[k] <= 0xFFFF_FFFF,
                    decreases chain@.len() - i,
                {
                    let ghost before = image.places();
                    assert(layout.has_cluster(chain@[i as int]));
                    let sector = self.first_sector(chain[i]);
                    proof {
                        layout.lemma_cluster_place(chain@[i as int]);
                    }
                    push_sectors(&mut image.sectors, sector, self.layout.sectors_per_cluster);
                    proof {
                        let more = chain@.subrange(0, i + 1);
                        assert(more.drop_last() =~= chain@.subrange(0, i as int));
                        assert(image.places() =~= before + volume::sector_range(
                            sector as int,
                            layout.sectors_per_cluster as int,
                        ));
                    }
                    i += 1;
                }
                assert(chain@.subrange(0, i as int) =~= chain@);
            },
            None => match self.layout.root {
                RootDir::Fixed { start, sectors } => {
                    push_sectors(&mut image.sectors, start, sectors);
                    assert(image.places() =~= volume::sector_range(start as int, sectors as int));
                },
                RootDir::Chain(_) => {},
            },
        }
        let ghost places = image.places();
        let mut i: usize = 0;
        proof {
            assert(places.subrange(0, 0) =~= Seq::<int>::empty());
            assert(image.bytes@ =~= layout.bytes_at(disk, places.subrange(0, 0)));
        }
        while i < image.sectors.len()
            invariant
                self.wf(),
                self.same_as(old(self)),
                self.failures() == old(self).failures(),
                layout == self.layout,
                disk == self.disk(),
                i <= image.sectors@.len(),
                places == image.places(),
                image.bytes@ == layout.bytes_at(disk, places.subrange(0, i as int)),
                image.bytes@.len() == 512 * i,
                layout.fat_start + layout.fat_count * layout.fat_size <= layout.data_start,
                forall|k: int|
                    0 <= k < image.sectors@.len() ==> layout.fat_start + layout.fat_count
                        * layout.fat_size <= #[trigger] image.sectors@[k] <= 0xFFFF_FFFF,
            decreases image.sectors@.len() - i,
        {
            let mut block = zero_block();
            let sector = image.sectors[i];
            match self.device.read_block(Lba(self.layout.start).offset(sector), &mut block) {
                Ok(_) => {},
                Err(error) => {
                    return Err(FatError::Device(error));
                },
            }
            bytes::push_all(&mut image.bytes, &block);
            i += 1;
            proof {
                assert(places.subrange(0, i as int).drop_last() =~= places.subrange(0, i - 1));
                assert(places.subrange(0, i as int).last() == sector);
            }
        }
        assert(places.subrange(0, i as int) =~= places);
        Ok(image)
    }
}

/// Whether a text is empty.
pub(crate) fn is_empty(s: &str) -> (r: bool)
    ensures
        r == (s@.len() == 0),
{
    chars_of(s).len() == 0
}

/// The clusters of a chain are on the volume, and there are no more than it may have.
pub proof fn lemma_chain_valid(
    layout: Layout,
    disk: volume::Disk,
    c: u32,
    left: nat,
    need: Option<int>,
)
    ensures
        layout.chain_from(disk, c, left, need) matches Ok(clusters) ==> 0 < clusters.len() <= left
            && clusters[0] == c && forall|k: int|
            0 <= k < clusters.len() ==> layout.has_cluster(#[trigger] clusters[k]),
    decreases left,
{
    if layout.has_cluster(c) && left > 0 {
        if let volume::Link::To(next) = layout.link(disk, c) {
            let more = match need {
                Some(n) => Some(n - layout.cluster_bytes()),
                None => None,
            };
            lemma_chain_valid(layout, disk, next, (left - 1) as nat, more);
        }
    }
}

/// The most clusters that are read or written in one go.
pub(crate) fn longest_run(per_cluster: u64) -> (r: u64)
    requires
        1 <= per_cluster <= 128,
    ensures
        1 <= r <= 256,
        r == 1 || r * per_cluster <= 256,
{
    let n: u64 = MAX_RUN_SECTORS / per_cluster;
    assert(n <= 256 && n * per_cluster <= 256) by (nonlinear_arith)
        requires
            n == 256int / per_cluster as int,
            per_cluster >= 1,
    ;
    if n > 1 {
        n
    } else {
        1
    }
}

/// How much is to be read.
pub open spec fn bytes_needed(limit: Option<u64>) -> Option<int> {
    match limit {
        Some(limit) => Some(limit as int),
        None => None,
    }
}

/// Reading `run` clusters from `start` on, after `read`.
proof fn lemma_run_read(layout: Layout, disk: volume::Disk, read: Seq<u32>, start: u32, run: int)
    requires
        layout.wf(),
        1 <= run <= 256,
        layout.has_cluster(start),
        layout.has_cluster((start + run - 1) as u32),
    ensures
        layout.bytes_at(
            disk,
            layout.sectors_of(read + volume::cluster_run(start, run)),
        ) == layout.bytes_at(disk, layout.sectors_of(read)) + layout.bytes_at(
            disk,
            volume::sector_range(layout.first_sector(start), run * layout.sectors_per_cluster),
        ),
        layout.first_sector(start) + run * layout.sectors_per_cluster <= 0xFFFF_FFFF,
{
    let per = layout.sectors_per_cluster as int;
    layout.lemma_run_sectors(start, run);
    layout.lemma_sectors_concat(read, volume::cluster_run(start, run));
    layout.lemma_bytes_concat(
        disk,
        layout.sectors_of(read),
        volume::sector_range(layout.first_sector(start), run * per),
    );
    let last = (start + run - 1) as u32;
    layout.lemma_cluster_place(last);
    assert(layout.first_sector(last) + per == layout.first_sector(start) + run * per)
        by (nonlinear_arith)
        requires
            layout.first_sector(last) == layout.data_start + (last - 2) * per,
            layout.first_sector(start) == layout.data_start + (start - 2) * per,
            last == start + run - 1,
    ;
}

/// A FAT entry never crosses from one sector to the next.
proof fn lemma_entry_fits(c: int)
    requires
        0 <= c <= u32::MAX,
    ensures
        (c * 2) % 512 + 2 <= 512,
        (c * 4) % 512 + 4 <= 512,
        (c * 2) / 512 <= 0x100_0000,
        (c * 4) / 512 <= 0x200_0000,
{
    assert((c * 2) % 512 == 2 * (c % 256));
    assert((c * 4) % 512 == 4 * (c % 128));
}

/// The chain, if the clusters `done` are its start and `c` is next.
pub open spec fn stepped(
    layout: Layout,
    disk: volume::Disk,
    done: Seq<u32>,
    c: u32,
    need: Option<int>,
) -> Result<Seq<u32>, volume::Fault> {
    let left = match need {
        Some(n) => Some(n - done.len() * layout.cluster_bytes()),
        None => None,
    };
    match layout.chain_from(disk, c, (layout.cluster_count - done.len()) as nat, left) {
        Ok(rest) => Ok(done + rest),
        Err(fault) => Err(fault),
    }
}

/// Whether the FAT sector `sector` is the one that is kept.
pub open spec fn kept_is(kept: Option<u64>, sector: int) -> bool {
    kept matches Some(s) && s == sector
}

/// How many blocks are read to have a FAT sector at hand: none if it is kept.
pub open spec fn read_for(kept: Option<u64>, sector: int) -> nat {
    if kept_is(kept, sector) {
        0
    } else {
        1
    }
}

/// The FAT sector that is kept once the entries of `clusters` were read.
pub open spec fn kept_after(layout: Layout, kept: Option<u64>, clusters: Seq<u32>) -> Option<u64> {
    if clusters.len() == 0 {
        kept
    } else {
        Some(layout.fat_sector(clusters.last()) as u64)
    }
}

/// How many FAT sectors are read for the entries of `clusters`, one after the other.
pub open spec fn fat_reads(layout: Layout, kept: Option<u64>, clusters: Seq<u32>) -> nat
    decreases clusters.len(),
{
    if clusters.len() == 0 {
        0
    } else {
        fat_reads(layout, kept, clusters.drop_last()) + read_for(
            kept_after(layout, kept, clusters.drop_last()),
            layout.fat_sector(clusters.last()),
        )
    }
}

proof fn lemma_one_more(layout: Layout, kept: Option<u64>, clusters: Seq<u32>, c: u32)
    ensures
        fat_reads(layout, kept, clusters.push(c)) == fat_reads(layout, kept, clusters) + read_for(
            kept_after(layout, kept, clusters),
            layout.fat_sector(c),
        ),
{
    assert(clusters.push(c).drop_last() =~= clusters);
}

/// The chain, if the clusters `done` are its start and `next` is what follows, if it is needed.
pub open spec fn continued(
    layout: Layout,
    disk: volume::Disk,
    done: Seq<u32>,
    next: Option<u32>,
    need: Option<int>,
) -> Result<Seq<u32>, volume::Fault> {
    match next {
        Some(c) => if need matches Some(n) && n <= done.len() * layout.cluster_bytes() {
            Ok(done)
        } else {
            stepped(layout, disk, done, c, need)
        },
        None => Ok(done),
    }
}

/// One cluster further along a chain.
proof fn lemma_step(layout: Layout, disk: volume::Disk, done: Seq<u32>, c: u32, need: Option<int>)
    requires
        layout.has_cluster(c),
        done.len() < layout.cluster_count,
        !(layout.link(disk, c) is Bad),
    ensures
        stepped(layout, disk, done, c, need) == continued(
            layout,
            disk,
            done.push(c),
            (match layout.link(disk, c) {
                volume::Link::To(next) => Some(next),
                _ => None,
            }),
            need,
        ),
{
    let size = layout.cluster_bytes();
    let n = done.len() as int;
    assert((n + 1) * size == n * size + size) by (nonlinear_arith);
    assert(done.push(c) =~= done + seq![c]);
    match layout.link(disk, c) {
        volume::Link::To(next) => {
            let left = match need {
                Some(k) => Some(k - (n + 1) * size),
                None => None,
            };
            if let Ok(rest) = layout.chain_from(
                disk,
                next,
                (layout.cluster_count - (n + 1)) as nat,
                left,
            ) {
                assert(done + (seq![c] + rest) =~= done.push(c) + rest);
            }
        },
        _ => {},
    }
}

} // verus!
