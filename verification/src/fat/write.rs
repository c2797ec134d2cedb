//! Writing FAT volumes: creating, replacing and removing files, and making and removing
//! directories.

use super::change;
use super::change::{ImageModel, Volume, FSINFO_LEAD, FSINFO_STRUCT};
use super::cuts;
use super::entries;
use super::entries::{
    find_entry, parse_located, EntryKind, FatType, Stamp, ATTR_ARCHIVE, ATTR_DIRECTORY,
    ENTRY_DELETED, ENTRY_END,
};
use super::laws;
use super::names;
use super::names::{is_storable, DIR_ENTRY_SIZE};
use super::read::{longest_run, push_sectors, split, start_of, DirImage, Fat};
use super::stored;
use super::stored::{free_run, make_entries, push_own_entry, repoint, short_names};
use super::volume;
use super::volume::{Dir, Disk, FatError, Fault, Layout};
use crate::block;
use crate::block::{zero_block, Block, Lba, WritableBlockDevice, BLOCK_SIZE};
use crate::bytes;
use crate::time::DateTime;
use vstd::prelude::*;

verus! {

/// Checks `name` is one FAT can store.
pub fn check_name<E>(name: &str) -> (r: Result<(), FatError<E>>)
    ensures
        r is Ok <==> names::storable(name@),
        r matches Err(error) ==> error is InvalidName,
{
    if is_storable(name) {
        Ok(())
    } else {
        Err(FatError::InvalidName)
    }
}

impl Layout {
    /// Whether block `l` is sector `s` of one of the first `n` copies of the FAT.
    pub open spec fn is_copy(self, s: int, n: int, l: u64) -> bool {
        exists|k: int| 0 <= k < n && #[trigger] self.block(s + k * self.fat_size) == l
    }

    /// What the copies of a FAT sector hold, once they are written.
    pub proof fn lemma_copies(self, disk: Disk, s: int, block: Seq<u8>, n: int)
        ensures
            forall|l: u64| #[trigger]
                self.with_copies(disk, s, block, n)[l] == if self.is_copy(s, n, l) {
                    block
                } else {
                    disk[l]
                },
            forall|l: u64| #[trigger]
                self.with_copies(disk, s, block, n).dom().contains(l) <==> disk.dom().contains(l)
                    || self.is_copy(s, n, l),
        decreases n,
    {
        if n > 0 {
            self.lemma_copies(disk, s, block, n - 1);
            let before = self.with_copies(disk, s, block, n - 1);
            let after = self.with_copies(disk, s, block, n);
            let here = self.block(s + (n - 1) * self.fat_size);
            assert forall|l: u64| true implies #[trigger] after[l] == (if self.is_copy(s, n, l) {
                block
            } else {
                disk[l]
            }) by {
                self.lemma_copy_step(s, n, l);
                assert(l != here ==> after[l] == before[l]);
            }
            assert forall|l: u64| true implies (#[trigger] after.dom().contains(l)
                <==> disk.dom().contains(l) || self.is_copy(s, n, l)) by {
                self.lemma_copy_step(s, n, l);
                assert(l != here ==> after.dom().contains(l) == before.dom().contains(l));
            }
        }
    }

    proof fn lemma_copy_step(self, s: int, n: int, l: u64)
        requires
            n > 0,
        ensures
            self.is_copy(s, n, l) <==> self.is_copy(s, n - 1, l) || l == self.block(
                s + (n - 1) * self.fat_size,
            ),
    {
        if self.is_copy(s, n, l) {
            let k = choose|k: int|
                0 <= k < n && #[trigger] self.block(s + k * self.fat_size) == l;
            if k < n - 1 {
                assert(self.block(s + k * self.fat_size) == l);
            }
        }
        if self.is_copy(s, n - 1, l) {
            let k = choose|k: int|
                0 <= k < n - 1 && #[trigger] self.block(s + k * self.fat_size) == l;
            assert(0 <= k < n && self.block(s + k * self.fat_size) == l);
        }
        if l == self.block(s + (n - 1) * self.fat_size) {
            assert(0 <= n - 1 < n && self.block(s + (n - 1) * self.fat_size) == l);
        }
    }

    /// The first copy of a FAT sector is the sector itself.
    pub proof fn lemma_first_copy(self, disk: Disk, s: int, block: Seq<u8>)
        requires
            self.wf(),
        ensures
            self.sector(self.with_copies(disk, s, block, self.fat_count as int), s) == block,
    {
        self.lemma_copies(disk, s, block, self.fat_count as int);
        assert(0 * self.fat_size == 0);
        assert(self.block(s + 0 * self.fat_size) == self.block(s));
        assert(self.is_copy(s, self.fat_count as int, self.block(s)));
    }

    /// Writing the copies of a FAT sector again is writing them once.
    pub proof fn lemma_copies_again(self, disk: Disk, s: int, a: Seq<u8>, b: Seq<u8>, n: int)
        ensures
            self.with_copies(self.with_copies(disk, s, a, n), s, b, n) == self.with_copies(
                disk,
                s,
                b,
                n,
            ),
    {
        let first = self.with_copies(disk, s, a, n);
        self.lemma_copies(disk, s, a, n);
        self.lemma_copies(first, s, b, n);
        self.lemma_copies(disk, s, b, n);
        assert(self.with_copies(first, s, b, n) =~= self.with_copies(disk, s, b, n));
    }
}

impl<D: WritableBlockDevice> Fat<D> {
    /// The volume.
    pub open spec fn model(&self) -> Volume {
        Volume {
            layout: self.layout,
            disk: self.disk(),
            stamp: self.stamp,
            free_count: self.free_count,
            next_free: self.next_free,
        }
    }

    /// What the disk holds, once the pending FAT sector is written.
    pub open spec fn pending_disk(&self) -> Disk {
        match self.fat_dirty {
            Some((sector, block)) => self.layout.with_copies(
                self.disk(),
                sector as int,
                block@,
                self.layout.fat_count as int,
            ),
            None => self.disk(),
        }
    }

    /// What holds while FAT entries are changed.
    pub open spec fn pending_wf(&self) -> bool {
        &&& self.layout.wf()
        &&& self.cache_true()
        &&& self.fat_dirty matches Some((sector, _)) ==> self.fat_cache is None && sector
            <= 0xFFFF_FFFF
    }

    /// Whether the pending sector is one of the FAT, on a disk that holds a volume.
    pub open spec fn pending_in_fat(&self) -> bool {
        &&& laws::sound(self.layout, self.disk())
        &&& self.fat_dirty matches Some((sector, _)) ==> self.layout.fat_start <= sector
            < self.layout.fat_start + self.layout.fat_size
    }

    /// What the disk held after each write.
    pub open spec fn past(&self) -> Seq<Disk> {
        self.device.past()
    }

    /// Whether nothing but the FAT has changed from `other`.
    pub open spec fn same_but_fat(&self, other: &Self) -> bool {
        &&& self.layout == other.layout
        &&& self.label == other.label
        &&& self.stamp == other.stamp
        &&& self.free_count == other.free_count
        &&& self.next_free == other.next_free
    }

    /// Whether nothing has changed from `other` but what is on the disk and which clusters
    /// are free.
    pub open spec fn same_volume(&self, other: &Self) -> bool {
        &&& self.layout == other.layout
        &&& self.label == other.label
        &&& self.stamp == other.stamp
    }

    /// Writes the pending FAT sector to every copy of the FAT.
    fn flush_fat(&mut self) -> (r: Result<(), FatError<D::Error>>)
        requires
            old(self).pending_wf(),
        ensures
            final(self).wf(),
            final(self).same_but_fat(old(self)),
            volume::told(r, old(self).failures(), final(self).failures()),
            match r {
                Ok(_) => final(self).disk() == old(self).pending_disk() && final(self).fat_dirty
                    is None && (old(self).pending_in_fat() ==> laws::sound(
                    old(self).layout,
                    final(self).disk(),
                ) && cuts::through(
                    old(self).layout,
                    old(self).pending_disk(),
                    old(self).past(),
                    final(self).past(),
                    Seq::empty(),
                    Seq::empty(),
                )),
                Err(error) => error is Device,
            },
    {
        let (sector, block) = match self.fat_dirty {
            Some((sector, block)) => (sector, block),
            None => {
                proof {
                    cuts::lemma_no_moments(
                        self.layout,
                        self.disk(),
                        self.past(),
                        Seq::empty(),
                        Seq::empty(),
                    );
                }
                return Ok(());
            },
        };
        self.fat_dirty = None;
        let mut copy: u64 = 0;
        let ghost layout = self.layout;
        let ghost disk = self.disk();
        let ghost whole = old(self).pending_disk();
        proof {
            cuts::lemma_no_moments(layout, whole, self.past(), Seq::empty(), Seq::empty());
        }
        while copy < self.layout.fat_count
            invariant
                copy <= layout.fat_count,
                layout == self.layout,
                self.wf(),
                self.fat_cache is None,
                sector <= 0xFFFF_FFFF,
                self.same_but_fat(old(self)),
                self.failures() == old(self).failures(),
                self.disk() == layout.with_copies(disk, sector as int, block@, copy as int),
                self.fat_dirty is None,
                whole == layout.with_copies(
                    disk,
                    sector as int,
                    block@,
                    layout.fat_count as int,
                ),
                old(self).pending_in_fat() ==> laws::sound(layout, disk) && layout.fat_start
                    <= sector < layout.fat_start + layout.fat_size && cuts::through(
                    layout,
                    whole,
                    old(self).past(),
                    self.past(),
                    Seq::empty(),
                    Seq::empty(),
                ),
            decreases layout.fat_count - copy,
        {
            let ghost past = self.past();
            assert(copy * layout.fat_size <= layout.fat_count * layout.fat_size)
                by (nonlinear_arith)
                requires
                    copy <= layout.fat_count,
            ;
            let at: u64 = sector + copy * self.layout.fat_size;
            match self.device.write_block(Lba(self.layout.start).offset(at), &block) {
                Ok(_) => {},
                Err(error) => {
                    return Err(FatError::Device(error));
                },
            }
            copy += 1;
            proof {
                if old(self).pending_in_fat() {
                    cuts::lemma_copies_only(layout, disk, sector as int, block@, copy as int);
                    cuts::lemma_pushed(
                        layout,
                        whole,
                        old(self).past(),
                        past,
                        self.disk(),
                        Seq::empty(),
                        Seq::empty(),
                    );
                }
            }
        }
        proof {
            if old(self).pending_in_fat() {
                cuts::lemma_copies_only(
                    layout,
                    disk,
                    sector as int,
                    block@,
                    layout.fat_count as int,
                );
            }
        }
        self.fat_cache = Some((sector, block));
        proof {
            layout.lemma_first_copy(disk, sector as int, block@);
        }
        Ok(())
    }

    /// Has the FAT sector `sector` pending.
    fn make_pending(&mut self, sector: u64) -> (r: Result<(), FatError<D::Error>>)
        requires
            old(self).pending_wf(),
            sector <= 0xFFFF_FFFF,
        ensures
            final(self).same_but_fat(old(self)),
            volume::told(r, old(self).failures(), final(self).failures()),
            match r {
                Ok(_) => {
                    &&& final(self).pending_wf()
                    &&& final(self).fat_dirty matches Some((dirty, block)) && dirty == sector
                        && block@ == final(self).layout.sector(
                        final(self).pending_disk(),
                        sector as int,
                    )
                    &&& forall|new: Seq<u8>| #[trigger]
                        final(self).layout.with_copies(
                            final(self).disk(),
                            sector as int,
                            new,
                            final(self).layout.fat_count as int,
                        ) == final(self).layout.with_copies(
                            old(self).pending_disk(),
                            sector as int,
                            new,
                            final(self).layout.fat_count as int,
                        )
                    &&& (final(self).fat_dirty->0).1@ == old(self).layout.sector(
                        old(self).pending_disk(),
                        sector as int,
                    )
                    &&& old(self).pending_in_fat() ==> laws::sound(
                        old(self).layout,
                        final(self).disk(),
                    ) && cuts::through(
                        old(self).layout,
                        old(self).pending_disk(),
                        old(self).past(),
                        final(self).past(),
                        Seq::empty(),
                        Seq::empty(),
                    )
                },
                Err(error) => error is Device && final(self).wf(),
            },
    {
        let ghost layout = self.layout;
        proof {
            cuts::lemma_no_moments(
                layout,
                self.pending_disk(),
                self.past(),
                Seq::empty(),
                Seq::empty(),
            );
        }
        let other = match self.fat_dirty {
            Some((dirty, _)) => dirty != sector,
            None => false,
        };
        if other {
            self.flush_fat()?;
        }
        if let Some((_, block)) = self.fat_dirty {
            proof {
                layout.lemma_first_copy(self.disk(), sector as int, block@);
                assert forall|new: Seq<u8>| true implies #[trigger] layout.with_copies(
                    self.disk(),
                    sector as int,
                    new,
                    layout.fat_count as int,
                ) == layout.with_copies(
                    old(self).pending_disk(),
                    sector as int,
                    new,
                    layout.fat_count as int,
                ) by {
                    layout.lemma_copies_again(
                        self.disk(),
                        sector as int,
                        block@,
                        new,
                        layout.fat_count as int,
                    );
                }
            }
            return Ok(());
        }
        let mut block = zero_block();
        let cached = match &self.fat_cache {
            Some((cached, kept)) => if *cached == sector {
                block = *kept;
                true
            } else {
                false
            },
            None => false,
        };
        self.fat_cache = None;
        if !cached {
            match self.device.read_block(Lba(self.layout.start).offset(sector), &mut block) {
                Ok(_) => {},
                Err(error) => {
                    return Err(FatError::Device(error));
                },
            }
        }
        self.fat_dirty = Some((sector, block));
        proof {
            layout.lemma_first_copy(self.disk(), sector as int, block@);
        }
        Ok(())
    }

    /// Changes FAT entry `cluster` in the pending sector, writing out another pending one
    /// first. FAT32's reserved top bits are kept.
    fn set_fat_entry(&mut self, cluster: u32, value: u32) -> (r: Result<(), FatError<D::Error>>)
        requires
            old(self).pending_wf(),
            value < 0x1000_0000,
            old(self).layout.fat_type == FatType::Fat16 ==> value < 0x1_0000,
        ensures
            final(self).same_but_fat(old(self)),
            volume::told(r, old(self).failures(), final(self).failures()),
            match r {
                Ok(_) => {
                    &&& final(self).pending_wf()
                    &&& final(self).pending_disk() == old(self).layout.with_entry(
                        old(self).pending_disk(),
                        cluster,
                        value,
                    )
                    &&& old(self).pending_in_fat() && old(self).layout.has_cluster(cluster)
                        ==> final(self).pending_in_fat() && cuts::through(
                        old(self).layout,
                        old(self).pending_disk(),
                        old(self).past(),
                        final(self).past(),
                        Seq::empty(),
                        Seq::empty(),
                    )
                },
                Err(error) => error is Device && final(self).wf(),
            },
    {
        let (sector, at) = self.fat_position(cluster);
        proof {
            if old(self).pending_in_fat() && self.layout.has_cluster(cluster) {
                laws::lemma_entry_place(self.layout, self.disk(), cluster);
            }
        }
        self.make_pending(sector)?;
        let ghost layout = self.layout;
        let mut block: Block = match self.fat_dirty {
            Some((_, block)) => block,
            None => zero_block(),
        };
        let ghost before = block@;
        match self.layout.fat_type {
            FatType::Fat16 => {
                block[at] = (value % 0x100) as u8;
                block[at + 1] = (value / 0x100) as u8;
                assert(block@ =~= layout.with_value(before, at as int, value));
            },
            FatType::Fat32 => {
                let word: u32 = bytes::le32_at(&block, at) / 0x1000_0000 * 0x1000_0000 + value;
                block[at] = (word % 0x100) as u8;
                block[at + 1] = (word / 0x100 % 0x100) as u8;
                block[at + 2] = (word / 0x1_0000 % 0x100) as u8;
                block[at + 3] = (word / 0x100_0000) as u8;
                assert(block@ =~= layout.with_value(before, at as int, value));
            },
        }
        self.fat_dirty = Some((sector, block));
        Ok(())
    }
}

/// Whether all of `clusters` are on the volume.
pub open spec fn all_there(layout: Layout, clusters: Seq<u32>) -> bool {
    forall|k: int| 0 <= k < clusters.len() ==> layout.has_cluster(#[trigger] clusters[k])
}

/// Whether an operation that was to have the outcome `expected` had it, or the device failed.
pub open spec fn had<T, E>(
    r: Result<T, FatError<E>>,
    expected: (Result<T, Fault>, Volume),
    after: Volume,
) -> bool {
    match r {
        Ok(value) => expected == (Ok::<T, Fault>(value), after),
        Err(error) => error is Device || (error.fault() matches Some(fault) && expected == (
            Err::<T, Fault>(fault),
            after,
        )),
    }
}

/// Whether FSInfo is brought up to date after a change, even one that isn't made.
pub open spec fn keeps_fsinfo(v: Volume) -> bool {
    v.layout.fsinfo is Some && v.free_count is Some
}

/// Whether an error is what giving back the chain from `first` on finds wrong with it.
pub open spec fn found_freeing<E>(r: Result<(), FatError<E>>, first: u32, w: Volume) -> bool {
    r matches Err(error) && error.fault() matches Some(fault) && w.chain_freed(first) == (
        Err::<(), Fault>(fault),
        w,
    )
}

/// Whether a change that was to have the outcome `expected` had it, if the device didn't fail. If
/// it did, the error is the device's, or what giving back the new chain then found.
pub open spec fn had_or_found<E>(
    r: Result<(), FatError<E>>,
    expected: (Result<(), Fault>, Volume),
    after: Volume,
    failed: bool,
    first: Option<u32>,
) -> bool {
    if failed {
        volume::device_failed(r) || (first matches Some(c) && found_freeing(r, c, after))
    } else {
        !volume::device_failed(r) && had(r, expected, after)
    }
}

/// The same, once FSInfo is up to date.
pub open spec fn ended_or_found<E>(
    r: Result<(), FatError<E>>,
    expected: (Result<(), Fault>, Volume),
    after: Volume,
    failed: bool,
    first: Option<u32>,
) -> bool {
    if failed {
        volume::device_failed(r) || (first matches Some(c) && exists|w: Volume|
            after == w.finished() && #[trigger] found_freeing(r, c, w))
    } else {
        !volume::device_failed(r) && had(r, expected, after)
    }
}

/// The first cluster of the chain that `data` is put in.
pub open spec fn first_for_data(v: Volume, data: Seq<u8>) -> Option<u32> {
    match v.begun().chain_written(data).0 {
        Ok(first) => Some(first),
        Err(_) => None,
    }
}

/// The cluster that a new directory is put in.
pub open spec fn first_for_dir(v: Volume) -> Option<u32> {
    match v.begun().allocated(1) {
        Some(clusters) => Some(clusters[0]),
        None => None,
    }
}

impl<D: WritableBlockDevice> Fat<D> {
    /// Chains `clusters` in the FAT, in order, ending the chain after the last.
    fn link(&mut self, clusters: &[u32]) -> (r: Result<(), FatError<D::Error>>)
        requires
            old(self).wf(),
            all_there(old(self).layout, clusters@),
        ensures
            final(self).wf(),
            final(self).same_volume(old(self)),
            volume::told(r, old(self).failures(), final(self).failures()),
            match r {
                Ok(_) => final(self).model() == (Volume {
                    disk: old(self).layout.with_links(
                        old(self).disk(),
                        clusters@,
                        clusters@.len() as int,
                    ),
                    free_count: old(self).model().less_free(clusters@.len() as int),
                    ..old(self).model()
                }) && (laws::sound(old(self).layout, old(self).disk()) ==> cuts::through(
                    old(self).layout,
                    old(self).disk(),
                    old(self).past(),
                    final(self).past(),
                    Seq::empty(),
                    clusters@,
                )),
                Err(error) => error is Device,
            },
    {
        let end: u32 = match self.layout.fat_type {
            FatType::Fat16 => 0xFFFF,
            FatType::Fat32 => 0x0FFF_FFFF,
        };
        let ghost layout = self.layout;
        let ghost disk = self.disk();
        let ghost past = self.past();
        let ghost well = laws::sound(layout, disk);
        proof {
            cuts::lemma_no_moments(layout, disk, past, Seq::empty(), clusters@);
        }
        let mut i: usize = 0;
        while i < clusters.len()
            invariant
                i <= clusters@.len(),
                self.pending_wf(),
                well ==> laws::sound(layout, disk) && self.pending_in_fat() && cuts::through(
                    layout,
                    disk,
                    past,
                    self.past(),
                    Seq::empty(),
                    clusters@,
                ),
                layout == self.layout,
                end == layout.end_mark(),
                self.same_but_fat(old(self)),
                self.failures() == old(self).failures(),
                all_there(layout, clusters@),
                self.pending_disk() == layout.with_links(disk, clusters@, i as int),
            decreases clusters@.len() - i,
        {
            let next: u32 = if i + 1 < clusters.len() {
                assert(layout.has_cluster(clusters@[i + 1]));
                clusters[i + 1]
            } else {
                end
            };
            let ghost so_far = self.past();
            assert(layout.has_cluster(clusters@[i as int]));
            self.set_fat_entry(clusters[i], next)?;
            proof {
                if well {
                    cuts::lemma_links_only(layout, disk, clusters@, i as int);
                    cuts::lemma_through_then(
                        layout,
                        disk,
                        layout.with_links(disk, clusters@, i as int),
                        past,
                        so_far,
                        self.past(),
                        Seq::empty(),
                        clusters@,
                        Seq::empty(),
                        Seq::empty(),
                    );
                }
            }
            i += 1;
        }
        let ghost so_far = self.past();
        self.flush_fat()?;
        proof {
            if well {
                cuts::lemma_links_only(layout, disk, clusters@, i as int);
                cuts::lemma_through_then(
                    layout,
                    disk,
                    layout.with_links(disk, clusters@, i as int),
                    past,
                    so_far,
                    self.past(),
                    Seq::empty(),
                    clusters@,
                    Seq::empty(),
                    Seq::empty(),
                );
            }
        }
        let count = clusters.len();
        self.free_count = match self.free_count {
            Some(free) => Some(
                if count as u64 <= free as u64 {
                    free - count as u32
                } else {
                    0
                },
            ),
            None => None,
        };
        Ok(())
    }

    /// Frees the chain starting at `first` (nothing for 0).
    fn free_chain(&mut self, first: u32) -> (r: Result<(), FatError<D::Error>>)
        requires
            old(self).wf(),
        ensures
            final(self).wf(),
            final(self).same_volume(old(self)),
            volume::told(r, old(self).failures(), final(self).failures()),
            had(r, old(self).model().chain_freed(first), final(self).model()),
            laws::sound(old(self).layout, old(self).disk()) && !volume::device_failed(r) ==> cuts::through(
                old(self).layout,
                old(self).disk(),
                old(self).past(),
                final(self).past(),
                Seq::empty(),
                cuts::chain_at(old(self).layout, old(self).disk(), first),
            ),
    {
        let ghost past = self.past();
        proof {
            cuts::lemma_no_moments(
                self.layout,
                self.disk(),
                past,
                Seq::empty(),
                cuts::chain_at(self.layout, self.disk(), first),
            );
        }
        // Cluster 0 is an empty file's: no chain.
        if first == 0 {
            return Ok(());
        }
        let chain = match self.chain(first) {
            Ok(chain) => chain,
            Err(error) => {
                return Err(error);
            },
        };
        let ghost layout = self.layout;
        let ghost disk = self.disk();
        proof {
            super::read::lemma_chain_valid(
                layout,
                disk,
                first,
                layout.cluster_count as nat,
                None,
            );
        }
        let ghost well = laws::sound(layout, disk);
        let mut lowest: u32 = chain[0];
        let mut i: usize = 0;
        while i < chain.len()
            invariant
                i <= chain@.len(),
                0 < chain@.len(),
                self.pending_wf(),
                all_there(layout, chain@),
                well ==> laws::sound(layout, disk) && self.pending_in_fat() && cuts::through(
                    layout,
                    disk,
                    past,
                    self.past(),
                    Seq::empty(),
                    chain@,
                ),
                layout == self.layout,
                self.same_but_fat(old(self)),
                self.failures() == old(self).failures(),
                self.pending_disk() == layout.with_freed(disk, chain@, i as int),
                i == 0 ==> lowest == chain@[0],
                i > 0 ==> lowest == change::lowest(chain@.subrange(0, i as int)),
            decreases chain@.len() - i,
        {
            let ghost so_far = self.past();
            assert(layout.has_cluster(chain@[i as int]));
            self.set_fat_entry(chain[i], 0)?;
            proof {
                if well {
                    cuts::lemma_freed_only(layout, disk, chain@, i as int);
                    cuts::lemma_through_then(
                        layout,
                        disk,
                        layout.with_freed(disk, chain@, i as int),
                        past,
                        so_far,
                        self.past(),
                        Seq::empty(),
                        chain@,
                        Seq::empty(),
                        Seq::empty(),
                    );
                }
            }
            if chain[i] < lowest {
                lowest = chain[i];
            }
            i += 1;
            proof {
                let part = chain@.subrange(0, i as int);
                assert(part.last() == chain@[i - 1]);
                assert(part.drop_last() =~= chain@.subrange(0, i - 1));
            }
        }
        assert(chain@.subrange(0, i as int) =~= chain@);
        let ghost so_far = self.past();
        self.flush_fat()?;
        proof {
            if well {
                cuts::lemma_freed_only(layout, disk, chain@, i as int);
                cuts::lemma_through_then(
                    layout,
                    disk,
                    layout.with_freed(disk, chain@, i as int),
                    past,
                    so_far,
                    self.past(),
                    Seq::empty(),
                    chain@,
                    Seq::empty(),
                    Seq::empty(),
                );
            }
        }
        let count: u64 = chain.len() as u64;
        self.free_count = match self.free_count {
            Some(free) => Some(
                if free as u64 + count <= 0xFFFF_FFFF {
                    free + count as u32
                } else {
                    0xFFFF_FFFF
                },
            ),
            None => None,
        };
        if lowest < self.next_free {
            self.next_free = lowest;
        }
        Ok(())
    }

    /// Clusters no chain uses. Reads the whole FAT.
    pub fn free_clusters(&mut self) -> (r: Result<u32, FatError<D::Error>>)
        requires
            old(self).wf(),
        ensures
            final(self).wf(),
            final(self).same_as(old(self)),
            volume::told(r, old(self).failures(), final(self).failures()),
            match r {
                Ok(free) => free == old(self).layout.free_in(old(self).disk()),
                Err(error) => error is Device,
            },
    {
        let ghost layout = self.layout;
        let ghost disk = self.disk();
        let mut free: u32 = 0;
        let mut i: u32 = 0;
        while i < self.layout.cluster_count
            invariant
                self.wf(),
                self.same_as(old(self)),
                self.failures() == old(self).failures(),
                layout == self.layout,
                disk == self.disk(),
                i <= layout.cluster_count,
                free <= i,
                free == layout.free_among(disk, 2, i as int).len(),
            decreases layout.cluster_count - i,
        {
            assert(layout.nth_cluster(2, i as int) == 2 + i) by {
                vstd::arithmetic::div_mod::lemma_small_mod(i as nat, layout.cluster_count as nat);
            }
            if self.fat_entry(2 + i)? == 0 {
                free += 1;
            }
            i += 1;
        }
        Ok(free)
    }

    /// Before the first change on FAT32: counts the free clusters, so FSInfo can be kept up.
    fn begin_change(&mut self) -> (r: Result<(), FatError<D::Error>>)
        requires
            old(self).wf(),
        ensures
            final(self).wf(),
            final(self).same_volume(old(self)),
            volume::told(r, old(self).failures(), final(self).failures()),
            final(self).past() == old(self).past(),
            match r {
                Ok(_) => final(self).model() == old(self).model().begun(),
                Err(error) => error is Device && final(self).model() == old(self).model(),
            },
    {
        if self.layout.fsinfo.is_some() && self.free_count.is_none() {
            let free = self.free_clusters()?;
            self.free_count = Some(free);
        }
        Ok(())
    }

    /// Brings FSInfo up to date.
    fn update_fsinfo(&mut self) -> (r: Result<(), FatError<D::Error>>)
        requires
            old(self).wf(),
        ensures
            final(self).wf(),
            final(self).same_volume(old(self)),
            volume::told(r, old(self).failures(), final(self).failures()),
            match r {
                Ok(_) => final(self).model() == old(self).model().finished() && (final(self).past()
                    == old(self).past() || final(self).past() == old(self).past().push(
                    final(self).disk(),
                )),
                Err(error) => error is Device && keeps_fsinfo(old(self).model()),
            },
    {
        let (sector, free) = match (self.layout.fsinfo, self.free_count) {
            (Some(sector), Some(free)) => (sector, free),
            _ => {
                return Ok(());
            },
        };
        let mut block = zero_block();
        match self.device.read_block(Lba(self.layout.start).offset(sector), &mut block) {
            Ok(_) => {},
            Err(error) => {
                return Err(FatError::Device(error));
            },
        }
        if bytes::le32_at(&block, 0) == FSINFO_LEAD && bytes::le32_at(&block, 484)
            == FSINFO_STRUCT {
            let ghost before = block@;
            put_le32(&mut block, 488, free);
            put_le32(&mut block, 492, self.next_free);
            self.write_sector(sector, &block)?;
        }
        Ok(())
    }

    /// After a change, successful or not: brings FSInfo up to date.
    fn finish_change(&mut self, result: Result<(), FatError<D::Error>>) -> (r: Result<
        (),
        FatError<D::Error>,
    >)
        requires
            old(self).wf(),
        ensures
            final(self).wf(),
            final(self).same_volume(old(self)),
            (r == result && final(self).model() == old(self).model().finished() && (
            final(self).past() == old(self).past() || final(self).past() == old(self).past().push(
                final(self).disk(),
            )) && final(self).failures() == old(self).failures()) || (volume::device_failed(r)
                && keeps_fsinfo(old(self).model()) && old(self).failures() < final(self).failures()),
    {
        match self.update_fsinfo() {
            Ok(_) => result,
            Err(error) => Err(error),
        }
    }

    /// Writes blocks to the sectors from `sector` on.
    fn write_sectors(&mut self, sector: u64, blocks: &[Block]) -> (r: Result<
        (),
        FatError<D::Error>,
    >)
        requires
            old(self).wf(),
            sector + blocks@.len() <= 0x1_0000_0000,
        ensures
            final(self).wf(),
            final(self).same_but_fat(old(self)),
            volume::told(r, old(self).failures(), final(self).failures()),
            match r {
                Ok(_) => final(self).disk() == block::blocks_written(
                    old(self).disk(),
                    old(self).layout.block(sector as int),
                    blocks@,
                ) && block::went_through(
                    old(self).past(),
                    final(self).past(),
                    old(self).disk(),
                    old(self).layout.block(sector as int),
                    blocks@.len(),
                ),
                Err(error) => error is Device,
            },
    {
        // A FAT sector that is kept and written over is kept no more.
        let stale = match &self.fat_cache {
            Some((cached, _)) => sector <= *cached && *cached - sector < blocks.len() as u64,
            None => false,
        };
        if stale {
            self.fat_cache = None;
        }
        let ghost kept = self.fat_cache;
        let ghost before = self.disk();
        let start = self.layout.start;
        match self.device.write_blocks(Lba(start).offset(sector), blocks) {
            Ok(_) => {
                proof {
                    if let Some((cached, _)) = kept {
                        assert(self.device.disk()[self.layout.block(cached as int)]
                            == before[self.layout.block(cached as int)]);
                    }
                }
                Ok(())
            },
            Err(error) => {
                proof {
                    if let Some((cached, _)) = kept {
                        assert(self.device.disk()[self.layout.block(cached as int)]
                            == before[self.layout.block(cached as int)]);
                    }
                }
                Err(FatError::Device(error))
            },
        }
    }

    /// Writes a block to a sector.
    fn write_sector(&mut self, sector: u64, block: &Block) -> (r: Result<(), FatError<D::Error>>)
        requires
            old(self).wf(),
            sector <= 0xFFFF_FFFF,
        ensures
            final(self).wf(),
            final(self).same_but_fat(old(self)),
            volume::told(r, old(self).failures(), final(self).failures()),
            match r {
                Ok(_) => final(self).disk() == old(self).disk().insert(
                    old(self).layout.block(sector as int),
                    block@,
                ) && final(self).past() == old(self).past().push(final(self).disk()),
                Err(error) => error is Device,
            },
    {
        // A FAT sector that is kept and written over is kept no more.
        let stale = match &self.fat_cache {
            Some((cached, _)) => *cached == sector,
            None => false,
        };
        if stale {
            self.fat_cache = None;
        }
        let ghost kept = self.fat_cache;
        let ghost before = self.disk();
        let result = self.device.write_block(Lba(self.layout.start).offset(sector), block);
        proof {
            if let Some((cached, _)) = kept {
                assert(self.device.disk()[self.layout.block(cached as int)]
                    == before[self.layout.block(cached as int)]);
            }
        }
        match result {
            Ok(_) => Ok(()),
            Err(error) => Err(FatError::Device(error)),
        }
    }

    /// Finds `count` free clusters. Nothing is marked yet: they stay free until `link`.
    fn allocate(&mut self, count: usize) -> (r: Result<Vec<u32>, FatError<D::Error>>)
        requires
            old(self).wf(),
            count > 0,
        ensures
            final(self).wf(),
            final(self).same_volume(old(self)),
            volume::told(r, old(self).failures(), final(self).failures()),
            final(self).past() == old(self).past(),
            match r {
                Ok(clusters) => {
                    &&& old(self).model().allocated(count as int) == Some(clusters@)
                    &&& clusters@.len() == count
                    &&& all_there(old(self).layout, clusters@)
                    &&& final(self).model() == Volume {
                        next_free: (clusters@.last() + 1) as u32,
                        ..old(self).model()
                    }
                },
                Err(error) => error is Device || (error.fault() == Some(Fault::NoSpace) && old(
                    self).model().allocated(count as int) is None && final(self).model() == old(
                    self).model()),
            },
    {
        let ghost layout = self.layout;
        let ghost disk = self.disk();
        let total = self.layout.cluster_count;
        let start: u32 = if self.next_free < 2 {
            2
        } else if self.next_free > total + 1 {
            total + 1
        } else {
            self.next_free
        };
        let mut clusters: Vec<u32> = Vec::new();
        let mut i: u32 = 0;
        while i < total && clusters.len() < count
            invariant
                self.wf(),
                self.same_as(old(self)),
                self.failures() == old(self).failures(),
                layout == self.layout,
                disk == self.disk(),
                total == layout.cluster_count,
                2 <= start <= total + 1,
                i <= total,
                clusters@.len() <= count,
                clusters@ == layout.free_among(disk, start, i as int),
                all_there(layout, clusters@),
            decreases total - i,
        {
            let cluster: u32 = 2 + (start - 2 + i) % total;
            if self.fat_entry(cluster)? == 0 {
                clusters.push(cluster);
            }
            i += 1;
        }
        proof {
            lemma_free_prefix(layout, disk, start, i as int, total as int);
            let free = layout.free_among(disk, start, total as int);
            if clusters@.len() == count {
                assert(free.subrange(0, count as int) =~= clusters@);
            }
        }
        if clusters.len() < count {
            return Err(FatError::NoSpace);
        }
        let last = clusters[clusters.len() - 1];
        assert(layout.has_cluster(clusters@[clusters@.len() - 1]));
        self.next_free = last + 1;
        Ok(clusters)
    }
}

/// Free clusters that were found stay found.
pub proof fn lemma_free_prefix(layout: Layout, disk: Disk, start: u32, i: int, n: int)
    requires
        0 <= i <= n,
    ensures
        layout.free_among(disk, start, i).len() <= layout.free_among(disk, start, n).len(),
        layout.free_among(disk, start, n).subrange(
            0,
            layout.free_among(disk, start, i).len() as int,
        ) == layout.free_among(disk, start, i),
    decreases n - i,
{
    let part = layout.free_among(disk, start, i);
    if i < n {
        lemma_free_prefix(layout, disk, start, i, n - 1);
        let most = layout.free_among(disk, start, n - 1);
        let all = layout.free_among(disk, start, n);
        assert(all.subrange(0, part.len() as int) =~= most.subrange(0, part.len() as int));
    } else {
        assert(part.subrange(0, part.len() as int) =~= part);
    }
}

/// Puts a word in a block.
fn put_le32(block: &mut Block, at: usize, value: u32)
    requires
        at + 4 <= 512,
    ensures
        final(block)@ == bytes::splice(old(block)@, at as int, bytes::le32_bytes(value)),
{
    block[at] = (value % 0x100) as u8;
    block[at + 1] = (value / 0x100 % 0x100) as u8;
    block[at + 2] = (value / 0x1_0000 % 0x100) as u8;
    block[at + 3] = (value / 0x100_0000) as u8;
    assert(block@ =~= bytes::splice(old(block)@, at as int, bytes::le32_bytes(value)));
}

impl Layout {
    /// Data in two lists of sectors is data in the first, and then the rest in the second.
    pub proof fn lemma_data_concat(self, disk: Disk, a: Seq<int>, b: Seq<int>, data: Seq<u8>)
        requires
            data.len() >= 512 * (a.len() + b.len()),
        ensures
            self.with_data(disk, a + b, data) == self.with_data(
                self.with_data(disk, a, data),
                b,
                data.subrange(512 * a.len() as int, data.len() as int),
            ),
        decreases b.len(),
    {
        let rest = data.subrange(512 * a.len() as int, data.len() as int);
        if b.len() == 0 {
            assert(a + b =~= a);
        } else {
            self.lemma_data_concat(disk, a, b.drop_last(), data);
            assert((a + b).drop_last() =~= a + b.drop_last());
            let n = b.len() as int;
            let m = (a + b).len() as int;
            assert(rest.subrange(512 * (n - 1), 512 * n) =~= data.subrange(
                512 * (m - 1),
                512 * m,
            ));
        }
    }

    /// Blocks written one after another are data in consecutive sectors.
    pub proof fn lemma_blocks_data(self, disk: Disk, first: int, blocks: Seq<Block>, data: Seq<u8>)
        requires
            self.wf(),
            0 <= first,
            first + blocks.len() <= 0x1_0000_0000,
            data.len() >= 512 * blocks.len(),
            forall|i: int|
                0 <= i < blocks.len() ==> (#[trigger] blocks[i])@ == data.subrange(
                    512 * i,
                    512 * i + 512,
                ),
        ensures
            block::blocks_written(disk, self.block(first), blocks) == self.with_data(
                disk,
                volume::sector_range(first, blocks.len() as int),
                data,
            ),
        decreases blocks.len(),
    {
        let range = volume::sector_range(first, blocks.len() as int);
        if blocks.len() > 0 {
            let front = blocks.drop_last();
            assert forall|i: int| 0 <= i < front.len() implies (#[trigger] front[i])@
                == data.subrange(512 * i, 512 * i + 512) by {
                assert(front[i] == blocks[i]);
            }
            self.lemma_blocks_data(disk, first, front, data);
            assert(range.drop_last() =~= volume::sector_range(first, front.len() as int));
            let n = blocks.len() as int;
            assert(range.last() == first + n - 1);
            assert(blocks[n - 1]@ == data.subrange(512 * (n - 1), 512 * (n - 1) + 512));
            assert((self.block(first) + n - 1) as u64 == self.block(first + n - 1));
        } else {
            assert(range =~= Seq::<int>::empty());
        }
    }
}

/// Block of `data`, zero-padded, at byte `at`.
fn block_of(data: &[u8], at: u64, Ghost(total): Ghost<int>) -> (r: Block)
    requires
        data@.len() <= total,
        at + 512 <= total <= 0x1_0000_0000_0000,
    ensures
        r@ == change::padded(data@, total).subrange(at as int, at + 512),
{
    let mut block = zero_block();
    let mut i: usize = 0;
    let ghost all = change::padded(data@, total);
    assert(data.len() == data@.len());
    while i < BLOCK_SIZE && at + (i as u64) < data.len() as u64
        invariant
            i <= BLOCK_SIZE,
            at + 512 <= total <= 0x1_0000_0000_0000,
            data@.len() <= total,
            data@.len() <= usize::MAX,
            all == change::padded(data@, total),
            forall|k: int| 0 <= k < i ==> #[trigger] block@[k] == all[at + k],
            forall|k: int| i <= k < 512 ==> #[trigger] block@[k] == 0,
        decreases BLOCK_SIZE - i,
    {
        block[i] = data[(at + i as u64) as usize];
        i += 1;
    }
    assert(block@ =~= all.subrange(at as int, at + 512));
    block
}

impl<D: WritableBlockDevice> Fat<D> {
    /// Writes `data` (zero-padded to whole clusters) into `clusters`, a run of consecutive
    /// ones at a time.
    #[verifier::rlimit(60)]
    #[verifier::spinoff_prover]
    fn write_clusters(&mut self, clusters: &[u32], data: &[u8]) -> (r: Result<
        (),
        FatError<D::Error>,
    >)
        requires
            old(self).wf(),
            all_there(old(self).layout, clusters@),
            clusters@.len() <= old(self).layout.cluster_count,
            data@.len() <= clusters@.len() * old(self).layout.cluster_bytes(),
        ensures
            final(self).wf(),
            final(self).same_but_fat(old(self)),
            volume::told(r, old(self).failures(), final(self).failures()),
            match r {
                Ok(_) => final(self).disk() == old(self).layout.with_data(
                    old(self).disk(),
                    old(self).layout.sectors_of(clusters@),
                    change::padded(data@, clusters@.len() * old(self).layout.cluster_bytes()),
                ) && (laws::sound(old(self).layout, old(self).disk()) ==> cuts::through(
                    old(self).layout,
                    old(self).disk(),
                    old(self).past(),
                    final(self).past(),
                    old(self).layout.sectors_of(clusters@),
                    Seq::empty(),
                )),
                Err(error) => error is Device,
            },
    {
        let ghost layout = self.layout;
        let ghost disk = self.disk();
        let ghost past = self.past();
        let ghost well = laws::sound(layout, disk);
        let ghost everywhere = layout.sectors_of(clusters@);
        proof {
            cuts::lemma_no_moments(layout, disk, past, everywhere, Seq::empty());
        }
        let ghost size = layout.cluster_bytes();
        let ghost total = clusters@.len() * size;
        let ghost all = change::padded(data@, total);
        let per_cluster = self.layout.sectors_per_cluster;
        let max_run = longest_run(per_cluster);
        let mut i: usize = 0;
        proof {
            assert(clusters@.subrange(0, 0) =~= Seq::<u32>::empty());
            assert(total <= 0x0FFF_FFF5 * 0x1_0000) by (nonlinear_arith)
                requires
                    total == clusters@.len() * size,
                    clusters@.len() <= 0x0FFF_FFF5,
                    0 <= size <= 0x1_0000,
            ;
        }
        while i < clusters.len()
            invariant
                self.wf(),
                self.same_but_fat(old(self)),
                self.failures() == old(self).failures(),
                layout == self.layout,
                i <= clusters@.len() <= 0x0FFF_FFF5,
                all_there(layout, clusters@),
                size == layout.cluster_bytes(),
                per_cluster == layout.sectors_per_cluster,
                1 <= max_run <= 256,
                max_run == 1 || max_run * per_cluster <= 256,
                total == clusters@.len() * size,
                total <= 0x0FFF_FFF5 * 0x1_0000,
                data@.len() <= total,
                all == change::padded(data@, total),
                self.disk() == layout.with_data(
                    disk,
                    layout.sectors_of(clusters@.subrange(0, i as int)),
                    all,
                ),
                everywhere == layout.sectors_of(clusters@),
                well ==> laws::sound(layout, disk) && cuts::through(
                    layout,
                    disk,
                    past,
                    self.past(),
                    everywhere,
                    Seq::empty(),
                ),
            decreases clusters@.len() - i,
        {
            let ghost so_far = self.past();
            let ghost here = self.disk();
            let start = clusters[i];
            let mut run: usize = 1;
            while i + run < clusters.len() && (run as u64) < max_run && clusters[i + run] == start
                + run as u32
                invariant
                    i < clusters@.len() <= 0x0FFF_FFF5,
                    1 <= run <= max_run <= 256,
                    i + run <= clusters@.len(),
                    start == clusters@[i as int],
                    all_there(layout, clusters@),
                    layout.wf(),
                    layout.has_cluster(start),
                    forall|k: int| 0 <= k < run ==> #[trigger] clusters@[i + k] == start + k,
                decreases max_run - run,
            {
                assert(layout.has_cluster(clusters@[i + run]));
                run += 1;
            }
            let ghost last = clusters@[i + run - 1];
            proof {
                assert(layout.has_cluster(start) && layout.has_cluster(last));
                lemma_run_place(layout, clusters@, i as int, run as int);
                assert(run * per_cluster <= 256) by (nonlinear_arith)
                    requires
                        run <= max_run,
                        max_run == 1 || max_run * per_cluster <= 256,
                        per_cluster <= 128,
                        per_cluster >= 1,
                ;
                assert(i * size + 512 * (run * per_cluster) <= total) by (nonlinear_arith)
                    requires
                        i + run <= clusters@.len(),
                        total == clusters@.len() * size,
                        size == per_cluster * 512,
                        size >= 0,
                ;
                assert(i * size <= total) by (nonlinear_arith)
                    requires
                        i <= clusters@.len(),
                        total == clusters@.len() * size,
                        size >= 0,
                ;
            }
            let base: u64 = i as u64 * (per_cluster * 512);
            let count: u64 = run as u64 * per_cluster;
            let mut blocks: Vec<Block> = Vec::new();
            while (blocks.len() as u64) < count
                invariant
                    count <= 256,
                    blocks@.len() <= count,
                    base == i * size,
                    base + 512 * count <= total <= 0x0FFF_FFF5 * 0x1_0000,
                    data@.len() <= total,
                    all == change::padded(data@, total),
                    forall|k: int|
                        0 <= k < blocks@.len() ==> (#[trigger] blocks@[k])@ == all.subrange(
                            base + 512 * k,
                            base + 512 * k + 512,
                        ),
                decreases count - blocks@.len(),
            {
                let at: u64 = base + 512 * blocks.len() as u64;
                let block = block_of(data, at, Ghost(total));
                blocks.push(block);
            }
            let sector = self.first_sector(start);
            self.write_sectors(sector, &blocks)?;
            proof {
                let done = layout.sectors_of(clusters@.subrange(0, i as int));
                let range = volume::sector_range(sector as int, count as int);
                let rest = all.subrange(base as int, all.len() as int);
                lemma_sectors_length(layout, clusters@.subrange(0, i as int));
                assert(512 * done.len() == base) by (nonlinear_arith)
                    requires
                        done.len() == i * per_cluster,
                        base == i * (per_cluster * 512),
                ;
                assert forall|k: int| 0 <= k < blocks@.len() implies (#[trigger] blocks@[k])@
                    == rest.subrange(512 * k, 512 * k + 512) by {
                    assert(rest.subrange(512 * k, 512 * k + 512) =~= all.subrange(
                        base + 512 * k,
                        base + 512 * k + 512,
                    ));
                }
                layout.lemma_blocks_data(
                    layout.with_data(disk, done, all),
                    sector as int,
                    blocks@,
                    rest,
                );
                layout.lemma_data_concat(disk, done, range, all);
                if well {
                    cuts::lemma_run_through(
                        layout,
                        disk,
                        here,
                        past,
                        so_far,
                        self.past(),
                        clusters@,
                        i as int,
                        run as int,
                        all,
                    );
                }
            }
            i += run;
        }
        assert(clusters@.subrange(0, i as int) =~= clusters@);
        Ok(())
    }

    /// Puts `data` in `clusters`, and chains them in the FAT.
    fn put_chain(&mut self, clusters: &[u32], data: &[u8]) -> (r: Result<(), FatError<D::Error>>)
        requires
            old(self).wf(),
            all_there(old(self).layout, clusters@),
            clusters@.len() <= old(self).layout.cluster_count,
            data@.len() <= clusters@.len() * old(self).layout.cluster_bytes(),
        ensures
            final(self).wf(),
            final(self).same_volume(old(self)),
            volume::told(r, old(self).failures(), final(self).failures()),
            match r {
                Ok(_) => {
                    let layout = old(self).layout;
                    let written = layout.with_data(
                        old(self).disk(),
                        layout.sectors_of(clusters@),
                        change::padded(data@, clusters@.len() * layout.cluster_bytes()),
                    );
                    &&& final(self).model() == Volume {
                        disk: layout.with_links(written, clusters@, clusters@.len() as int),
                        free_count: old(self).model().less_free(clusters@.len() as int),
                        ..old(self).model()
                    }
                    &&& laws::sound(layout, old(self).disk()) ==> cuts::through(
                        layout,
                        old(self).disk(),
                        old(self).past(),
                        final(self).past(),
                        layout.sectors_of(clusters@),
                        clusters@,
                    )
                },
                Err(error) => error is Device,
            },
    {
        let ghost layout = self.layout;
        let ghost disk = self.disk();
        let ghost past = self.past();
        self.write_clusters(clusters, data)?;
        let ghost written = self.disk();
        let ghost between = self.past();
        self.link(clusters)?;
        proof {
            if laws::sound(layout, disk) {
                cuts::lemma_put_through(
                    layout,
                    disk,
                    written,
                    past,
                    between,
                    self.past(),
                    clusters@,
                    change::padded(data@, clusters@.len() * layout.cluster_bytes()),
                );
            }
        }
        Ok(())
    }

    /// Puts `data` in new clusters, chained in the FAT, and returns the first (0 for none).
    fn write_chain(&mut self, data: &[u8]) -> (r: Result<u32, FatError<D::Error>>)
        requires
            old(self).wf(),
        ensures
            final(self).wf(),
            final(self).same_volume(old(self)),
            volume::told(r, old(self).failures(), final(self).failures()),
            had(r, old(self).model().chain_written(data@), final(self).model()),
            r matches Ok(first) ==> first == 0 || old(self).layout.has_cluster(first),
            laws::sound(old(self).layout, old(self).disk()) && !volume::device_failed(r) ==> match r {
                Ok(_) => cuts::through(
                    old(self).layout,
                    old(self).disk(),
                    old(self).past(),
                    final(self).past(),
                    old(self).layout.sectors_of(
                        laws::clusters_taken(old(self).model(), data@),
                    ),
                    laws::clusters_taken(old(self).model(), data@),
                ),
                Err(_) => final(self).past() == old(self).past(),
            },
    {
        proof {
            let new = laws::clusters_taken(self.model(), data@);
            cuts::lemma_no_moments(
                self.layout,
                self.disk(),
                self.past(),
                self.layout.sectors_of(new),
                new,
            );
        }
        if data.len() == 0 {
            return Ok(0);
        }
        assert(data.len() == data@.len());
        let ghost size = self.layout.cluster_bytes();
        let cluster_bytes: usize = self.layout.sectors_per_cluster as usize * 512;
        let count: usize = (data.len() - 1) / cluster_bytes + 1;
        proof {
            let n = data@.len() as int;
            assert((n + size - 1) / size == (n - 1) / size + 1) by (nonlinear_arith)
                requires
                    size > 0,
            ;
            assert(n <= count * size) by (nonlinear_arith)
                requires
                    count == (n - 1) / size + 1,
                    size > 0,
            ;
        }
        let clusters = match self.allocate(count) {
            Ok(clusters) => clusters,
            Err(error) => {
                return Err(error);
            },
        };
        proof {
            lemma_free_count(old(self).layout, old(self).disk(), old(self).model().first_look(),
                old(self).layout.cluster_count as int);
            assert(old(self).layout.has_cluster(clusters@[0]));
        }
        self.put_chain(&clusters, data)?;
        Ok(clusters[0])
    }

    /// Writes back the sectors holding the slots from `from` to `to` of a directory.
    fn store_dir(&mut self, image: &DirImage, from: usize, to: usize) -> (r: Result<
        (),
        FatError<D::Error>,
    >)
        requires
            old(self).wf(),
            image.wf(old(self).layout),
            from < to <= entries::slot_count(image.bytes@),
        ensures
            final(self).wf(),
            final(self).same_volume(old(self)),
            volume::told(r, old(self).failures(), final(self).failures()),
            match r {
                Ok(_) => final(self).model() == old(self).model().dir_stored(
                    image.model(),
                    from as int,
                    to as int,
                ) && final(self).past() == old(self).past() + cuts::storing_moments(
                    old(self).model(),
                    image.model(),
                    from as int,
                    to as int,
                ),
                Err(error) => error is Device,
            },
    {
        let ghost layout = self.layout;
        let ghost disk = self.disk();
        let first: usize = from / 16;
        let end: usize = (to - 1) / 16 + 1;
        let ghost places = image.places().subrange(first as int, end as int);
        let ghost data = image.bytes@.subrange(512 * first, 512 * end);
        let ghost past = self.past();
        let ghost v = self.model();
        let mut index: usize = first;
        assert(past + cuts::stored_moments(v, image.model(), from as int, to as int, 0) =~= past);
        assert(places.subrange(0, 0) =~= Seq::<int>::empty());
        assert(image.bytes.len() == image.bytes@.len());
        while index < end
            invariant
                self.wf(),
                self.same_but_fat(old(self)),
                self.failures() == old(self).failures(),
                layout == self.layout,
                image.wf(layout),
                image.bytes@.len() <= usize::MAX,
                first <= index <= end <= image.sectors@.len(),
                places == image.places().subrange(first as int, end as int),
                data == image.bytes@.subrange(512 * first, 512 * end),
                self.disk() == layout.with_data(disk, places.subrange(0, index - first), data),
                v.layout == layout,
                v.disk == disk,
                first == from / 16,
                end == (to + 15) / 16,
                self.past() == past + cuts::stored_moments(
                    v,
                    image.model(),
                    from as int,
                    to as int,
                    (index - first) as nat,
                ),
            decreases end - index,
        {
            let mut block = zero_block();
            let mut k: usize = 0;
            while k < BLOCK_SIZE
                invariant
                    k <= BLOCK_SIZE,
                    index < image.sectors@.len(),
                    image.bytes@.len() == 512 * image.sectors@.len(),
                    image.bytes@.len() <= usize::MAX,
                    forall|j: int|
                        0 <= j < k ==> #[trigger] block@[j] == image.bytes@[512 * index + j],
                decreases BLOCK_SIZE - k,
            {
                block[k] = image.bytes[512 * index + k];
                k += 1;
            }
            let sector = image.sectors[index];
            let ghost so_far = self.past();
            self.write_sector(sector, &block)?;
            index += 1;
            proof {
                let n = index - first;
                let part = places.subrange(0, n);
                assert(part.drop_last() =~= places.subrange(0, n - 1));
                assert(part.last() == sector);
                assert(block@ =~= data.subrange(512 * (n - 1), 512 * n));
                assert(part =~= image.places().subrange(first as int, first + n));
                assert(self.past() =~= past + cuts::stored_moments(
                    v,
                    image.model(),
                    from as int,
                    to as int,
                    n as nat,
                ));
            }
        }
        assert(places.subrange(0, end - first) =~= places);
        Ok(())
    }
}

impl DirImage {
    /// What it is.
    pub open spec fn model(&self) -> ImageModel {
        ImageModel { places: self.places(), bytes: self.bytes@ }
    }
}

/// A run of consecutive clusters among others takes consecutive sectors.
pub proof fn lemma_run_place(layout: Layout, clusters: Seq<u32>, i: int, run: int)
    requires
        layout.wf(),
        all_there(layout, clusters),
        0 <= i,
        1 <= run <= 256,
        i + run <= clusters.len(),
        forall|k: int| 0 <= k < run ==> #[trigger] clusters[i + k] == clusters[i] + k,
    ensures
        layout.sectors_of(clusters.subrange(0, i + run)) == layout.sectors_of(
            clusters.subrange(0, i),
        ) + volume::sector_range(
            layout.first_sector(clusters[i]),
            run * layout.sectors_per_cluster,
        ),
        layout.first_sector(clusters[i]) + run * layout.sectors_per_cluster <= 0xFFFF_FFFF,
{
    let per = layout.sectors_per_cluster as int;
    let start = clusters[i];
    let last = clusters[i + run - 1];
    assert(last == clusters[i + (run - 1)]);
    assert(layout.has_cluster(start) && layout.has_cluster(last));
    let part = clusters.subrange(i, i + run);
    assert(part =~= volume::cluster_run(start, run)) by {
        assert forall|k: int| 0 <= k < run implies part[k] == volume::cluster_run(start, run)[k] by {
            assert(clusters[i + k] == start + k);
        }
    }
    layout.lemma_run_sectors(start, run);
    layout.lemma_sectors_concat(clusters.subrange(0, i), part);
    assert(clusters.subrange(0, i) + part =~= clusters.subrange(0, i + run));
    layout.lemma_cluster_place(last);
    assert(layout.first_sector(last) + per == layout.first_sector(start) + run * per)
        by (nonlinear_arith)
        requires
            layout.first_sector(last) == layout.data_start + (last - 2) * per,
            layout.first_sector(start) == layout.data_start + (start - 2) * per,
            last == start + run - 1,
    ;
}

/// How many sectors clusters have.
pub proof fn lemma_sectors_length(layout: Layout, clusters: Seq<u32>)
    ensures
        layout.sectors_of(clusters).len() == clusters.len() * layout.sectors_per_cluster,
    decreases clusters.len(),
{
    let per = layout.sectors_per_cluster as int;
    if clusters.len() > 0 {
        lemma_sectors_length(layout, clusters.drop_last());
        assert(clusters.len() * per == (clusters.len() - 1) * per + per) by (nonlinear_arith);
    } else {
        assert(0 * per == 0);
    }
}

/// There are no more free clusters than clusters.
pub proof fn lemma_free_count(layout: Layout, disk: Disk, start: u32, n: int)
    requires
        0 <= n,
    ensures
        layout.free_among(disk, start, n).len() <= n,
    decreases n,
{
    if n > 0 {
        lemma_free_count(layout, disk, start, n - 1);
    }
}

/// Appends `n` zeros.
fn push_zeros(out: &mut Vec<u8>, n: usize)
    ensures
        final(out)@ == old(out)@ + bytes::zeros(n as nat),
{
    let mut i: usize = 0;
    assert(out@ =~= old(out)@ + bytes::zeros(0));
    while i < n
        invariant
            i <= n,
            out@ == old(out)@ + bytes::zeros(i as nat),
        decreases n - i,
    {
        out.push(0);
        i += 1;
        assert(out@ =~= old(out)@ + bytes::zeros(i as nat));
    }
}

/// Where a directory's entries end.
fn find_end(dir: &[u8]) -> (r: usize)
    ensures
        r == entries::end_slot(dir@, 0),
        r <= entries::slot_count(dir@),
{
    let slots = dir.len() / DIR_ENTRY_SIZE;
    let mut i: usize = 0;
    assert(dir.len() == dir@.len());
    while i < slots && dir[32 * i] != ENTRY_END
        invariant
            i <= slots == entries::slot_count(dir@),
            dir@.len() <= usize::MAX,
            entries::end_slot(dir@, 0) == entries::end_slot(dir@, i as int),
        decreases slots - i,
    {
        i += 1;
    }
    i
}

impl<D: WritableBlockDevice> Fat<D> {
    /// Appends the sectors of clusters to a directory's, and zeros for each.
    fn extend_image(&self, image: &mut DirImage, clusters: &[u32])
        requires
            self.layout.wf(),
            old(image).wf(self.layout),
            all_there(self.layout, clusters@),
        ensures
            final(image).wf(self.layout),
            final(image).places() == old(image).places() + self.layout.sectors_of(clusters@),
            final(image).bytes@ == old(image).bytes@ + bytes::zeros(
                (clusters@.len() * self.layout.cluster_bytes()) as nat,
            ),
    {
        let layout = self.layout;
        let size: usize = layout.sectors_per_cluster as usize * 512;
        let mut i: usize = 0;
        proof {
            assert(clusters@.subrange(0, 0) =~= Seq::<u32>::empty());
            assert(image.places() =~= old(image).places() + layout.sectors_of(
                clusters@.subrange(0, 0),
            ));
            assert(0 * layout.cluster_bytes() == 0);
            assert(image.bytes@ =~= old(image).bytes@ + bytes::zeros(0));
        }
        while i < clusters.len()
            invariant
                i <= clusters@.len(),
                layout == self.layout,
                layout.wf(),
                size == layout.cluster_bytes(),
                all_there(layout, clusters@),
                image.wf(layout),
                image.places() == old(image).places() + layout.sectors_of(
                    clusters@.subrange(0, i as int),
                ),
                image.bytes@ == old(image).bytes@ + bytes::zeros(
                    (i * layout.cluster_bytes()) as nat,
                ),
            decreases clusters@.len() - i,
        {
            assert(layout.has_cluster(clusters@[i as int]));
            let ghost places = image.places();
            let ghost bytes_before = image.bytes@;
            let ghost sectors_before = image.sectors@;
            let sector = self.first_sector(clusters[i]);
            proof {
                layout.lemma_cluster_place(clusters@[i as int]);
            }
            push_sectors(&mut image.sectors, sector, layout.sectors_per_cluster);
            push_zeros(&mut image.bytes, size);
            i += 1;
            proof {
                let part = clusters@.subrange(0, i as int);
                assert(part.drop_last() =~= clusters@.subrange(0, i - 1));
                let range = volume::sector_range(sector as int, layout.sectors_per_cluster as int);
                assert(image.places() =~= places + range);
                assert(old(image).places() + (layout.sectors_of(clusters@.subrange(0, i - 1))
                    + range) =~= image.places());
                assert(i * size == (i - 1) * size + size) by (nonlinear_arith);
                assert(0 <= (i - 1) * size) by (nonlinear_arith)
                    requires
                        i >= 1,
                        size >= 0,
                ;
                assert(image.bytes@ =~= old(image).bytes@ + bytes::zeros((i * size) as nat));
                assert forall|k: int| 0 <= k < image.sectors@.len() implies layout.fat_start
                    + layout.fat_count * layout.fat_size <= #[trigger] image.sectors@[k]
                    <= 0xFFFF_FFFF by {
                    if k < sectors_before.len() {
                        assert(image.sectors@[k] == sectors_before[k]);
                    }
                }
            }
        }
        assert(clusters@.subrange(0, i as int) =~= clusters@);
    }

    /// Adds zeroed clusters to a directory's chain until it has `needed` free slots at its
    /// end, and returns where they start.
    fn grow_dir(&mut self, dir: Dir, image: &mut DirImage, needed: usize) -> (r: Result<
        usize,
        FatError<D::Error>,
    >)
        requires
            old(self).wf(),
            old(image).wf(old(self).layout),
            needed <= 21,
            entries::end_slot(old(image).bytes@, 0) + needed > entries::slot_count(
                old(image).bytes@,
            ),
        ensures
            final(self).wf(),
            final(self).same_volume(old(self)),
            volume::told(r, old(self).failures(), final(self).failures()),
            final(image).wf(old(self).layout),
            match r {
                Ok(at) => {
                    &&& old(self).model().dir_grown(dir, old(image).model(), needed as int) == (
                        Ok::<(int, ImageModel), Fault>((at as int, final(image).model())),
                        final(self).model(),
                    )
                    &&& at + needed <= entries::slot_count(final(image).bytes@)
                    &&& laws::sound(old(self).layout, old(self).disk()) ==> cuts::grew(
                        old(self).model(),
                        old(image).model(),
                        needed as int,
                        final(self).disk(),
                        old(self).past(),
                        final(self).past(),
                    )
                },
                Err(error) => error is Device || (error.fault() matches Some(fault) && old(
                    self).model().dir_grown(dir, old(image).model(), needed as int) == (
                    Err::<(int, ImageModel), Fault>(fault),
                    final(self).model(),
                ) && final(self).past() == old(self).past()),
            },
    {
        let first = match start_of(&self.layout, dir) {
            Some(first) => first,
            None => {
                return Err(FatError::DirectoryFull);
            },
        };
        let chain = match self.chain(first.0) {
            Ok(chain) => chain,
            Err(error) => {
                return Err(error);
            },
        };
        let ghost layout = self.layout;
        let ghost v = self.model();
        proof {
            super::read::lemma_chain_valid(
                layout,
                self.disk(),
                first.0,
                layout.cluster_count as nat,
                None,
            );
        }
        // Free slots at the end already count towards what's needed.
        let end = find_end(&image.bytes);
        let slots: usize = image.bytes.len() / DIR_ENTRY_SIZE;
        let missing: usize = 32 * (needed - (slots - end));
        let size: usize = self.layout.sectors_per_cluster as usize * 512;
        let count: usize = (missing + size - 1) / size;
        proof {
            assert(count >= 1 && count * size >= missing) by (nonlinear_arith)
                requires
                    count == (missing + size - 1) / size as int,
                    missing >= 1,
                    size >= 1,
            ;
        }
        let new = match self.allocate(count) {
            Ok(new) => new,
            Err(error) => {
                return Err(error);
            },
        };
        let empty: Vec<u8> = Vec::new();
        proof {
            lemma_free_count(layout, v.disk, v.first_look(), layout.cluster_count as int);
            assert(empty@ =~= Seq::<u8>::empty());
            assert(0 <= new@.len() * layout.cluster_bytes()) by (nonlinear_arith)
                requires
                    layout.cluster_bytes() >= 0,
            ;
            assert(layout.has_cluster(new@[0]));
        }
        let ghost past = self.past();
        // Chain the new clusters, then hook them onto the directory's last one.
        self.put_chain(&new, &empty)?;
        assert(self.model() == v.with_chain(new@, Seq::empty()));
        let ghost chained = self.disk();
        let ghost after_chain = self.past();
        let last = chain[chain.len() - 1];
        assert(layout.has_cluster(chain@[chain@.len() - 1]));
        proof {
            if laws::sound(layout, v.disk) {
                cuts::lemma_put_only(
                    layout,
                    v.disk,
                    new@,
                    change::padded(empty@, new@.len() * layout.cluster_bytes()),
                );
            }
        }
        self.set_fat_entry(last, new[0])?;
        let ghost after_entry = self.past();
        self.flush_fat()?;
        proof {
            if laws::sound(layout, v.disk) {
                cuts::lemma_grew(
                    v,
                    old(image).model(),
                    needed as int,
                    chained,
                    self.disk(),
                    past,
                    after_chain,
                    after_entry,
                    self.past(),
                    new@,
                );
            }
        }
        self.extend_image(image, &new);
        assert(entries::slot_count(image.bytes@) * 32 >= 32 * slots + count * size);
        Ok(end)
    }

    /// Adds entries for `name` to a directory, growing it by a cluster if it is full (or
    /// failing, for FAT16's fixed root).
    fn add_entry(
        &mut self,
        dir: Dir,
        image: &mut DirImage,
        name: &str,
        attr: u8,
        cluster: u32,
        size: u32,
    ) -> (r: Result<(), FatError<D::Error>>)
        requires
            old(self).wf(),
            old(image).wf(old(self).layout),
            names::storable(name@),
        ensures
            final(self).wf(),
            final(self).same_volume(old(self)),
            volume::told(r, old(self).failures(), final(self).failures()),
            had(
                r,
                old(self).model().entry_added(
                    dir,
                    old(image).model(),
                    name@,
                    attr,
                    cluster,
                    size,
                ),
                final(self).model(),
            ),
            r is Ok && laws::sound(old(self).layout, old(self).disk()) ==> cuts::added_through(
                old(self).model(),
                dir,
                old(image).model(),
                name@,
                attr,
                cluster,
                size,
                old(self).past(),
                final(self).past(),
            ),
            r is Err && !volume::device_failed(r) ==> final(self).past() == old(self).past(),
    {
        let ghost v = self.model();
        let ghost started = image.model();
        let ghost past = self.past();
        let taken = short_names(&image.bytes);
        let new = match make_entries(name, &taken, attr, cluster, size, self.stamp) {
            Some(new) => new,
            None => {
                return Err(FatError::DirectoryFull);
            },
        };
        let count: usize = new.len() / DIR_ENTRY_SIZE;
        let at = match free_run(&image.bytes, count) {
            Some(at) => {
                proof {
                    stored::lemma_run_fits(image.bytes@, 0, count as int);
                }
                at
            },
            None => {
                proof {
                    entries::lemma_end_slot(image.bytes@, 0);
                    stored::lemma_no_room(image.bytes@, 0, count as int);
                }
                match self.grow_dir(dir, image, count) {
                    Ok(at) => at,
                    Err(error) => {
                        return Err(error);
                    },
                }
            },
        };
        let ghost before = image.model();
        let ghost grown = self.model();
        let ghost between = self.past();
        assert(image.bytes.len() == image.bytes@.len());
        bytes::overwrite(&mut image.bytes, 32 * at, &new);
        assert(image.model() == ImageModel {
            bytes: bytes::splice(before.bytes, 32 * at, new@),
            ..before
        });
        let result = self.store_dir(image, at, at + count);
        proof {
            if result is Ok && laws::sound(v.layout, v.disk) {
                cuts::lemma_added_through(
                    v,
                    dir,
                    started,
                    name@,
                    attr,
                    cluster,
                    size,
                    grown,
                    image.model(),
                    at as int,
                    past,
                    between,
                    self.past(),
                );
            }
        }
        result
    }

    /// Adds entries for `name` to a directory that point at the chain from `cluster` on; if
    /// that fails, nothing points at the chain, and it is given back.
    fn add_or_free(
        &mut self,
        dir: Dir,
        image: &mut DirImage,
        name: &str,
        attr: u8,
        cluster: u32,
        size: u32,
    ) -> (r: Result<(), FatError<D::Error>>)
        requires
            old(self).wf(),
            old(image).wf(old(self).layout),
            names::storable(name@),
        ensures
            final(self).wf(),
            final(self).same_volume(old(self)),
            old(self).failures() <= final(self).failures(),
            had_or_found(
                r,
                old(self).model().entry_or_freed(
                    dir,
                    old(image).model(),
                    name@,
                    attr,
                    cluster,
                    size,
                ),
                final(self).model(),
                old(self).failures() < final(self).failures(),
                Some(cluster),
            ),
            laws::sound(old(self).layout, old(self).disk()) && final(self).failures() == old(
                self).failures() ==> match r {
                Ok(_) => cuts::added_through(
                    old(self).model(),
                    dir,
                    old(image).model(),
                    name@,
                    attr,
                    cluster,
                    size,
                    old(self).past(),
                    final(self).past(),
                ),
                Err(_) => cuts::through(
                    old(self).layout,
                    old(self).disk(),
                    old(self).past(),
                    final(self).past(),
                    Seq::empty(),
                    cuts::chain_at(old(self).layout, old(self).disk(), cluster),
                ),
            },
    {
        match self.add_entry(dir, image, name, attr, cluster, size) {
            Ok(_) => Ok(()),
            Err(error) => {
                // Nothing points at the chain; give it back.
                match self.free_chain(cluster) {
                    Ok(_) => Err(error),
                    Err(other) => Err(other),
                }
            },
        }
    }

    /// The time entries created or changed from now on get.
    pub fn set_time(&mut self, now: DateTime)
        requires
            old(self).wf(),
        ensures
            final(self).wf(),
            final(self).model() == (Volume {
                stamp: Stamp { date: now.fat_fields().0, time: now.fat_fields().1 },
                ..old(self).model()
            }),
            final(self).label == old(self).label,
    {
        let (date, time) = now.fat();
        self.stamp = Stamp { date, time };
    }

    /// Creates the file at `path` with `data` in it, or replaces what an existing file holds.
    /// The parent directory must exist.
    pub fn write_file(&mut self, path: &str, data: &[u8]) -> (r: Result<(), FatError<D::Error>>)
        requires
            old(self).wf(),
        ensures
            final(self).wf(),
            final(self).same_volume(old(self)),
            old(self).failures() <= final(self).failures(),
            ended_or_found(
                r,
                old(self).model().file_written(path@, data@),
                final(self).model(),
                old(self).failures() < final(self).failures(),
                first_for_data(old(self).model(), data@),
            ),
            // Nothing is read or written for what can't be stored.
            !keeps_fsinfo(old(self).model()) && data@.len() > u32::MAX ==> r == Err::<
                (),
                FatError<D::Error>,
            >(FatError::TooBig),
            !keeps_fsinfo(old(self).model()) && data@.len() <= u32::MAX && !names::storable(
                volume::split_path(path@).1,
            ) ==> r == Err::<(), FatError<D::Error>>(FatError::InvalidName),
            laws::sound(old(self).layout, old(self).disk()) && final(self).failures() == old(
                self).failures() ==> cuts::written_through(
                old(self).model(),
                path@,
                data@,
                old(self).past(),
                final(self).past(),
            ),
    {
        let result = self.write_file_inner(path, data);
        let ghost past = self.past();
        let result = self.finish_change(result);
        proof {
            if laws::sound(old(self).layout, old(self).disk()) && self.failures() == old(self).failures() {
                cuts::lemma_written_through(
                    old(self).model(),
                    path@,
                    data@,
                    old(self).past(),
                    past,
                    self.past(),
                );
            }
        }
        result
    }

    #[verifier::rlimit(40)]
    fn write_file_inner(&mut self, path: &str, data: &[u8]) -> (r: Result<(), FatError<D::Error>>)
        requires
            old(self).wf(),
        ensures
            final(self).wf(),
            final(self).same_volume(old(self)),
            old(self).failures() <= final(self).failures(),
            had_or_found(
                r,
                old(self).model().file_changed(path@, data@),
                final(self).model(),
                old(self).failures() < final(self).failures(),
                first_for_data(old(self).model(), data@),
            ),
            data@.len() > u32::MAX || !names::storable(volume::split_path(path@).1)
                ==> final(self).failures() == old(self).failures() && final(self).model() == old(
                self).model(),
            laws::sound(old(self).layout, old(self).disk()) && final(self).failures() == old(
                self).failures() ==> cuts::changed_through(
                old(self).model(),
                path@,
                data@,
                old(self).past(),
                final(self).past(),
            ),
    {
        proof {
            cuts::lemma_no_disks(self.past());
        }
        if data.len() as u64 > 0xFFFF_FFFF {
            return Err(FatError::TooBig);
        }
        let (parent, name) = split(path);
        if !is_storable(&name) {
            return Err(FatError::InvalidName);
        }
        let dir = match self.find_dir(&parent) {
            Ok(dir) => dir,
            Err(error) => {
                return Err(error);
            },
        };
        let mut image = match self.load_dir(dir) {
            Ok(image) => image,
            Err(error) => {
                return Err(error);
            },
        };
        let ghost v = self.model();
        assert(v.image_of(dir) == Ok::<ImageModel, Fault>(image.model()));
        self.put_file(dir, &mut image, &name, data)
    }

    /// Puts `data` in the file `name` of a directory: a new one, or instead of what it held.
    #[verifier::rlimit(40)]
    #[verifier::spinoff_prover]
    fn put_file(&mut self, dir: Dir, image: &mut DirImage, name: &str, data: &[u8]) -> (r: Result<
        (),
        FatError<D::Error>,
    >)
        requires
            old(self).wf(),
            old(image).wf(old(self).layout),
            names::storable(name@),
            data@.len() <= u32::MAX,
        ensures
            final(self).wf(),
            final(self).same_volume(old(self)),
            old(self).failures() <= final(self).failures(),
            had_or_found(
                r,
                old(self).model().file_put(dir, old(image).model(), name@, data@),
                final(self).model(),
                old(self).failures() < final(self).failures(),
                first_for_data(old(self).model(), data@),
            ),
            laws::sound(old(self).layout, old(self).disk()) && final(self).failures() == old(
                self).failures() ==> cuts::put_through(
                old(self).model(),
                dir,
                old(image).model(),
                name@,
                data@,
                old(self).past(),
                final(self).past(),
            ),
    {
        let ghost past = self.past();
        proof {
            cuts::lemma_no_disks(past);
        }
        let ghost v = self.model();
        let ghost before = image.model();
        let size: u32 = data.len() as u32;
        let existing = find_entry(&image.bytes, self.layout.fat_type, name);
        if let Some(located) = &existing {
            if located.entry.kind == EntryKind::Directory {
                return Err(FatError::NotAFile);
            }
        }
        match self.begin_change() {
            Ok(_) => {},
            Err(error) => {
                return Err(error);
            },
        }
        let first = match self.write_chain(data) {
            Ok(first) => first,
            Err(error) => {
                return Err(error);
            },
        };
        let ghost written = self.model();
        let ghost after_chain = self.past();
        match existing {
            Some(located) => {
                // Point the entry at the new chain, then let the old one go.
                repoint(&mut image.bytes, located.slot, first, size, self.stamp);
                assert(image.model() == ImageModel {
                    bytes: bytes::splice(
                        before.bytes,
                        32 * located.slot + 20,
                        stored::pointer(first, size, v.stamp),
                    ),
                    ..before
                });
                assert(image.bytes.len() == image.bytes@.len());
                match self.store_dir(image, located.slot, located.slot + 1) {
                    Ok(_) => {},
                    Err(error) => {
                        return Err(error);
                    },
                }
                let ghost after_entry = self.past();
                let result = self.free_chain(located.entry.first_cluster.0);
                proof {
                    if laws::sound(v.layout, v.disk) && self.failures() == old(self).failures() {
                        cuts::lemma_replaced_through(
                            v,
                            dir,
                            before,
                            name@,
                            data@,
                            past,
                            after_chain,
                            after_entry,
                            self.past(),
                        );
                    }
                }
                result
            },
            None => {
                let result = self.add_or_free(dir, image, name, ATTR_ARCHIVE, first, size);
                proof {
                    if laws::sound(v.layout, v.disk) && self.failures() == old(self).failures() {
                        cuts::lemma_new_through(
                            v,
                            dir,
                            before,
                            name@,
                            data@,
                            result is Ok,
                            past,
                            after_chain,
                            self.past(),
                        );
                    }
                }
                result
            },
        }
    }

    /// Makes an empty directory at `path`. The parent must exist.
    pub fn create_dir(&mut self, path: &str) -> (r: Result<(), FatError<D::Error>>)
        requires
            old(self).wf(),
        ensures
            final(self).wf(),
            final(self).same_volume(old(self)),
            old(self).failures() <= final(self).failures(),
            ended_or_found(
                r,
                old(self).model().dir_created(path@),
                final(self).model(),
                old(self).failures() < final(self).failures(),
                first_for_dir(old(self).model()),
            ),
            // Nothing is read or written for a name that can't be stored.
            !keeps_fsinfo(old(self).model()) && !names::storable(volume::split_path(path@).1)
                ==> r == Err::<(), FatError<D::Error>>(FatError::InvalidName),
            laws::sound(old(self).layout, old(self).disk()) && final(self).failures() == old(
                self).failures() ==> cuts::made_through(
                old(self).model(),
                path@,
                old(self).past(),
                final(self).past(),
            ),
    {
        let result = self.create_dir_inner(path);
        let ghost past = self.past();
        let result = self.finish_change(result);
        proof {
            if laws::sound(old(self).layout, old(self).disk()) && self.failures() == old(self).failures() {
                cuts::lemma_made_through(
                    old(self).model(),
                    path@,
                    old(self).past(),
                    past,
                    self.past(),
                );
            }
        }
        result
    }

    #[verifier::rlimit(40)]
    fn create_dir_inner(&mut self, path: &str) -> (r: Result<(), FatError<D::Error>>)
        requires
            old(self).wf(),
        ensures
            final(self).wf(),
            final(self).same_volume(old(self)),
            old(self).failures() <= final(self).failures(),
            had_or_found(
                r,
                old(self).model().dir_changed(path@),
                final(self).model(),
                old(self).failures() < final(self).failures(),
                first_for_dir(old(self).model()),
            ),
            !names::storable(volume::split_path(path@).1) ==> final(self).failures() == old(
                self).failures() && final(self).model() == old(self).model(),
            laws::sound(old(self).layout, old(self).disk()) && final(self).failures() == old(
                self).failures() ==> cuts::made_so_far(
                old(self).model(),
                path@,
                old(self).past(),
                final(self).past(),
            ),
    {
        let ghost past = self.past();
        proof {
            cuts::lemma_no_disks(past);
        }
        let (parent, name) = split(path);
        if !is_storable(&name) {
            return Err(FatError::InvalidName);
        }
        let dir = match self.find_dir(&parent) {
            Ok(dir) => dir,
            Err(error) => {
                return Err(error);
            },
        };
        let mut image = match self.load_dir(dir) {
            Ok(image) => image,
            Err(error) => {
                return Err(error);
            },
        };
        let ghost v = self.model();
        assert(v.image_of(dir) == Ok::<ImageModel, Fault>(image.model()));
        if find_entry(&image.bytes, self.layout.fat_type, &name).is_some() {
            return Err(FatError::AlreadyExists);
        }
        self.begin_change()?;
        let clusters = match self.allocate(1) {
            Ok(clusters) => clusters,
            Err(error) => {
                return Err(error);
            },
        };
        let cluster = clusters[0];
        // "." is the directory itself; ".." its parent, which is 0 for the root.
        let parent_cluster: u32 = match dir {
            Dir::Root => 0,
            Dir::Chain(first) => first.0,
        };
        let mut contents: Vec<u8> = Vec::new();
        let dot = dot_bytes(1);
        let dots = dot_bytes(2);
        push_own_entry(&mut contents, &dot, 0, ATTR_DIRECTORY, cluster, 0, self.stamp);
        push_own_entry(&mut contents, &dots, 0, ATTR_DIRECTORY, parent_cluster, 0, self.stamp);
        assert(contents@ =~= v.dots(cluster, dir));
        assert(contents@.len() == 64);
        assert(1 * self.layout.cluster_bytes() >= 512);
        let ghost held = image.model();
        self.put_chain(&clusters, &contents)?;
        assert(self.model() == v.begun().with_chain(clusters@, v.dots(cluster, dir)));
        let ghost after_chain = self.past();
        let result = self.add_or_free(dir, &mut image, &name, ATTR_DIRECTORY, cluster, 0);
        proof {
            if laws::sound(v.layout, v.disk) && self.failures() == old(self).failures() {
                cuts::lemma_making(
                    v,
                    path@,
                    dir,
                    held,
                    clusters@,
                    result is Ok,
                    past,
                    after_chain,
                    self.past(),
                );
            }
        }
        result
    }

    /// Removes the file, or empty directory, at `path`.
    pub fn remove(&mut self, path: &str) -> (r: Result<(), FatError<D::Error>>)
        requires
            old(self).wf(),
        ensures
            final(self).wf(),
            final(self).same_volume(old(self)),
            volume::told(r, old(self).failures(), final(self).failures()),
            had(r, old(self).model().removed(path@), final(self).model()),
            laws::sound(old(self).layout, old(self).disk()) && !volume::device_failed(r)
                ==> cuts::removed_through(
                old(self).model(),
                path@,
                old(self).past(),
                final(self).past(),
            ),
    {
        let result = self.remove_inner(path);
        let ghost past = self.past();
        let result = self.finish_change(result);
        proof {
            if laws::sound(old(self).layout, old(self).disk()) && !volume::device_failed(result) {
                cuts::lemma_removed_through(
                    old(self).model(),
                    path@,
                    old(self).past(),
                    past,
                    self.past(),
                );
            }
        }
        result
    }

    #[verifier::rlimit(40)]
    fn remove_inner(&mut self, path: &str) -> (r: Result<(), FatError<D::Error>>)
        requires
            old(self).wf(),
        ensures
            final(self).wf(),
            final(self).same_volume(old(self)),
            volume::told(r, old(self).failures(), final(self).failures()),
            had(r, old(self).model().path_removed(path@), final(self).model()),
            laws::sound(old(self).layout, old(self).disk()) && !volume::device_failed(r)
                ==> cuts::removed_so_far(
                old(self).model(),
                path@,
                old(self).past(),
                final(self).past(),
            ),
    {
        let ghost past = self.past();
        proof {
            cuts::lemma_no_disks(past);
        }
        let (parent, name) = split(path);
        let dir = match self.find_dir(&parent) {
            Ok(dir) => dir,
            Err(error) => {
                return Err(error);
            },
        };
        let mut image = match self.load_dir(dir) {
            Ok(image) => image,
            Err(error) => {
                return Err(error);
            },
        };
        let ghost v = self.model();
        assert(v.image_of(dir) == Ok::<ImageModel, Fault>(image.model()));
        let located = match find_entry(&image.bytes, self.layout.fat_type, &name) {
            Some(located) => located,
            None => {
                return Err(FatError::NotFound);
            },
        };
        let first = located.entry.first_cluster;
        if located.entry.kind == EntryKind::Directory {
            let contents = match self.load_dir(Dir::Chain(first)) {
                Ok(contents) => contents,
                Err(error) => {
                    return Err(error);
                },
            };
            let list = parse_located(&contents.bytes, self.layout.fat_type);
            assert(list@.len() == entries::located_of(list@).len());
            if list.len() > 0 {
                return Err(FatError::NotEmpty);
            }
        }
        self.begin_change()?;
        let ghost before = image.model();
        assert(image.bytes.len() == image.bytes@.len());
        mark_deleted(&mut image.bytes, located.first_slot, located.slot + 1);
        assert(image.model() == ImageModel {
            bytes: change::with_deleted(
                before.bytes,
                located.first_slot as int,
                located.slot + 1,
            ),
            ..before
        });
        self.store_dir(&image, located.first_slot, located.slot + 1)?;
        let ghost after_entry = self.past();
        let result = self.free_chain(first.0);
        proof {
            if laws::sound(v.layout, v.disk) && !volume::device_failed(result) {
                cuts::lemma_removing(
                    v,
                    path@,
                    dir,
                    before,
                    past,
                    after_entry,
                    self.past(),
                );
            }
        }
        result
    }
}

/// The 8.3 name of the entries "." and "..".
fn dot_bytes(dots: usize) -> (r: Vec<u8>)
    requires
        dots <= 11,
    ensures
        r@ == change::dot_name(dots as int),
        r@.len() == 11,
{
    let mut out: Vec<u8> = Vec::new();
    while out.len() < 11
        invariant
            out@.len() <= 11,
            out@ == change::dot_name(dots as int).subrange(0, out@.len() as int),
        decreases 11 - out@.len(),
    {
        let b: u8 = if out.len() < dots {
            0x2E
        } else {
            0x20
        };
        out.push(b);
        assert(out@ =~= change::dot_name(dots as int).subrange(0, out@.len() as int));
    }
    assert(out@ =~= change::dot_name(dots as int));
    out
}

/// Marks the slots from `from` to `to` deleted.
fn mark_deleted(dir: &mut Vec<u8>, from: usize, to: usize)
    requires
        from <= to <= entries::slot_count(old(dir)@),
    ensures
        final(dir)@ == change::with_deleted(old(dir)@, from as int, to as int),
        final(dir)@.len() == old(dir)@.len(),
{
    let mut i: usize = from;
    assert(dir.len() == dir@.len());
    while i < to
        invariant
            from <= i <= to <= entries::slot_count(old(dir)@),
            dir@.len() == old(dir)@.len() <= usize::MAX,
            dir@ == change::with_deleted(old(dir)@, from as int, i as int),
        decreases to - i,
    {
        dir[32 * i] = ENTRY_DELETED;
        i += 1;
    }
}

} // verus!
