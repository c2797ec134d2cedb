//! What changes to a volume do to it.
//!
//! Each change is ordered so that stopping part way (a power cut) leaves at worst clusters
//! marked used that no file owns, and never a file pointing at clusters that aren't its own:
//!
//! 1. new data goes into free clusters,
//! 2. the FAT links them into a chain, in every copy of the FAT,
//! 3. a directory entry points at the chain,
//! 4. only then are old clusters freed.
//!
//! Removing marks the entry deleted first, then frees its clusters. On FAT32, the free clusters
//! are counted before the first change, and the FSInfo sector's count and next-free hint are
//! kept up after every one.

use super::entries;
use super::entries::{
    EntryKind, FatType, LocatedModel, Stamp, ATTR_ARCHIVE, ATTR_DIRECTORY, ENTRY_DELETED,
};
use super::names;
use super::stored;
use super::volume;
use super::volume::{Dir, Disk, Fault, Layout};
use crate::bytes;
use vstd::prelude::*;

verus! {

pub const FSINFO_LEAD: u32 = 0x4161_5252;

pub const FSINFO_STRUCT: u32 = 0x6141_7272;

impl Layout {
    /// The disk with `block` as FAT sector `s` in the first `n` copies of the FAT.
    pub open spec fn with_copies(self, disk: Disk, s: int, block: Seq<u8>, n: int) -> Disk
        decreases n,
    {
        if n <= 0 {
            disk
        } else {
            self.with_copies(disk, s, block, n - 1).insert(
                self.block(s + (n - 1) * self.fat_size),
                block,
            )
        }
    }

    /// A FAT sector with `value` as the entry at `at`. FAT32's reserved top bits are kept.
    pub open spec fn with_value(self, block: Seq<u8>, at: int, value: u32) -> Seq<u8> {
        if self.fat_type == FatType::Fat16 {
            bytes::splice(block, at, bytes::le16_bytes((value % 0x1_0000) as u16))
        } else {
            let kept = bytes::le32(block, at) / 0x1000_0000 * 0x1000_0000;
            bytes::splice(block, at, bytes::le32_bytes((kept + value % 0x1000_0000) as u32))
        }
    }

    /// The disk with `value` as the FAT entry of cluster `c`, in every copy of the FAT.
    pub open spec fn with_entry(self, disk: Disk, c: u32, value: u32) -> Disk {
        self.with_copies(
            disk,
            self.fat_sector(c),
            self.with_value(self.sector(disk, self.fat_sector(c)), self.fat_offset(c), value),
            self.fat_count as int,
        )
    }

    /// The disk with the first `n` of `clusters` chained in the FAT, each to the next; the last
    /// of all ends the chain.
    pub open spec fn with_links(self, disk: Disk, clusters: Seq<u32>, n: int) -> Disk
        decreases n,
    {
        if n <= 0 {
            disk
        } else {
            self.with_entry(
                self.with_links(disk, clusters, n - 1),
                clusters[n - 1],
                (if n < clusters.len() {
                    clusters[n]
                } else {
                    self.end_mark()
                }),
            )
        }
    }

    /// The disk with the first `n` of `clusters` free.
    pub open spec fn with_freed(self, disk: Disk, clusters: Seq<u32>, n: int) -> Disk
        decreases n,
    {
        if n <= 0 {
            disk
        } else {
            self.with_entry(self.with_freed(disk, clusters, n - 1), clusters[n - 1], 0)
        }
    }

    /// The disk with `data` in `sectors`, 512 bytes in each.
    pub open spec fn with_data(self, disk: Disk, sectors: Seq<int>, data: Seq<u8>) -> Disk
        decreases sectors.len(),
    {
        if sectors.len() == 0 {
            disk
        } else {
            let n = sectors.len() as int;
            self.with_data(disk, sectors.drop_last(), data).insert(
                self.block(sectors.last()),
                data.subrange(512 * (n - 1), 512 * n),
            )
        }
    }

    /// Cluster number `i` in the order in which free ones are looked for, from `start` on.
    pub open spec fn nth_cluster(self, start: u32, i: int) -> u32 {
        (2 + (start - 2 + i) % (self.cluster_count as int)) as u32
    }

    /// The free clusters among the first `n` from `start` on, going round.
    pub open spec fn free_among(self, disk: Disk, start: u32, n: int) -> Seq<u32>
        decreases n,
    {
        if n <= 0 {
            Seq::empty()
        } else {
            let c = self.nth_cluster(start, n - 1);
            let before = self.free_among(disk, start, n - 1);
            if self.fat_entry(disk, c) == 0 {
                before.push(c)
            } else {
                before
            }
        }
    }

    /// How many clusters no chain uses.
    pub open spec fn free_in(self, disk: Disk) -> u32 {
        self.free_among(disk, 2, self.cluster_count as int).len() as u32
    }
}

/// Data, with zeros after it up to a length.
pub open spec fn padded(data: Seq<u8>, length: int) -> Seq<u8> {
    data + bytes::zeros((length - data.len()) as nat)
}

/// The lowest of numbers, of which there is one.
pub open spec fn lowest(clusters: Seq<u32>) -> u32
    decreases clusters.len(),
{
    if clusters.len() <= 1 {
        clusters[0]
    } else {
        let before = lowest(clusters.drop_last());
        if clusters.last() < before {
            clusters.last()
        } else {
            before
        }
    }
}

/// The slots from `from` to `to` marked deleted.
pub open spec fn with_deleted(dir: Seq<u8>, from: int, to: int) -> Seq<u8>
    decreases to - from,
{
    if from >= to {
        dir
    } else {
        with_deleted(dir, from, to - 1).update(32 * (to - 1), ENTRY_DELETED)
    }
}

/// A directory as it is held to be changed: its sectors, and what it holds.
pub struct ImageModel {
    pub places: Seq<int>,
    pub bytes: Seq<u8>,
}

/// A volume, and what is remembered of it.
pub struct Volume {
    pub layout: Layout,
    pub disk: Disk,
    /// What new and changed entries get as their date and time.
    pub stamp: Stamp,
    /// How many clusters are free, once they have been counted.
    pub free_count: Option<u32>,
    /// Where to look for a free cluster first.
    pub next_free: u32,
}

impl Volume {
    /// The number of free clusters after `n` were taken.
    pub open spec fn less_free(self, n: int) -> Option<u32> {
        match self.free_count {
            Some(free) => Some(
                if n <= free {
                    (free - n) as u32
                } else {
                    0
                },
            ),
            None => None,
        }
    }

    /// The number of free clusters after `n` were given back.
    pub open spec fn more_free(self, n: int) -> Option<u32> {
        match self.free_count {
            Some(free) => Some(
                if free + n <= u32::MAX {
                    (free + n) as u32
                } else {
                    u32::MAX
                },
            ),
            None => None,
        }
    }

    /// Where to look for a free cluster first: on the volume.
    pub open spec fn first_look(self) -> u32 {
        if self.next_free < 2 {
            2
        } else if self.next_free > self.layout.cluster_count + 1 {
            (self.layout.cluster_count + 1) as u32
        } else {
            self.next_free
        }
    }

    /// The first `count` free clusters, if there are so many.
    pub open spec fn allocated(self, count: int) -> Option<Seq<u32>> {
        let free = self.layout.free_among(
            self.disk,
            self.first_look(),
            self.layout.cluster_count as int,
        );
        if free.len() < count {
            None
        } else {
            Some(free.subrange(0, count))
        }
    }

    /// `data` (zero-padded to whole clusters) in `clusters`, which are then chained in the FAT.
    pub open spec fn with_chain(self, clusters: Seq<u32>, data: Seq<u8>) -> Volume {
        let disk = self.layout.with_data(
            self.disk,
            self.layout.sectors_of(clusters),
            padded(data, clusters.len() * self.layout.cluster_bytes()),
        );
        Volume {
            disk: self.layout.with_links(disk, clusters, clusters.len() as int),
            free_count: self.less_free(clusters.len() as int),
            next_free: (clusters.last() + 1) as u32,
            ..self
        }
    }

    /// How many clusters `n` bytes take.
    pub open spec fn clusters_for(self, n: int) -> int {
        (n + self.layout.cluster_bytes() - 1) / self.layout.cluster_bytes()
    }

    /// `data` in new clusters, chained in the FAT, and the first of them (0 for none).
    pub open spec fn chain_written(self, data: Seq<u8>) -> (Result<u32, Fault>, Volume) {
        if data.len() == 0 {
            (Ok(0), self)
        } else {
            match self.allocated(self.clusters_for(data.len() as int)) {
                Some(clusters) => (Ok(clusters[0]), self.with_chain(clusters, data)),
                None => (Err(Fault::NoSpace), self),
            }
        }
    }

    /// With the chain that starts at `first` given back (nothing for 0).
    pub open spec fn chain_freed(self, first: u32) -> (Result<(), Fault>, Volume) {
        if first == 0 {
            (Ok(()), self)
        } else {
            match self.layout.chain(self.disk, first) {
                Ok(clusters) => (
                    Ok(()),
                    Volume {
                        disk: self.layout.with_freed(self.disk, clusters, clusters.len() as int),
                        free_count: self.more_free(clusters.len() as int),
                        next_free: (if lowest(clusters) < self.next_free {
                            lowest(clusters)
                        } else {
                            self.next_free
                        }),
                        ..self
                    },
                ),
                Err(fault) => (Err(fault), self),
            }
        }
    }

    /// With the sectors that hold the slots from `from` to `to` of a directory written back.
    pub open spec fn dir_stored(self, image: ImageModel, from: int, to: int) -> Volume {
        let first = from / 16;
        let end = (to + 15) / 16;
        Volume {
            disk: self.layout.with_data(
                self.disk,
                image.places.subrange(first, end),
                image.bytes.subrange(512 * first, 512 * end),
            ),
            ..self
        }
    }

    /// With zeroed clusters added to a directory's chain until it has `needed` free slots at
    /// its end: where they start, and the directory then. The fixed root can't grow.
    pub open spec fn dir_grown(self, dir: Dir, image: ImageModel, needed: int) -> (
        Result<(int, ImageModel), Fault>,
        Volume,
    ) {
        match self.layout.dir_start(dir) {
            None => (Err(Fault::DirectoryFull), self),
            Some(first) => match self.layout.chain(self.disk, first.0) {
                Err(fault) => (Err(fault), self),
                Ok(chain) => {
                    let end = entries::end_slot(image.bytes, 0);
                    let free_at_end = entries::slot_count(image.bytes) - end;
                    let count = self.clusters_for(32 * (needed - free_at_end));
                    match self.allocated(count) {
                        None => (Err(Fault::NoSpace), self),
                        Some(new) => {
                            let grown = self.with_chain(new, Seq::empty());
                            let length = count * self.layout.cluster_bytes();
                            (
                                Ok(
                                    (
                                        end,
                                        ImageModel {
                                            places: image.places + self.layout.sectors_of(new),
                                            bytes: image.bytes + bytes::zeros(length as nat),
                                        },
                                    ),
                                ),
                                Volume {
                                    disk: self.layout.with_entry(grown.disk, chain.last(), new[0]),
                                    ..grown
                                },
                            )
                        },
                    }
                },
            },
        }
    }

    /// With `new` in a directory's slots from `at` on.
    pub open spec fn entries_put(self, image: ImageModel, at: int, new: Seq<u8>) -> Volume {
        self.dir_stored(
            ImageModel { bytes: bytes::splice(image.bytes, 32 * at, new), ..image },
            at,
            at + new.len() as int / 32,
        )
    }

    /// With entries for `name` in a directory, in its first free slots that are enough, or at
    /// its end, grown.
    pub open spec fn entry_added(
        self,
        dir: Dir,
        image: ImageModel,
        name: Seq<char>,
        attr: u8,
        cluster: u32,
        size: u32,
    ) -> (Result<(), Fault>, Volume) {
        match stored::new_entries(
            name,
            stored::taken_names(image.bytes),
            attr,
            cluster,
            size,
            self.stamp,
        ) {
            None => (Err(Fault::DirectoryFull), self),
            Some(new) => {
                let count = new.len() as int / 32;
                match stored::run_from(image.bytes, 0, count) {
                    Some(at) => (Ok(()), self.entries_put(image, at, new)),
                    None => match self.dir_grown(dir, image, count) {
                        (Ok((at, more)), grown) => (Ok(()), grown.entries_put(more, at, new)),
                        (Err(fault), same) => (Err(fault), same),
                    },
                }
            },
        }
    }

    /// With entries for `name` in a directory that point at the chain from `cluster` on; if
    /// they can't be added, that chain is given back.
    pub open spec fn entry_or_freed(
        self,
        dir: Dir,
        image: ImageModel,
        name: Seq<char>,
        attr: u8,
        cluster: u32,
        size: u32,
    ) -> (Result<(), Fault>, Volume) {
        match self.entry_added(dir, image, name, attr, cluster, size) {
            (Ok(_), added) => (Ok(()), added),
            (Err(fault), same) => match same.chain_freed(cluster) {
                (Ok(_), freed) => (Err(fault), freed),
                (Err(other), freed) => (Err(other), freed),
            },
        }
    }

    /// Ready to be changed: on FAT32, with the free clusters counted.
    pub open spec fn begun(self) -> Volume {
        if self.layout.fsinfo is Some && self.free_count is None {
            Volume { free_count: Some(self.layout.free_in(self.disk)), ..self }
        } else {
            self
        }
    }

    /// An FSInfo sector with the count of free clusters and the hint where to look.
    pub open spec fn fsinfo_with(block: Seq<u8>, free: u32, next: u32) -> Seq<u8> {
        bytes::splice(
            bytes::splice(block, 488, bytes::le32_bytes(free)),
            492,
            bytes::le32_bytes(next),
        )
    }

    /// Changed, and FSInfo up to date.
    pub open spec fn finished(self) -> Volume {
        match (self.layout.fsinfo, self.free_count) {
            (Some(sector), Some(free)) => {
                let block = self.layout.sector(self.disk, sector as int);
                if bytes::le32(block, 0) == FSINFO_LEAD && bytes::le32(block, 484)
                    == FSINFO_STRUCT {
                    Volume {
                        disk: self.disk.insert(
                            self.layout.block(sector as int),
                            Self::fsinfo_with(block, free, self.next_free),
                        ),
                        ..self
                    }
                } else {
                    self
                }
            },
            _ => self,
        }
    }

    /// A directory, as it is held to be changed.
    pub open spec fn image_of(self, dir: Dir) -> Result<ImageModel, Fault> {
        match self.layout.dir_sectors(self.disk, dir) {
            Ok(places) => Ok(
                ImageModel { places, bytes: self.layout.bytes_at(self.disk, places) },
            ),
            Err(fault) => Err(fault),
        }
    }

    /// With `data` in the file `name` of a directory: a new one, or instead of what it held.
    pub open spec fn file_put(self, dir: Dir, image: ImageModel, name: Seq<char>, data: Seq<u8>) -> (
        Result<(), Fault>,
        Volume,
    ) {
        let existing = entries::entry_for(image.bytes, self.layout.fat_type, name);
        if existing matches Some(located) && located.entry.kind == EntryKind::Directory {
            (Err(Fault::NotAFile), self)
        } else {
            match self.begun().chain_written(data) {
                (Err(fault), same) => (Err(fault), same),
                (Ok(first), written) => match existing {
                    Some(located) => {
                        let changed = ImageModel {
                            bytes: bytes::splice(
                                image.bytes,
                                32 * located.slot + 20,
                                stored::pointer(first, data.len() as u32, self.stamp),
                            ),
                            ..image
                        };
                        // The entry points at the new chain, then the old one goes.
                        written.dir_stored(changed, located.slot, located.slot + 1).chain_freed(
                            located.entry.first_cluster.0,
                        )
                    },
                    None => written.entry_or_freed(
                        dir,
                        image,
                        name,
                        ATTR_ARCHIVE,
                        first,
                        data.len() as u32,
                    ),
                },
            }
        }
    }

    /// With `data` in the file at a path, FSInfo not yet up to date.
    pub open spec fn file_changed(self, path: Seq<char>, data: Seq<u8>) -> (
        Result<(), Fault>,
        Volume,
    ) {
        let (parent, name) = volume::split_path(path);
        if data.len() > u32::MAX {
            (Err(Fault::TooBig), self)
        } else if !names::storable(name) {
            (Err(Fault::InvalidName), self)
        } else {
            match self.layout.dir_of(self.disk, parent) {
                Err(fault) => (Err(fault), self),
                Ok(dir) => match self.image_of(dir) {
                    Err(fault) => (Err(fault), self),
                    Ok(image) => self.file_put(dir, image, name, data),
                },
            }
        }
    }

    /// With `data` in the file at a path.
    pub open spec fn file_written(self, path: Seq<char>, data: Seq<u8>) -> (
        Result<(), Fault>,
        Volume,
    ) {
        let (result, changed) = self.file_changed(path, data);
        (result, changed.finished())
    }

    /// What a new directory holds: "." is the directory itself; ".." its parent, which is 0 for
    /// the root.
    pub open spec fn dots(self, cluster: u32, dir: Dir) -> Seq<u8> {
        let parent = match dir {
            Dir::Root => 0,
            Dir::Chain(first) => first.0,
        };
        stored::own_entry(
            dot_name(1),
            0,
            ATTR_DIRECTORY,
            cluster,
            0,
            self.stamp,
        ) + stored::own_entry(dot_name(2), 0, ATTR_DIRECTORY, parent, 0, self.stamp)
    }

    /// With an empty directory at a path, FSInfo not yet up to date.
    pub open spec fn dir_changed(self, path: Seq<char>) -> (Result<(), Fault>, Volume) {
        let (parent, name) = volume::split_path(path);
        if !names::storable(name) {
            (Err(Fault::InvalidName), self)
        } else {
            match self.layout.dir_of(self.disk, parent) {
                Err(fault) => (Err(fault), self),
                Ok(dir) => match self.image_of(dir) {
                    Err(fault) => (Err(fault), self),
                    Ok(image) => if entries::entry_for(
                        image.bytes,
                        self.layout.fat_type,
                        name,
                    ) is Some {
                        (Err(Fault::AlreadyExists), self)
                    } else {
                        match self.begun().allocated(1) {
                            None => (Err(Fault::NoSpace), self.begun()),
                            Some(clusters) => self.begun().with_chain(
                                clusters,
                                self.dots(clusters[0], dir),
                            ).entry_or_freed(dir, image, name, ATTR_DIRECTORY, clusters[0], 0),
                        }
                    },
                },
            }
        }
    }

    /// With an empty directory at a path.
    pub open spec fn dir_created(self, path: Seq<char>) -> (Result<(), Fault>, Volume) {
        let (result, changed) = self.dir_changed(path);
        (result, changed.finished())
    }

    /// Without an entry of a directory, and without what it pointed at.
    pub open spec fn entry_removed(self, image: ImageModel, located: LocatedModel) -> (
        Result<(), Fault>,
        Volume,
    ) {
        let changed = ImageModel {
            bytes: with_deleted(image.bytes, located.first_slot, located.slot + 1),
            ..image
        };
        self.dir_stored(changed, located.first_slot, located.slot + 1).chain_freed(
            located.entry.first_cluster.0,
        )
    }

    /// Without the file, or empty directory, at a path, FSInfo not yet up to date.
    pub open spec fn path_removed(self, path: Seq<char>) -> (Result<(), Fault>, Volume) {
        let (parent, name) = volume::split_path(path);
        match self.layout.dir_of(self.disk, parent) {
            Err(fault) => (Err(fault), self),
            Ok(dir) => match self.image_of(dir) {
                Err(fault) => (Err(fault), self),
                Ok(image) => match entries::entry_for(image.bytes, self.layout.fat_type, name) {
                    None => (Err(Fault::NotFound), self),
                    Some(located) => if located.entry.kind == EntryKind::Directory {
                        match self.layout.dir_bytes(
                            self.disk,
                            Dir::Chain(located.entry.first_cluster),
                        ) {
                            Err(fault) => (Err(fault), self),
                            Ok(contents) => if entries::listing(
                                contents,
                                self.layout.fat_type,
                            ).len() > 0 {
                                (Err(Fault::NotEmpty), self)
                            } else {
                                self.begun().entry_removed(image, located)
                            },
                        }
                    } else {
                        self.begun().entry_removed(image, located)
                    },
                },
            },
        }
    }

    /// Without the file, or empty directory, at a path.
    pub open spec fn removed(self, path: Seq<char>) -> (Result<(), Fault>, Volume) {
        let (result, changed) = self.path_removed(path);
        (result, changed.finished())
    }
}

/// The 8.3 name of the entries "." and "..": `dots` dots.
pub open spec fn dot_name(dots: int) -> Seq<u8> {
    Seq::new(
        11,
        |i: int|
            if i < dots {
                0x2Eu8
            } else {
                0x20u8
            },
    )
}

} // verus!
