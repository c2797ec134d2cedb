//! A volume as it lies on a disk: what its boot sector says of its layout, what its FAT says of
//! its clusters, and what its directories lead to.

use super::entries;
use super::entries::{Cluster, EntryKind, EntryModel, FatType, LocatedModel};
use super::names;
use crate::bytes;
use crate::text;
use crate::text::push_decimal;
use vstd::prelude::*;

verus! {

/// What every block of a disk holds.
pub type Disk = Map<u64, Seq<u8>>;

#[derive(Debug)]
pub enum FatError<E> {
    Device(E),
    /// The boot sector doesn't describe a FAT volume.
    NotFat(&'static str),
    UnsupportedSectorSize(u16),
    /// Too few clusters for FAT16; FAT12 isn't supported.
    Fat12,
    /// A chain points at a cluster outside the volume, or marked bad.
    BadCluster(u32),
    /// A chain goes on for longer than the volume has clusters.
    ChainLoop,
    /// A chain ends before the file's recorded size.
    Truncated,
    NotFound,
    NotADirectory,
    NotAFile,
    /// Not a name that FAT can store.
    InvalidName,
    /// More than a file can hold.
    TooBig,
    AlreadyExists,
    /// A directory that isn't empty can't be removed.
    NotEmpty,
    /// No room for another entry.
    DirectoryFull,
    /// Too few free clusters.
    NoSpace,
}

impl<E> From<E> for FatError<E> {
    fn from(error: E) -> (r: Self) {
        FatError::Device(error)
    }
}

impl<E> vstd::std_specs::convert::FromSpecImpl<E> for FatError<E> {
    open spec fn obeys_from_spec() -> bool {
        true
    }

    open spec fn from_spec(error: E) -> Self {
        FatError::Device(error)
    }
}

/// What can be wrong, but for the device.
pub enum Fault {
    NotFat(Seq<char>),
    UnsupportedSectorSize(u16),
    Fat12,
    BadCluster(u32),
    ChainLoop,
    Truncated,
    NotFound,
    NotADirectory,
    NotAFile,
    InvalidName,
    TooBig,
    AlreadyExists,
    NotEmpty,
    DirectoryFull,
    NoSpace,
}

impl<E> FatError<E> {
    /// What is wrong, if it isn't the device.
    pub open spec fn fault(self) -> Option<Fault> {
        match self {
            FatError::Device(_) => None,
            FatError::NotFat(reason) => Some(Fault::NotFat(reason@)),
            FatError::UnsupportedSectorSize(size) => Some(Fault::UnsupportedSectorSize(size)),
            FatError::Fat12 => Some(Fault::Fat12),
            FatError::BadCluster(cluster) => Some(Fault::BadCluster(cluster)),
            FatError::ChainLoop => Some(Fault::ChainLoop),
            FatError::Truncated => Some(Fault::Truncated),
            FatError::NotFound => Some(Fault::NotFound),
            FatError::NotADirectory => Some(Fault::NotADirectory),
            FatError::NotAFile => Some(Fault::NotAFile),
            FatError::InvalidName => Some(Fault::InvalidName),
            FatError::TooBig => Some(Fault::TooBig),
            FatError::AlreadyExists => Some(Fault::AlreadyExists),
            FatError::NotEmpty => Some(Fault::NotEmpty),
            FatError::DirectoryFull => Some(Fault::DirectoryFull),
            FatError::NoSpace => Some(Fault::NoSpace),
        }
    }

    /// How it is shown, if the device's error is shown as `device`.
    pub open spec fn shown(self, device: Seq<char>) -> Seq<char> {
        match self {
            FatError::Device(_) => "device: "@ + device,
            FatError::NotFat(reason) => "not a FAT volume: "@ + reason@,
            FatError::UnsupportedSectorSize(size) => text::decimal(size as nat)
                + "-byte sectors not supported"@,
            FatError::Fat12 => "FAT12 not supported"@,
            FatError::BadCluster(cluster) => "bad cluster "@ + text::decimal(cluster as nat),
            FatError::ChainLoop => "cluster chain loops"@,
            FatError::Truncated => "file shorter than its size"@,
            FatError::NotFound => "not found"@,
            FatError::NotADirectory => "not a directory"@,
            FatError::NotAFile => "not a file"@,
            FatError::InvalidName => "invalid name"@,
            FatError::TooBig => "too big for a file"@,
            FatError::AlreadyExists => "already exists"@,
            FatError::NotEmpty => "directory not empty"@,
            FatError::DirectoryFull => "directory full"@,
            FatError::NoSpace => "no space left"@,
        }
    }

    /// How it is shown, if the device's error is shown as `device`.
    pub fn describe(&self, device: &str) -> (r: String)
        ensures
            r@ == self.shown(device@),
    {
        match self {
            FatError::Device(_) => {
                let mut out = "device: ".to_owned();
                out.append(device);
                out
            },
            FatError::NotFat(reason) => {
                let mut out = "not a FAT volume: ".to_owned();
                out.append(reason);
                out
            },
            FatError::UnsupportedSectorSize(size) => {
                let mut out = String::new();
                push_decimal(&mut out, *size as u64);
                assert(out@ =~= text::decimal(*size as nat));
                out.append("-byte sectors not supported");
                out
            },
            FatError::Fat12 => "FAT12 not supported".to_owned(),
            FatError::BadCluster(cluster) => {
                let mut out = "bad cluster ".to_owned();
                push_decimal(&mut out, *cluster as u64);
                out
            },
            FatError::ChainLoop => "cluster chain loops".to_owned(),
            FatError::Truncated => "file shorter than its size".to_owned(),
            FatError::NotFound => "not found".to_owned(),
            FatError::NotADirectory => "not a directory".to_owned(),
            FatError::NotAFile => "not a file".to_owned(),
            FatError::InvalidName => "invalid name".to_owned(),
            FatError::TooBig => "too big for a file".to_owned(),
            FatError::AlreadyExists => "already exists".to_owned(),
            FatError::NotEmpty => "directory not empty".to_owned(),
            FatError::DirectoryFull => "directory full".to_owned(),
            FatError::NoSpace => "no space left".to_owned(),
        }
    }
}

/// Whether an operation was stopped by the device.
pub open spec fn device_failed<T, E>(r: Result<T, FatError<E>>) -> bool {
    r matches Err(error) && error is Device
}

/// Whether the device failed just if a result says so, by how many failures there had been before
/// and after.
pub open spec fn told<T, E>(r: Result<T, FatError<E>>, before: nat, after: nat) -> bool {
    if device_failed(r) {
        before < after
    } else {
        before == after
    }
}

/// Whether an error is the device's, or says `fault`.
pub open spec fn says<E>(error: FatError<E>, fault: Fault) -> bool {
    error is Device || error.fault() == Some(fault)
}

#[derive(Clone, Copy, Debug, PartialEq, Eq, Structural)]
pub enum RootDir {
    /// FAT16: a fixed run of sectors after the FATs.
    Fixed { start: u64, sectors: u64 },
    /// FAT32: an ordinary cluster chain.
    Chain(Cluster),
}

#[derive(Clone, Copy, Debug, PartialEq, Eq, Structural)]
pub enum Dir {
    Root,
    Chain(Cluster),
}

/// Where everything is on a volume. Sector numbers are relative to its first block.
#[derive(Clone, Copy, Debug, PartialEq, Eq, Structural)]
pub struct Layout {
    /// First block of the volume.
    pub start: u64,
    pub fat_type: FatType,
    pub sectors_per_cluster: u64,
    pub fat_start: u64,
    /// How many copies of the FAT there are, one after another, and the sectors of each.
    pub fat_count: u64,
    pub fat_size: u64,
    pub root: RootDir,
    pub data_start: u64,
    pub cluster_count: u32,
    /// FAT32: where the count of free clusters is kept.
    pub fsinfo: Option<u64>,
}

/// The last block a volume may start at: no more than this many sectors are ever added.
pub const LATEST_START: u64 = 0xFFFF_0000_0000_0000;

/// Whether `n` is 1, 2, 4, 8, 16, 32, 64 or 128.
pub open spec fn is_power_of_two(n: u8) -> bool {
    n == 1 || n == 2 || n == 4 || n == 8 || n == 16 || n == 32 || n == 64 || n == 128
}

/// The sectors of the fixed root directory.
pub open spec fn root_sectors(boot: Seq<u8>) -> int {
    (bytes::le16(boot, 17) * 32 + 511) / 512
}

/// The sectors of the volume.
pub open spec fn total_sectors(boot: Seq<u8>) -> int {
    if bytes::le16(boot, 19) == 0 {
        bytes::le32(boot, 32) as int
    } else {
        bytes::le16(boot, 19) as int
    }
}

/// The sectors of a FAT.
pub open spec fn fat_sectors(boot: Seq<u8>) -> int {
    if bytes::le16(boot, 22) == 0 {
        bytes::le32(boot, 36) as int
    } else {
        bytes::le16(boot, 22) as int
    }
}

/// The first sector after the FATs.
pub open spec fn after_fats(boot: Seq<u8>) -> int {
    bytes::le16(boot, 14) + boot[16] * fat_sectors(boot)
}

/// How many clusters there are.
pub open spec fn clusters_in(boot: Seq<u8>) -> int {
    let fit = (total_sectors(boot) - after_fats(boot) - root_sectors(boot)) / boot[13] as int;
    if fit < 0x0FFF_FFF5 {
        fit
    } else {
        0x0FFF_FFF5
    }
}

/// The layout that a boot sector at block `start` says. The cluster count alone decides the FAT
/// type.
pub open spec fn layout_in(boot: Seq<u8>, start: u64) -> Result<Layout, Fault> {
    if boot[510] != 0x55 || boot[511] != 0xAA {
        Err(Fault::NotFat("no boot signature"@))
    } else if bytes::le16(boot, 11) != 512 {
        Err(Fault::UnsupportedSectorSize(bytes::le16(boot, 11)))
    } else if !is_power_of_two(boot[13]) {
        Err(Fault::NotFat("cluster size is not a power of two"@))
    } else if bytes::le16(boot, 14) == 0 || boot[16] == 0 || fat_sectors(boot) == 0 {
        Err(Fault::NotFat("empty reserved area or FAT"@))
    } else if after_fats(boot) + root_sectors(boot) >= total_sectors(boot) {
        Err(Fault::NotFat("no room for data"@))
    } else if clusters_in(boot) < 4085 {
        Err(Fault::Fat12)
    } else {
        let fat32 = clusters_in(boot) >= 65525;
        let fsinfo = bytes::le16(boot, 48);
        Ok(
            Layout {
                start,
                fat_type: (if fat32 {
                    FatType::Fat32
                } else {
                    FatType::Fat16
                }),
                sectors_per_cluster: boot[13] as u64,
                fat_start: bytes::le16(boot, 14) as u64,
                fat_count: boot[16] as u64,
                fat_size: fat_sectors(boot) as u64,
                root: (if fat32 {
                    RootDir::Chain(Cluster(bytes::le32(boot, 44)))
                } else {
                    RootDir::Fixed {
                        start: after_fats(boot) as u64,
                        sectors: root_sectors(boot) as u64,
                    }
                }),
                data_start: (after_fats(boot) + root_sectors(boot)) as u64,
                cluster_count: clusters_in(boot) as u32,
                fsinfo: (if fat32 && 0 < fsinfo < bytes::le16(boot, 14) {
                    Some(fsinfo as u64)
                } else {
                    None
                }),
            },
        )
    }
}

/// Where the boot sector has the label.
pub open spec fn label_place(fat_type: FatType) -> int {
    if fat_type == FatType::Fat32 {
        71
    } else {
        43
    }
}

/// `String::from_utf8_lossy`: the text it gives.
pub uninterp spec fn lossy_text(bytes: Seq<u8>) -> Seq<char>;

/// `String::from_utf8_lossy`: the text that bytes spell, with U+FFFD for what isn't UTF-8. Of
/// its result it is stated that it depends on the bytes alone, and that bytes that are UTF-8
/// spell it.
#[verifier::external_body]
pub(crate) fn from_utf8_lossy(bytes: &[u8]) -> (r: String)
    ensures
        r@ == lossy_text(bytes@),
        vstd::utf8::valid_utf8(bytes@) ==> vstd::utf8::encode_utf8(r@) == bytes@,
{
    String::from_utf8_lossy(bytes).into_owned()
}

/// Reads the layout from a boot sector.
pub fn read_layout<E>(boot: &[u8], start: u64) -> (r: Result<Layout, FatError<E>>)
    requires
        boot@.len() == 512,
        start <= LATEST_START,
    ensures
        match r {
            Ok(layout) => layout_in(boot@, start) == Ok::<Layout, Fault>(layout) && layout.wf(),
            Err(error) => error.fault() matches Some(fault) && layout_in(boot@, start) == Err::<
                Layout,
                Fault,
            >(fault),
        },
{
    if boot[510] != 0x55 || boot[511] != 0xAA {
        return Err(FatError::NotFat("no boot signature"));
    }
    let bytes_per_sector = bytes::le16_at(boot, 11);
    if bytes_per_sector != 512 {
        return Err(FatError::UnsupportedSectorSize(bytes_per_sector));
    }
    let spc = boot[13];
    if !(spc == 1 || spc == 2 || spc == 4 || spc == 8 || spc == 16 || spc == 32 || spc == 64 || spc
        == 128) {
        return Err(FatError::NotFat("cluster size is not a power of two"));
    }
    let reserved = bytes::le16_at(boot, 14) as u64;
    let fat_count = boot[16] as u64;
    let root_entries = bytes::le16_at(boot, 17) as u64;
    let short_total = bytes::le16_at(boot, 19);
    let total: u64 = if short_total == 0 {
        bytes::le32_at(boot, 32) as u64
    } else {
        short_total as u64
    };
    let short_size = bytes::le16_at(boot, 22);
    let fat_size: u64 = if short_size == 0 {
        bytes::le32_at(boot, 36) as u64
    } else {
        short_size as u64
    };
    if reserved == 0 || fat_count == 0 || fat_size == 0 {
        return Err(FatError::NotFat("empty reserved area or FAT"));
    }
    let sectors: u64 = (root_entries * 32 + 511) / 512;
    assert(0 <= fat_count * fat_size <= 255 * 0xFFFF_FFFF) by (nonlinear_arith)
        requires
            0 <= fat_count <= 255,
            0 <= fat_size <= 0xFFFF_FFFF,
    ;
    let root_start: u64 = reserved + fat_count * fat_size;
    let data_start: u64 = root_start + sectors;
    if data_start >= total {
        return Err(FatError::NotFat("no room for data"));
    }
    let fit: u64 = (total - data_start) / spc as u64;
    let count: u64 = if fit < 0x0FFF_FFF5 {
        fit
    } else {
        0x0FFF_FFF5
    };
    assert(count == clusters_in(boot@));
    if count < 4085 {
        return Err(FatError::Fat12);
    }
    let fat32 = count >= 65525;
    let info = bytes::le16_at(boot, 48);
    let layout = Layout {
        start,
        fat_type: if fat32 {
            FatType::Fat32
        } else {
            FatType::Fat16
        },
        sectors_per_cluster: spc as u64,
        fat_start: reserved,
        fat_count,
        fat_size,
        root: if fat32 {
            RootDir::Chain(Cluster(bytes::le32_at(boot, 44)))
        } else {
            RootDir::Fixed { start: root_start, sectors }
        },
        data_start,
        cluster_count: count as u32,
        fsinfo: if fat32 && 0 < info && (info as u64) < reserved {
            Some(info as u64)
        } else {
            None
        },
    };
    assert(data_start + count * spc <= total) by (nonlinear_arith)
        requires
            count <= (total - data_start) / spc as int,
            spc > 0,
            data_start <= total,
    ;
    Ok(layout)
}

/// What the FAT says of a cluster.
pub enum Link {
    /// It is the last of its chain.
    End,
    /// It is marked bad.
    Bad,
    /// The next of its chain.
    To(u32),
}

/// `n` sectors from `first` on.
pub open spec fn sector_range(first: int, n: int) -> Seq<int> {
    Seq::new(n as nat, |i: int| first + i)
}

impl Layout {
    /// What holds of every layout that is read from a boot sector: it fits in the numbers used.
    pub open spec fn wf(self) -> bool {
        &&& self.start <= LATEST_START
        &&& 1 <= self.sectors_per_cluster <= 128
        &&& 1 <= self.fat_start <= 0xFFFF
        &&& 1 <= self.fat_count <= 255
        &&& 1 <= self.fat_size <= 0xFFFF_FFFF
        &&& 4085 <= self.cluster_count <= 0x0FFF_FFF5
        &&& (self.fat_type == FatType::Fat16 <==> self.cluster_count < 65525)
        &&& self.data_start + self.cluster_count * self.sectors_per_cluster <= 0xFFFF_FFFF
        &&& self.fat_start + self.fat_count * self.fat_size <= self.data_start
        &&& match self.root {
            RootDir::Fixed { start, sectors } => self.fat_type == FatType::Fat16 && start + sectors
                == self.data_start && sectors <= 4096 && start == self.fat_start + self.fat_count
                * self.fat_size,
            RootDir::Chain(_) => self.fat_type == FatType::Fat32,
        }
        &&& self.fsinfo matches Some(sector) ==> 0 < sector < self.fat_start && self.fat_type
            == FatType::Fat32
    }

    /// Bytes per FAT entry.
    pub open spec fn width(self) -> int {
        if self.fat_type == FatType::Fat16 {
            2
        } else {
            4
        }
    }

    /// The bytes of a cluster.
    pub open spec fn cluster_bytes(self) -> int {
        self.sectors_per_cluster * 512
    }

    /// The block where sector `s` is.
    pub open spec fn block(self, s: int) -> u64 {
        (self.start + s) as u64
    }

    /// What sector `s` holds.
    pub open spec fn sector(self, disk: Disk, s: int) -> Seq<u8> {
        disk[self.block(s)]
    }

    /// What sectors hold, one after another.
    pub open spec fn bytes_at(self, disk: Disk, sectors: Seq<int>) -> Seq<u8>
        decreases sectors.len(),
    {
        if sectors.len() == 0 {
            Seq::empty()
        } else {
            self.bytes_at(disk, sectors.drop_last()) + self.sector(disk, sectors.last())
        }
    }

    /// Whether there is a cluster `c`.
    pub open spec fn has_cluster(self, c: u32) -> bool {
        2 <= c < self.cluster_count + 2
    }

    /// The first sector of cluster `c`.
    pub open spec fn first_sector(self, c: u32) -> int {
        self.data_start + (c - 2) * self.sectors_per_cluster
    }

    /// The sectors of clusters, one after another.
    pub open spec fn sectors_of(self, clusters: Seq<u32>) -> Seq<int>
        decreases clusters.len(),
    {
        if clusters.len() == 0 {
            Seq::empty()
        } else {
            self.sectors_of(clusters.drop_last()) + sector_range(
                self.first_sector(clusters.last()),
                self.sectors_per_cluster as int,
            )
        }
    }

    /// The sector of the first FAT that has the entry of cluster `c`.
    pub open spec fn fat_sector(self, c: u32) -> int {
        self.fat_start + c * self.width() / 512
    }

    /// Where in its sector the FAT entry of cluster `c` is.
    pub open spec fn fat_offset(self, c: u32) -> int {
        c * self.width() % 512
    }

    /// What a FAT sector's bytes say at `at`. FAT32's top four bits are reserved.
    pub open spec fn value_at(self, block: Seq<u8>, at: int) -> u32 {
        if self.fat_type == FatType::Fat16 {
            bytes::le16(block, at) as u32
        } else {
            (bytes::le32(block, at) % 0x1000_0000) as u32
        }
    }

    /// The FAT entry of cluster `c`; 0 means that it is free.
    pub open spec fn fat_entry(self, disk: Disk, c: u32) -> u32 {
        self.value_at(self.sector(disk, self.fat_sector(c)), self.fat_offset(c))
    }

    /// The entry that ends a chain.
    pub open spec fn end_mark(self) -> u32 {
        if self.fat_type == FatType::Fat16 {
            0xFFFF
        } else {
            0x0FFF_FFFF
        }
    }

    /// What a FAT entry means.
    pub open spec fn meaning(self, value: u32) -> Link {
        if value >= self.end_mark() - 7 {
            Link::End
        } else if value == self.end_mark() - 8 {
            Link::Bad
        } else {
            Link::To(value)
        }
    }

    /// What the FAT says of cluster `c`.
    pub open spec fn link(self, disk: Disk, c: u32) -> Link {
        self.meaning(self.fat_entry(disk, c))
    }

    /// The clusters of the chain from `c` on, if it has at most `left` more: as many as hold
    /// `need` bytes, or all of them.
    pub open spec fn chain_from(self, disk: Disk, c: u32, left: nat, need: Option<int>) -> Result<
        Seq<u32>,
        Fault,
    >
        decreases left,
    {
        if !self.has_cluster(c) {
            Err(Fault::BadCluster(c))
        } else if left == 0 {
            Err(Fault::ChainLoop)
        } else {
            match self.link(disk, c) {
                Link::Bad => Err(Fault::BadCluster(c)),
                Link::End => Ok(seq![c]),
                Link::To(next) => {
                    let more = match need {
                        Some(n) => Some(n - self.cluster_bytes()),
                        None => None,
                    };
                    if more matches Some(n) && n <= 0 {
                        Ok(seq![c])
                    } else {
                        match self.chain_from(disk, next, (left - 1) as nat, more) {
                            Ok(rest) => Ok(seq![c] + rest),
                            Err(fault) => Err(fault),
                        }
                    }
                },
            }
        }
    }

    /// The clusters of the chain that starts at `first`. A chain longer than the volume has
    /// clusters goes round.
    pub open spec fn chain(self, disk: Disk, first: u32) -> Result<Seq<u32>, Fault> {
        self.chain_from(disk, first, self.cluster_count as nat, None)
    }

    /// What the chain that starts at `first` holds: `limit` bytes of it, or all of it.
    pub open spec fn chain_bytes(self, disk: Disk, first: u32, limit: Option<int>) -> Result<
        Seq<u8>,
        Fault,
    > {
        if limit == Some(0int) {
            Ok(Seq::empty())
        } else {
            match self.chain_from(disk, first, self.cluster_count as nat, limit) {
                Ok(clusters) => {
                    let all = self.bytes_at(disk, self.sectors_of(clusters));
                    match limit {
                        Some(n) => if all.len() < n {
                            Err(Fault::Truncated)
                        } else {
                            Ok(all.subrange(0, n))
                        },
                        None => Ok(all),
                    }
                },
                Err(fault) => Err(fault),
            }
        }
    }

    /// The sectors of a directory.
    pub open spec fn dir_sectors(self, disk: Disk, dir: Dir) -> Result<Seq<int>, Fault> {
        match self.dir_start(dir) {
            Some(first) => match self.chain(disk, first.0) {
                Ok(clusters) => Ok(self.sectors_of(clusters)),
                Err(fault) => Err(fault),
            },
            None => Ok(sector_range(self.root->start as int, self.root->sectors as int)),
        }
    }

    /// The first cluster of a directory, unless it is the fixed root.
    pub open spec fn dir_start(self, dir: Dir) -> Option<Cluster> {
        match dir {
            Dir::Chain(first) => Some(first),
            Dir::Root => match self.root {
                RootDir::Chain(first) => Some(first),
                RootDir::Fixed { .. } => None,
            },
        }
    }

    /// What a directory holds.
    pub open spec fn dir_bytes(self, disk: Disk, dir: Dir) -> Result<Seq<u8>, Fault> {
        match self.dir_sectors(disk, dir) {
            Ok(sectors) => Ok(self.bytes_at(disk, sectors)),
            Err(fault) => Err(fault),
        }
    }

    /// The entry for `name` in a directory.
    pub open spec fn lookup(self, disk: Disk, dir: Dir, name: Seq<char>) -> Result<
        LocatedModel,
        Fault,
    > {
        match self.dir_bytes(disk, dir) {
            Ok(bytes) => match entries::entry_for(bytes, self.fat_type, name) {
                Some(located) => Ok(located),
                None => Err(Fault::NotFound),
            },
            Err(fault) => Err(fault),
        }
    }

    /// The directory that names lead to from `dir`. Empty names lead nowhere else.
    pub open spec fn dir_from(self, disk: Disk, dir: Dir, parts: Seq<Seq<char>>) -> Result<
        Dir,
        Fault,
    >
        decreases parts.len(),
    {
        if parts.len() == 0 {
            Ok(dir)
        } else if parts[0].len() == 0 {
            self.dir_from(disk, dir, parts.subrange(1, parts.len() as int))
        } else {
            match self.lookup(disk, dir, parts[0]) {
                Ok(located) => if located.entry.kind == EntryKind::Directory {
                    self.dir_from(
                        disk,
                        dir_at(located.entry.first_cluster),
                        parts.subrange(1, parts.len() as int),
                    )
                } else {
                    Err(Fault::NotADirectory)
                },
                Err(fault) => Err(fault),
            }
        }
    }

    /// The directory at a path.
    pub open spec fn dir_of(self, disk: Disk, path: Seq<char>) -> Result<Dir, Fault> {
        self.dir_from(disk, Dir::Root, text::pieces_from(path, 0, '/'))
    }

    /// The entry at a path. The root itself has none.
    pub open spec fn entry_of(self, disk: Disk, path: Seq<char>) -> Result<EntryModel, Fault> {
        let (parent, name) = split_path(path);
        if name.len() == 0 {
            Err(Fault::NotFound)
        } else {
            match self.dir_of(disk, parent) {
                Ok(dir) => match self.lookup(disk, dir, name) {
                    Ok(located) => Ok(located.entry),
                    Err(fault) => Err(fault),
                },
                Err(fault) => Err(fault),
            }
        }
    }

    /// The entries of the directory at a path.
    pub open spec fn list_of(self, disk: Disk, path: Seq<char>) -> Result<
        Seq<LocatedModel>,
        Fault,
    > {
        match self.dir_of(disk, path) {
            Ok(dir) => match self.dir_bytes(disk, dir) {
                Ok(bytes) => Ok(entries::listing(bytes, self.fat_type)),
                Err(fault) => Err(fault),
            },
            Err(fault) => Err(fault),
        }
    }

    /// What the file at a path holds.
    pub open spec fn file_of(self, disk: Disk, path: Seq<char>) -> Result<Seq<u8>, Fault> {
        match self.entry_of(disk, path) {
            Ok(entry) => if entry.kind == EntryKind::File {
                self.chain_bytes(disk, entry.first_cluster.0, Some(entry.size as int))
            } else {
                Err(Fault::NotAFile)
            },
            Err(fault) => Err(fault),
        }
    }
}

/// The directory that starts at `first`. A ".." entry that leads to the root has cluster 0.
pub open spec fn dir_at(first: Cluster) -> Dir {
    if first.0 == 0 {
        Dir::Root
    } else {
        Dir::Chain(first)
    }
}

/// A path without the slashes at its end.
pub open spec fn without_slashes(path: Seq<char>) -> Seq<char>
    decreases path.len(),
{
    if path.len() > 0 && path.last() == '/' {
        without_slashes(path.drop_last())
    } else {
        path
    }
}

/// A path's parent directory and final name.
pub open spec fn split_path(path: Seq<char>) -> (Seq<char>, Seq<char>) {
    let bare = without_slashes(path);
    let slash = names::last_place(bare, '/', bare.len() as int);
    if slash < 0 {
        (Seq::empty(), bare)
    } else {
        (bare.subrange(0, slash), bare.subrange(slash + 1, bare.len() as int))
    }
}

impl Layout {
    /// Clusters lie in the data area.
    pub proof fn lemma_cluster_place(self, c: u32)
        requires
            self.wf(),
            self.has_cluster(c),
        ensures
            self.data_start <= self.first_sector(c),
            self.first_sector(c) + self.sectors_per_cluster <= self.data_start
                + self.cluster_count * self.sectors_per_cluster,
    {
        assert(0 <= (c - 2) * self.sectors_per_cluster) by (nonlinear_arith)
            requires
                c >= 2,
                self.sectors_per_cluster >= 1,
        ;
        assert((c - 2) * self.sectors_per_cluster + self.sectors_per_cluster <= self.cluster_count
            * self.sectors_per_cluster) by (nonlinear_arith)
            requires
                c - 1 <= self.cluster_count,
                self.sectors_per_cluster >= 1,
        ;
    }

    /// What two lists of sectors hold is what the first holds, and then the second.
    pub proof fn lemma_bytes_concat(self, disk: Disk, a: Seq<int>, b: Seq<int>)
        ensures
            self.bytes_at(disk, a + b) == self.bytes_at(disk, a) + self.bytes_at(disk, b),
        decreases b.len(),
    {
        if b.len() == 0 {
            assert(a + b =~= a);
            assert(self.bytes_at(disk, a) + Seq::<u8>::empty() =~= self.bytes_at(disk, a));
        } else {
            self.lemma_bytes_concat(disk, a, b.drop_last());
            assert((a + b).drop_last() =~= a + b.drop_last());
            assert((a + b).last() == b.last());
            assert(self.bytes_at(disk, a) + (self.bytes_at(disk, b.drop_last()) + self.sector(
                disk,
                b.last(),
            )) =~= self.bytes_at(disk, a) + self.bytes_at(disk, b.drop_last()) + self.sector(
                disk,
                b.last(),
            ));
        }
    }

    /// The sectors of two lists of clusters are those of the first, and then of the second.
    pub proof fn lemma_sectors_concat(self, a: Seq<u32>, b: Seq<u32>)
        ensures
            self.sectors_of(a + b) == self.sectors_of(a) + self.sectors_of(b),
        decreases b.len(),
    {
        if b.len() == 0 {
            assert(a + b =~= a);
            assert(self.sectors_of(a) + Seq::<int>::empty() =~= self.sectors_of(a));
        } else {
            self.lemma_sectors_concat(a, b.drop_last());
            assert((a + b).drop_last() =~= a + b.drop_last());
            assert((a + b).last() == b.last());
            let tail = sector_range(self.first_sector(b.last()), self.sectors_per_cluster as int);
            assert(self.sectors_of(a) + (self.sectors_of(b.drop_last()) + tail) =~= self.sectors_of(
                a,
            ) + self.sectors_of(b.drop_last()) + tail);
        }
    }

    /// Consecutive clusters have consecutive sectors.
    pub proof fn lemma_run_sectors(self, c: u32, n: int)
        requires
            0 <= n,
            c + n <= u32::MAX,
        ensures
            self.sectors_of(cluster_run(c, n)) == sector_range(
                self.first_sector(c),
                n * self.sectors_per_cluster,
            ),
        decreases n,
    {
        let per = self.sectors_per_cluster as int;
        assert(n * per >= 0) by (nonlinear_arith)
            requires
                n >= 0,
                per >= 0,
        ;
        if n > 0 {
            self.lemma_run_sectors(c, n - 1);
            assert(cluster_run(c, n).drop_last() =~= cluster_run(c, n - 1));
            let last = cluster_run(c, n).last();
            assert(last == c + n - 1);
            assert(self.first_sector(last) == self.first_sector(c) + (n - 1) * per)
                by (nonlinear_arith)
                requires
                    self.first_sector(last) == self.data_start + (last - 2) * per,
                    self.first_sector(c) == self.data_start + (c - 2) * per,
                    last == c + n - 1,
            ;
            assert(n * per == (n - 1) * per + per) by (nonlinear_arith);
            assert((n - 1) * per >= 0) by (nonlinear_arith)
                requires
                    n >= 1,
                    per >= 0,
            ;
            assert(sector_range(self.first_sector(c), (n - 1) * per) + sector_range(
                self.first_sector(last),
                per,
            ) =~= sector_range(self.first_sector(c), n * per));
        } else {
            assert(cluster_run(c, n) =~= Seq::<u32>::empty());
            assert(n * per == 0) by (nonlinear_arith)
                requires
                    n == 0,
            ;
            assert(sector_range(self.first_sector(c), 0) =~= Seq::<int>::empty());
        }
    }

    /// How much sectors hold, if each holds 512 bytes.
    pub proof fn lemma_bytes_length(self, disk: Disk, sectors: Seq<int>)
        requires
            forall|i: int|
                0 <= i < sectors.len() ==> self.sector(disk, #[trigger] sectors[i]).len() == 512,
        ensures
            self.bytes_at(disk, sectors).len() == 512 * sectors.len(),
        decreases sectors.len(),
    {
        if sectors.len() > 0 {
            let front = sectors.drop_last();
            assert forall|i: int| 0 <= i < front.len() implies self.sector(
                disk,
                #[trigger] front[i],
            ).len() == 512 by {
                assert(front[i] == sectors[i]);
            }
            self.lemma_bytes_length(disk, front);
            assert(self.sector(disk, sectors[sectors.len() - 1]).len() == 512);
        }
    }
}

/// `n` clusters from `c` on.
pub open spec fn cluster_run(c: u32, n: int) -> Seq<u32> {
    Seq::new(n as nat, |i: int| (c + i) as u32)
}

} // verus!
