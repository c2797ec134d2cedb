use rustypi::block::{BlockDevice, Lba, MemoryDisk, WritableBlockDevice, BLOCK_SIZE};
use rustypi::fat::change::{FSINFO_LEAD, FSINFO_STRUCT};
use rustypi::fat::entries::{parse_located, ATTR_DIRECTORY};
use rustypi::fat::names::{
    names_match, short_name, short_name_checksum, ATTR_LONG_NAME, CASE_LOWER_BASE, DIR_ENTRY_SIZE,
    ENTRY_KANJI_E5, LFN_CHARS, LFN_LAST,
};
use rustypi::fat::stored::short_names;
use rustypi::fat::volume::{Dir, RootDir};
use rustypi::fat::{DirEntry, EntryKind, Fat, FatError, FatType};
use rustypi::time::DateTime;

/// 2026-01-01, as FAT stores it.
const DEFAULT_DATE: u16 = (2026 - 1980) << 9 | 1 << 5 | 1;

fn u16_at(bytes: &[u8], at: usize) -> u16 {
    u16::from_le_bytes([bytes[at], bytes[at + 1]])
}

fn u32_at(bytes: &[u8], at: usize) -> u32 {
    u32::from_le_bytes(bytes[at..at + 4].try_into().unwrap())
}

/// Builds FAT images for tests: a minimal formatter with directories, long names and
/// optionally scattered clusters.
struct Image {
    disk: MemoryDisk,
    fat_type: FatType,
    start: u64,
    reserved: u64,
    fat_size: u64,
    root_sectors: u64,
    next_cluster: u32,
    /// Leave a gap after each cluster, so chains aren't contiguous.
    scatter: bool,
    fat: Vec<u32>,
    /// Directory contents by first cluster (0 = the FAT16 root).
    dirs: Vec<(u32, Vec<u8>)>,
}

impl Image {
    fn new(fat_type: FatType, start: u64) -> Self {
        let (clusters, reserved, root_entries): (u64, u64, u64) = match fat_type {
            FatType::Fat16 => (5_000, 4, 512),
            FatType::Fat32 => (70_000, 32, 0),
        };
        let width = if fat_type == FatType::Fat16 { 2 } else { 4 };
        let fat_size = ((clusters + 2) * width).div_ceil(512);
        let root_sectors = root_entries * 32 / 512;
        let mut image = Image {
            disk: MemoryDisk::default(),
            fat_type,
            start,
            reserved,
            fat_size,
            root_sectors,
            next_cluster: 2,
            scatter: false,
            fat: vec![0; clusters as usize + 2],
            dirs: Vec::new(),
        };
        let total = reserved + 2 * fat_size + root_sectors + clusters;
        let mut boot = [0u8; 512];
        boot[0] = 0xEB;
        boot[11..13].copy_from_slice(&512u16.to_le_bytes());
        boot[13] = 1;
        boot[14..16].copy_from_slice(&(reserved as u16).to_le_bytes());
        boot[16] = 2;
        boot[17..19].copy_from_slice(&(root_entries as u16).to_le_bytes());
        boot[32..36].copy_from_slice(&(total as u32).to_le_bytes());
        match fat_type {
            FatType::Fat16 => {
                boot[22..24].copy_from_slice(&(fat_size as u16).to_le_bytes());
                boot[43..54].copy_from_slice(b"TESTVOL16  ");
                image.dirs.push((0, Vec::new()));
            }
            FatType::Fat32 => {
                boot[36..40].copy_from_slice(&(fat_size as u32).to_le_bytes());
                boot[71..82].copy_from_slice(b"TESTVOL32  ");
                let root = image.alloc_chain(1);
                boot[44..48].copy_from_slice(&root.to_le_bytes());
                image.dirs.push((root, Vec::new()));
            }
        }
        boot[510] = 0x55;
        boot[511] = 0xAA;
        image.disk.write(start, 0, &boot);
        image
    }

    fn root(&self) -> u32 {
        self.dirs[0].0
    }

    fn end_marker(&self) -> u32 {
        if self.fat_type == FatType::Fat16 { 0xFFFF } else { 0x0FFF_FFFF }
    }

    /// Allocates `count` clusters as one chain and returns the first.
    fn alloc_chain(&mut self, count: usize) -> u32 {
        let clusters: Vec<u32> = (0..count)
            .map(|_| {
                let c = self.next_cluster;
                self.next_cluster += if self.scatter { 2 } else { 1 };
                c
            })
            .collect();
        for pair in clusters.windows(2) {
            self.fat[pair[0] as usize] = pair[1];
        }
        let end = self.end_marker();
        self.fat[*clusters.last().unwrap() as usize] = end;
        clusters[0]
    }

    fn cluster_lba(&self, cluster: u32) -> u64 {
        self.start + self.reserved + 2 * self.fat_size + self.root_sectors + (cluster as u64 - 2)
    }

    fn write_chain(&mut self, first: u32, data: &[u8]) {
        let mut cluster = first;
        for chunk in data.chunks(512) {
            self.disk.write(self.cluster_lba(cluster), 0, chunk);
            cluster = self.fat[cluster as usize];
        }
    }

    /// Adds a directory entry (with long name entries when needed) to directory `dir`.
    fn add_entry(&mut self, dir: u32, name: &str, attr: u8, cluster: u32, size: u32) {
        let is_short = name.len() <= 12
            && name.chars().all(|c| c.is_ascii_uppercase() || c.is_ascii_digit() || c == '.')
            && name.split('.').count() <= 2;
        let mut short = [b' '; 11];
        if name == "." || name == ".." {
            short[..name.len()].copy_from_slice(name.as_bytes());
        } else if is_short {
            let (base, ext) = name.split_once('.').unwrap_or((name, ""));
            short[..base.len()].copy_from_slice(base.as_bytes());
            short[8..8 + ext.len()].copy_from_slice(ext.as_bytes());
        } else {
            let alias = b"LONGNA~1";
            short[..8].copy_from_slice(alias);
            short[8..11].copy_from_slice(&(self.dirs.len() as u32 + 100).to_string().as_bytes()[..3]);
        }
        let mut bytes = Vec::new();
        if !is_short {
            let checksum = short_name_checksum(&short);
            let mut units: Vec<u16> = name.encode_utf16().collect();
            let pieces = units.len().div_ceil(LFN_CHARS);
            if units.len() % LFN_CHARS != 0 {
                units.push(0);
            }
            units.resize(pieces * LFN_CHARS, 0xFFFF);
            for seq in (1..=pieces).rev() {
                let mut e = [0u8; 32];
                e[0] = seq as u8 | if seq == pieces { LFN_LAST } else { 0 };
                e[11] = ATTR_LONG_NAME;
                e[13] = checksum;
                let chars = &units[(seq - 1) * LFN_CHARS..seq * LFN_CHARS];
                for (unit, at) in chars.iter().zip((1..11).step_by(2).chain((14..26).step_by(2)).chain((28..32).step_by(2))) {
                    e[at..at + 2].copy_from_slice(&unit.to_le_bytes());
                }
                bytes.extend_from_slice(&e);
            }
        }
        let mut e = [0u8; 32];
        e[..11].copy_from_slice(&short);
        e[11] = attr;
        e[20..22].copy_from_slice(&((cluster >> 16) as u16).to_le_bytes());
        e[26..28].copy_from_slice(&(cluster as u16).to_le_bytes());
        e[28..32].copy_from_slice(&size.to_le_bytes());
        bytes.extend_from_slice(&e);
        self.dirs.iter_mut().find(|(c, _)| *c == dir).unwrap().1.extend(bytes);
    }

    fn add_file(&mut self, dir: u32, name: &str, data: &[u8]) -> u32 {
        let cluster = if data.is_empty() { 0 } else { self.alloc_chain(data.len().div_ceil(512)) };
        if !data.is_empty() {
            self.write_chain(cluster, data);
        }
        self.add_entry(dir, name, 0x20, cluster, data.len() as u32);
        cluster
    }

    fn add_dir(&mut self, parent: u32, name: &str) -> u32 {
        let cluster = self.alloc_chain(4);
        self.add_entry(parent, name, ATTR_DIRECTORY, cluster, 0);
        self.dirs.push((cluster, Vec::new()));
        let parent_ref = if parent == self.root() && self.fat_type == FatType::Fat16 { 0 } else { parent };
        self.add_entry(cluster, ".", ATTR_DIRECTORY, cluster, 0);
        self.add_entry(cluster, "..", ATTR_DIRECTORY, parent_ref, 0);
        cluster
    }

    /// Writes the FATs and directories and returns the disk.
    fn finish(mut self) -> MemoryDisk {
        let width = if self.fat_type == FatType::Fat16 { 2 } else { 4 };
        let mut fat_bytes = Vec::new();
        for &entry in &self.fat {
            fat_bytes.extend_from_slice(&entry.to_le_bytes()[..width]);
        }
        for copy in 0..2 {
            let lba = self.start + self.reserved + copy * self.fat_size;
            self.disk.write(lba, 0, &fat_bytes);
        }
        for (cluster, bytes) in core::mem::take(&mut self.dirs) {
            if cluster == 0 {
                let lba = self.start + self.reserved + 2 * self.fat_size;
                self.disk.write(lba, 0, &bytes);
            } else {
                self.write_chain(cluster, &bytes);
            }
        }
        self.disk
    }
}

fn names(entries: &[DirEntry]) -> Vec<&str> {
    entries.iter().map(|e| e.name.as_str()).collect()
}

/// A small tree on either FAT type: files of several sizes, a long name, a subdirectory.
fn sample(fat_type: FatType, scatter: bool) -> (Fat<MemoryDisk>, Vec<u8>) {
    let mut image = Image::new(fat_type, 2048);
    image.scatter = scatter;
    let root = image.root();
    let big: Vec<u8> = (0..5000u32).map(|i| (i * 7) as u8).collect();
    image.add_file(root, "CONFIG.TXT", b"arm_64bit=1\n");
    image.add_file(root, "kernel8 image with a long name.img", &big);
    image.add_file(root, "EMPTY", b"");
    let sub = image.add_dir(root, "OVERLAYS");
    image.add_file(sub, "README", b"overlays go here\n");
    let fat = Fat::mount(image.finish(), Lba(2048)).unwrap();
    (fat, big)
}

#[test]
fn mounts_and_reports_the_layout() {
    let (fat16, _) = sample(FatType::Fat16, false);
    assert_eq!((fat16.fat_type(), fat16.label()), (FatType::Fat16, "TESTVOL16"));
    let (fat32, _) = sample(FatType::Fat32, false);
    assert_eq!((fat32.fat_type(), fat32.label()), (FatType::Fat32, "TESTVOL32"));
    assert_eq!(fat32.cluster_size(), 512);
}

#[test]
fn lists_directories_with_long_names() {
    for fat_type in [FatType::Fat16, FatType::Fat32] {
        let (mut fat, _) = sample(fat_type, false);
        let root = fat.read_dir("/").unwrap();
        assert_eq!(names(&root), ["CONFIG.TXT", "kernel8 image with a long name.img", "EMPTY", "OVERLAYS"]);
        assert_eq!(root[3].kind, EntryKind::Directory);
        assert_eq!(root[1].size, 5000);
        // "." and ".." are hidden; trailing slashes and case don't matter.
        assert_eq!(names(&fat.read_dir("/overlays/").unwrap()), ["README"]);
    }
}

#[test]
fn reads_files_across_scattered_clusters() {
    for fat_type in [FatType::Fat16, FatType::Fat32] {
        for scatter in [false, true] {
            let (mut fat, big) = sample(fat_type, scatter);
            assert_eq!(fat.read_file("/config.txt").unwrap(), b"arm_64bit=1\n");
            assert_eq!(fat.read_file("/KERNEL8 IMAGE WITH A LONG NAME.IMG").unwrap(), big);
            assert_eq!(fat.read_file("/empty").unwrap(), b"");
            assert_eq!(fat.read_file("overlays/readme").unwrap(), b"overlays go here\n");
        }
    }
}

#[test]
fn contiguous_files_are_read_in_one_command() {
    for (scatter, commands) in [(false, 1), (true, 10)] {
        let (mut fat, big) = sample(FatType::Fat32, scatter);
        let entry = fat.metadata("/kernel8 image with a long name.img").unwrap();
        let before = fat.device.commands;
        assert_eq!(fat.read_chain(entry.first_cluster(), Some(entry.size as usize)).unwrap(), big);
        assert_eq!(fat.device.commands - before, commands, "scatter {}", scatter);
    }
}

#[test]
fn caches_fat_sectors() {
    let (mut fat, _) = sample(FatType::Fat32, false);
    fat.read_file("/kernel8 image with a long name.img").unwrap();
    let before = fat.device.reads;
    fat.read_file("/kernel8 image with a long name.img").unwrap();
    // 10 data sectors, plus the root directory's cluster, and no extra FAT reads.
    assert_eq!(fat.device.reads - before, 10 + 1);
}

#[test]
fn path_errors() {
    let (mut fat, _) = sample(FatType::Fat16, false);
    assert!(matches!(fat.read_file("/missing"), Err(FatError::NotFound)));
    assert!(matches!(fat.read_file("/overlays"), Err(FatError::NotAFile)));
    assert!(matches!(fat.read_dir("/config.txt"), Err(FatError::NotADirectory)));
    assert!(matches!(fat.read_dir("/config.txt/x"), Err(FatError::NotADirectory)));
    assert!(matches!(fat.metadata("/"), Err(FatError::NotFound)));
    assert_eq!(fat.metadata("/overlays/readme").unwrap().size, 17);
}

#[test]
fn corrupt_chains_are_errors() {
    let mut image = Image::new(FatType::Fat32, 0);
    let root = image.root();
    // Directories have no size to stop at, so a loop there would read forever.
    let dir = image.add_dir(root, "LOOP");
    let second = image.add_file(root, "BAD", &[2; 1024]);
    let third = image.add_file(root, "SHORT", &[3; 1024]);
    image.fat[dir as usize + 3] = dir; // last cluster points back to the first
    image.fat[second as usize] = 0x0FFF_FFF7; // marked bad
    image.fat[third as usize] = 0x0FFF_FFFF; // ends after one of its two clusters
    let mut fat = Fat::mount(image.finish(), Lba(0)).unwrap();
    assert!(matches!(fat.read_dir("/loop"), Err(FatError::ChainLoop)));
    assert!(matches!(fat.read_file("/bad"), Err(FatError::BadCluster(_))));
    assert!(matches!(fat.read_file("/short"), Err(FatError::Truncated)));
}

#[test]
fn rejects_non_fat_boot_sectors() {
    let mut disk = MemoryDisk::default();
    assert!(matches!(Fat::mount(&mut disk, Lba(0)), Err(FatError::NotFat(_))));
    let mut boot = [0u8; 512];
    boot[11..13].copy_from_slice(&4096u16.to_le_bytes());
    boot[510] = 0x55;
    boot[511] = 0xAA;
    disk.write(0, 0, &boot);
    assert!(matches!(Fat::mount(&mut disk, Lba(0)), Err(FatError::UnsupportedSectorSize(4096))));
}

#[test]
fn short_names_honour_case_flags_and_the_e5_escape() {
    let mut entry = [b' '; 32];
    entry[..11].copy_from_slice(b"README  TXT");
    entry[12] = CASE_LOWER_BASE;
    assert_eq!(short_name(&entry), "readme.TXT");
    entry[0] = ENTRY_KANJI_E5;
    entry[12] = 0;
    assert_eq!(short_name(&entry), "\u{E5}EADME.TXT");
}

#[test]
fn orphaned_long_name_pieces_fall_back_to_the_short_name() {
    let mut image = Image::new(FatType::Fat16, 0);
    let root = image.root();
    image.add_file(root, "a long file name.txt", b"x");
    let mut disk = image.finish();
    // Corrupt the long name's checksum, as if the 8.3 entry had been renamed by an
    // old system that doesn't know about long names.
    let root_lba = 4 + 2 * 20;
    let mut block = [0; BLOCK_SIZE];
    disk.read_block(Lba(root_lba), &mut block).unwrap();
    block[13] ^= 0xFF;
    block[32 + 13] ^= 0xFF;
    disk.write(root_lba, 0, &block);
    let mut fat = Fat::mount(disk, Lba(0)).unwrap();
    assert_eq!(names(&fat.read_dir("/").unwrap()), ["LONGNA~1.101"]);
}

fn volumes() -> [Fat<MemoryDisk>; 2] {
    [FatType::Fat16, FatType::Fat32].map(|fat_type| sample(fat_type, false).0)
}

fn bytes(len: usize, seed: u8) -> Vec<u8> {
    (0..len).map(|i| (i as u8).wrapping_mul(7).wrapping_add(seed)).collect()
}

/// How many slots the entry for `name` in `dir` takes.
fn slots(fat: &mut Fat<MemoryDisk>, dir: &str, name: &str) -> usize {
    let dir = fat.find_dir(dir).unwrap();
    let image = fat.load_dir(dir).unwrap();
    let located = parse_located(&image.bytes, fat.fat_type());
    located.into_iter().find(|l| l.entry.name == name).map(|l| l.slot + 1 - l.first_slot).unwrap()
}

/// The (created date, modified date, modified time) of `name`'s entry in `dir`.
fn stamps(fat: &mut Fat<MemoryDisk>, dir: &str, name: &str) -> (u16, u16, u16) {
    let dir = fat.find_dir(dir).unwrap();
    let image = fat.load_dir(dir).unwrap();
    let located = parse_located(&image.bytes, fat.fat_type());
    let slot = located.into_iter().find(|l| l.entry.name == name).unwrap().slot;
    let entry = &image.bytes[slot * DIR_ENTRY_SIZE..(slot + 1) * DIR_ENTRY_SIZE];
    let word = |at: usize| u16::from_le_bytes([entry[at], entry[at + 1]]);
    (word(16), word(24), word(22))
}

#[test]
fn entries_get_the_time_set_and_replacing_keeps_the_created_date() {
    for mut fat in volumes() {
        fat.write_file("/stamped", b"one").unwrap();
        assert_eq!(stamps(&mut fat, "/", "stamped").0, DEFAULT_DATE);
        let later = DateTime::from_unix(1_790_000_000); // 2026-09-21 14:13:20
        fat.set_time(later);
        fat.write_file("/stamped", b"two").unwrap();
        let (date, time) = later.fat();
        assert_eq!(stamps(&mut fat, "/", "stamped"), (DEFAULT_DATE, date, time));
        fat.create_dir("/newdir").unwrap();
        assert_eq!(stamps(&mut fat, "/", "newdir"), (date, date, time));
        // And what listings show.
        let entry = fat.metadata("/stamped").unwrap();
        assert_eq!(entry.modified.to_string(), "2026-09-21 14:13");
    }
}

#[test]
fn created_files_read_back() {
    for mut fat in volumes() {
        let free = fat.free_clusters().unwrap();
        let data = bytes(3000, 1);
        fat.write_file("/new file.txt", &data).unwrap();
        assert_eq!(fat.read_file("/NEW FILE.TXT").unwrap(), data);
        let entry = fat.metadata("/new file.txt").unwrap();
        assert_eq!((entry.name.as_str(), entry.size), ("new file.txt", 3000));
        assert_eq!(free - fat.free_clusters().unwrap(), 3000u32.div_ceil(512));
        fat.write_file("/overlays/inner", b"x").unwrap();
        assert_eq!(fat.read_file("/overlays/inner").unwrap(), b"x");
        fat.write_file("/empty2", b"").unwrap();
        assert_eq!(fat.read_file("/empty2").unwrap(), b"");
    }
}

#[test]
fn replacing_a_file_frees_its_old_clusters() {
    for mut fat in volumes() {
        fat.write_file("/big", &bytes(5000, 2)).unwrap();
        let free = fat.free_clusters().unwrap();
        fat.write_file("/big", b"small now").unwrap();
        assert_eq!(fat.read_file("/big").unwrap(), b"small now");
        assert_eq!(fat.free_clusters().unwrap(), free + 10 - 1);
        // An existing file matched regardless of case keeps its entry.
        fat.write_file("/config.txt", b"arm_64bit=0\n").unwrap();
        assert_eq!(fat.read_file("/CONFIG.TXT").unwrap(), b"arm_64bit=0\n");
        assert_eq!(fat.read_dir("/").unwrap().iter().filter(|e| names_match(&e.name, "config.txt")).count(), 1);
    }
}

#[test]
fn short_names_need_no_long_entries() {
    for mut fat in volumes() {
        fat.write_file("/notes.txt", b"a").unwrap();
        fat.write_file("/README", b"b").unwrap();
        fat.write_file("/Mixed.txt", b"c").unwrap();
        assert_eq!(slots(&mut fat, "/", "notes.txt"), 1);
        assert_eq!(slots(&mut fat, "/", "README"), 1);
        assert_eq!(slots(&mut fat, "/", "Mixed.txt"), 2);
    }
}

#[test]
fn aliases_of_long_names_are_unique() {
    for mut fat in volumes() {
        fat.write_file("/long file name one.txt", b"1").unwrap();
        fat.write_file("/long file name two.txt", b"2").unwrap();
        assert_eq!(fat.read_file("/long file name one.txt").unwrap(), b"1");
        assert_eq!(fat.read_file("/long file name two.txt").unwrap(), b"2");
        let image = fat.load_dir(Dir::Root).unwrap();
        let shorts = short_names(&image.bytes);
        assert!(shorts.contains(&b"LONGFI~1TXT".to_vec()) && shorts.contains(&b"LONGFI~2TXT".to_vec()));
    }
}

#[test]
fn directories_can_be_made_filled_and_removed() {
    for mut fat in volumes() {
        let free = fat.free_clusters().unwrap();
        fat.create_dir("/docs").unwrap();
        assert!(matches!(fat.create_dir("/docs"), Err(FatError::AlreadyExists)));
        fat.write_file("/docs/a.txt", b"inside").unwrap();
        fat.create_dir("/docs/sub").unwrap();
        fat.write_file("/docs/sub/deep", b"deeper").unwrap();
        let names: Vec<_> = fat.read_dir("/docs").unwrap().into_iter().map(|e| e.name).collect();
        assert_eq!(names, ["a.txt", "sub"]);
        assert_eq!(fat.read_file("/docs/sub/deep").unwrap(), b"deeper");

        assert!(matches!(fat.remove("/docs"), Err(FatError::NotEmpty)));
        fat.remove("/docs/sub/deep").unwrap();
        fat.remove("/docs/sub").unwrap();
        fat.remove("/docs/a.txt").unwrap();
        fat.remove("/docs").unwrap();
        assert!(matches!(fat.metadata("/docs"), Err(FatError::NotFound)));
        assert_eq!(fat.free_clusters().unwrap(), free);
    }
}

#[test]
fn dot_entries_point_at_the_directory_and_its_parent() {
    let (mut fat, _) = sample(FatType::Fat32, false);
    fat.create_dir("/outer").unwrap();
    fat.create_dir("/outer/inner").unwrap();
    let outer = fat.metadata("/outer").unwrap().first_cluster;
    let inner = fat.metadata("/outer/inner").unwrap().first_cluster;
    let image = fat.load_dir(Dir::Chain(inner)).unwrap();
    let cluster_of = |entry: &[u8]| (u16_at(entry, 20) as u32) << 16 | u16_at(entry, 26) as u32;
    assert_eq!(&image.bytes[..11], b".          ");
    assert_eq!(cluster_of(&image.bytes[..32]), inner.0);
    assert_eq!(&image.bytes[32..43], b"..         ");
    assert_eq!(cluster_of(&image.bytes[32..64]), outer.0);
    // The root's children point ".." at cluster 0.
    let image = fat.load_dir(Dir::Chain(outer)).unwrap();
    assert_eq!(cluster_of(&image.bytes[32..64]), 0);
}

#[test]
fn directories_grow_past_a_cluster() {
    for mut fat in volumes() {
        fat.create_dir("/many").unwrap();
        for i in 0..40 {
            fat.write_file(&format!("/many/file number {i} with a long name.txt"), &bytes(i * 10, i as u8)).unwrap();
        }
        let entries = fat.read_dir("/many").unwrap();
        assert_eq!(entries.len(), 40);
        for i in 0..40 {
            let path = format!("/many/file number {i} with a long name.txt");
            assert_eq!(fat.read_file(&path).unwrap(), bytes(i * 10, i as u8));
        }
    }
}

#[test]
fn deleted_slots_are_reused() {
    for mut fat in volumes() {
        fat.write_file("/a long name to delete.txt", b"x").unwrap();
        let before = fat.load_dir(Dir::Root).unwrap().bytes.len();
        fat.remove("/a long name to delete.txt").unwrap();
        fat.write_file("/another long name here.txt", b"y").unwrap();
        assert_eq!(fat.load_dir(Dir::Root).unwrap().bytes.len(), before);
        assert_eq!(fat.read_file("/another long name here.txt").unwrap(), b"y");
    }
}

#[test]
fn the_fat16_root_fills_up_without_leaking() {
    let (mut fat, _) = sample(FatType::Fat16, false);
    let mut i = 0;
    let error = loop {
        let free = fat.free_clusters().unwrap();
        match fat.write_file(&format!("/a rather long file name number {i}.txt"), b"data") {
            Ok(()) => i += 1,
            Err(error) => {
                assert_eq!(fat.free_clusters().unwrap(), free);
                break error;
            }
        }
    };
    assert!(matches!(error, FatError::DirectoryFull));
    assert!(i > 100);
}

#[test]
fn a_full_disk_is_no_space_and_leaks_nothing() {
    let (mut fat, _) = sample(FatType::Fat16, false);
    let free = fat.free_clusters().unwrap();
    let too_big = bytes((free as usize + 1) * 512, 3);
    assert!(matches!(fat.write_file("/huge", &too_big), Err(FatError::NoSpace)));
    assert_eq!(fat.free_clusters().unwrap(), free);
    // Exactly what's free fits.
    fat.write_file("/huge", &too_big[..free as usize * 512]).unwrap();
    assert_eq!(fat.free_clusters().unwrap(), 0);
}

#[test]
fn bad_names_and_paths_are_refused() {
    let (mut fat, _) = sample(FatType::Fat32, false);
    for name in ["/", "/a?b", "/..", "/trailing.", "/co:lon", "/tab\there"] {
        assert!(matches!(fat.write_file(name, b"x"), Err(FatError::InvalidName)), "{}", name);
    }
    assert!(matches!(fat.write_file("/missing/x", b"x"), Err(FatError::NotFound)));
    assert!(matches!(fat.write_file("/overlays", b"x"), Err(FatError::NotAFile)));
    assert!(matches!(fat.write_file("/config.txt/x", b"x"), Err(FatError::NotADirectory)));
    assert!(matches!(fat.remove("/missing"), Err(FatError::NotFound)));
}

#[test]
fn fsinfo_tracks_the_free_clusters() {
    let (mut fat, _) = sample(FatType::Fat32, false);
    let mut fsinfo = [0u8; BLOCK_SIZE];
    let at = Lba(fat.layout.start);
    // The test image has no FSInfo sector; give it one at sector 1.
    fsinfo[0..4].copy_from_slice(&FSINFO_LEAD.to_le_bytes());
    fsinfo[484..488].copy_from_slice(&FSINFO_STRUCT.to_le_bytes());
    fat.device.write_block(at.offset(1), &fsinfo).unwrap();
    fat.layout.fsinfo = Some(1);
    fat.write_file("/one", &bytes(2000, 5)).unwrap();
    fat.create_dir("/two").unwrap();
    fat.remove("/empty").unwrap();
    fat.device.read_block(at.offset(1), &mut fsinfo).unwrap();
    assert_eq!(u32_at(&fsinfo, 488), fat.free_clusters().unwrap());
    assert_eq!(u32_at(&fsinfo, 492), fat.next_free);
}

#[test]
fn every_fat_copy_gets_the_changes() {
    for mut fat in volumes() {
        fat.write_file("/copied", &bytes(4000, 4)).unwrap();
        fat.create_dir("/dir").unwrap();
        fat.remove("/empty").unwrap();
        let (start, size) = (Lba(fat.layout.start), fat.layout.fat_size);
        let mut read = |copy: u64| {
            let mut blocks = vec![[0; BLOCK_SIZE]; size as usize];
            fat.device.read_blocks(start.offset(fat.layout.fat_start + copy * size), &mut blocks).unwrap();
            blocks
        };
        assert!(read(0) == read(1));
    }
}

/// A disk that fails every command once `left` have gone through.
struct FailingDisk {
    disk: MemoryDisk,
    left: usize,
}

impl FailingDisk {
    fn step(&mut self) -> Result<(), &'static str> {
        self.left = self.left.checked_sub(1).ok_or("card gone")?;
        Ok(())
    }
}

impl BlockDevice for FailingDisk {
    type Error = &'static str;

    fn read_block(&mut self, lba: Lba, block: &mut [u8; BLOCK_SIZE]) -> Result<(), &'static str> {
        self.step()?;
        self.disk.read_block(lba, block).map_err(|_| "never")
    }
}

impl WritableBlockDevice for FailingDisk {
    fn write_block(&mut self, lba: Lba, block: &[u8; BLOCK_SIZE]) -> Result<(), &'static str> {
        self.step()?;
        self.disk.write_block(lba, block).map_err(|_| "never")
    }
}

#[test]
fn device_errors_are_passed_on() {
    let disk = || sample(FatType::Fat16, false).0.into_device();
    assert!(matches!(
        Fat::mount(FailingDisk { disk: disk(), left: 0 }, Lba(2048)),
        Err(FatError::Device("card gone"))
    ));
    let mut failures = 0;
    for left in 1.. {
        let mut fat = Fat::mount(FailingDisk { disk: disk(), left }, Lba(2048)).unwrap();
        match fat.write_file("/a file to write.txt", &bytes(2000, 1)) {
            Err(error) => {
                assert!(matches!(error, FatError::Device("card gone")), "{}", error.describe("?"));
                failures += 1;
            }
            Ok(()) => break,
        }
    }
    assert!(failures > 5);
}

/// Does `change` to a volume whose card is gone after ever more commands, and hands what is left
/// each time to `check`.
fn cut_at_every_command(
    fat_type: FatType,
    change: fn(&mut Fat<FailingDisk>) -> Result<(), FatError<&'static str>>,
    check: fn(&mut Fat<MemoryDisk>),
) {
    for left in 1.. {
        let disk = sample(fat_type, true).0.into_device();
        let mut fat = Fat::mount(FailingDisk { disk, left }, Lba(2048)).unwrap();
        let done = change(&mut fat);
        let (_, big) = sample(fat_type, true);
        let mut after = Fat::mount(fat.into_device().disk, Lba(2048)).unwrap();
        assert_eq!(after.read_file("/kernel8 image with a long name.img").unwrap(), big);
        assert_eq!(after.read_file("/overlays/readme").unwrap(), b"overlays go here\n");
        check(&mut after);
        if done.is_ok() {
            assert!(left > 5);
            break;
        }
    }
}

#[test]
fn power_cuts_leave_files_old_or_new() {
    for fat_type in [FatType::Fat16, FatType::Fat32] {
        cut_at_every_command(
            fat_type,
            |fat| fat.write_file("/config.txt", &bytes(3000, 9)),
            |after| {
                let now = after.read_file("/config.txt").unwrap();
                let before = sample(FatType::Fat16, true).0.read_file("/config.txt").unwrap();
                assert!(now == before || now == bytes(3000, 9));
            },
        );
        cut_at_every_command(
            fat_type,
            |fat| fat.write_file("/overlays/a new file.txt", &bytes(3000, 7)),
            |after| match after.read_file("/overlays/a new file.txt") {
                Ok(now) => assert_eq!(now, bytes(3000, 7)),
                Err(error) => assert!(matches!(error, FatError::NotFound)),
            },
        );
    }
}

#[test]
fn power_cuts_leave_directories_made_or_not() {
    for fat_type in [FatType::Fat16, FatType::Fat32] {
        cut_at_every_command(
            fat_type,
            |fat| fat.create_dir("/a new directory"),
            |after| match after.read_dir("/a new directory") {
                Ok(entries) => assert!(entries.is_empty()),
                Err(error) => assert!(matches!(error, FatError::NotFound)),
            },
        );
    }
}

#[test]
fn power_cuts_leave_what_is_removed_whole_or_gone() {
    for fat_type in [FatType::Fat16, FatType::Fat32] {
        cut_at_every_command(
            fat_type,
            |fat| fat.remove("/config.txt"),
            |after| match after.read_file("/config.txt") {
                Ok(now) => {
                    let mut fat = sample(FatType::Fat16, true).0;
                    assert_eq!(now, fat.read_file("/config.txt").unwrap());
                }
                Err(error) => assert!(matches!(error, FatError::NotFound)),
            },
        );
    }
}

#[test]
fn writes_that_fail_change_nothing_but_free_clusters() {
    for fat_type in [FatType::Fat16, FatType::Fat32] {
        let (mut fat, big) = sample(fat_type, true);
        let free = fat.free_clusters().unwrap();
        let size = (free as usize + 1) * fat.cluster_size();
        assert!(matches!(fat.write_file("/too big", &bytes(size, 3)), Err(FatError::NoSpace)));
        assert!(matches!(fat.write_file("/overlays", b"no"), Err(FatError::NotAFile)));
        assert!(matches!(fat.create_dir("/config.txt"), Err(FatError::AlreadyExists)));
        assert!(matches!(fat.remove("/overlays"), Err(FatError::NotEmpty)));
        assert!(matches!(fat.remove("/nothing"), Err(FatError::NotFound)));
        assert_eq!(fat.free_clusters().unwrap(), free);
        assert_eq!(fat.read_file("/kernel8 image with a long name.img").unwrap(), big);
        assert_eq!(fat.read_file("/overlays/readme").unwrap(), b"overlays go here\n");
    }
}

#[test]
fn other_files_stay_as_they_are() {
    for fat_type in [FatType::Fat16, FatType::Fat32] {
        let (mut fat, big) = sample(fat_type, true);
        fat.write_file("/new", &bytes(3000, 9)).unwrap();
        fat.write_file("/overlays/another new one", &bytes(700, 8)).unwrap();
        fat.create_dir("/made").unwrap();
        fat.remove("/config.txt").unwrap();
        assert_eq!(fat.read_file("/kernel8 image with a long name.img").unwrap(), big);
        assert_eq!(fat.read_file("/overlays/readme").unwrap(), b"overlays go here\n");
        assert_eq!(fat.read_file("/new").unwrap(), bytes(3000, 9));
        assert!(fat.read_dir("/made").unwrap().is_empty());
        assert!(matches!(fat.read_file("/config.txt"), Err(FatError::NotFound)));
    }
}

#[test]
fn volumes_too_small_for_fat16_are_refused() {
    let image = Image::new(FatType::Fat16, 0);
    let mut disk = image.finish();
    disk.write(0, 32, &4000u32.to_le_bytes());
    assert!(matches!(Fat::mount(disk, Lba(0)), Err(FatError::Fat12)));
}

#[test]
fn labels_that_are_not_text_are_mended() {
    let image = Image::new(FatType::Fat16, 0);
    let mut disk = image.finish();
    disk.write(0, 43, b"B\xFFX        ");
    assert_eq!(Fat::mount(disk, Lba(0)).unwrap().label(), "B\u{FFFD}X");
}

#[test]
fn names_match_in_either_case() {
    assert!(names_match("\u{c9}t\u{c9}.TXT", "\u{e9}T\u{e9}.txt"));
    assert!(names_match("\u{130}", "i\u{307}"));
    assert!(!names_match("a", "b"));
    assert!(!names_match("\u{e9}", "e"));
}

#[test]
fn long_names_outside_ascii_read_back() {
    for mut fat in volumes() {
        let path = "/sm\u{f6}rg\u{e5}s \u{1f35e} p\u{e5} bordet.txt";
        fat.write_file(path, b"bread").unwrap();
        assert_eq!(fat.read_file(path).unwrap(), b"bread");
        assert_eq!(fat.metadata(path).unwrap().name, path[1..]);
    }
}

#[test]
fn errors_are_shown_in_words() {
    let shown: Vec<(FatError<()>, &str)> = vec![
        (FatError::Device(()), "device: gone"),
        (FatError::NotFat("no signature"), "not a FAT volume: no signature"),
        (FatError::UnsupportedSectorSize(4096), "4096-byte sectors not supported"),
        (FatError::Fat12, "FAT12 not supported"),
        (FatError::BadCluster(77), "bad cluster 77"),
        (FatError::ChainLoop, "cluster chain loops"),
        (FatError::Truncated, "file shorter than its size"),
        (FatError::NotFound, "not found"),
        (FatError::NotADirectory, "not a directory"),
        (FatError::NotAFile, "not a file"),
        (FatError::InvalidName, "invalid name"),
        (FatError::TooBig, "too big for a file"),
        (FatError::AlreadyExists, "already exists"),
        (FatError::NotEmpty, "directory not empty"),
        (FatError::DirectoryFull, "directory full"),
        (FatError::NoSpace, "no space left"),
    ];
    for (error, words) in shown {
        assert_eq!(error.describe("gone"), words);
    }
    assert_eq!(Lba(9).to_string(), "block 9");
}

#[test]
fn metadata_is_the_first_matching_entry_of_the_listing() {
    for mut fat in volumes() {
        for dir in ["", "/overlays"] {
            let listed = fat.read_dir(if dir.is_empty() { "/" } else { dir }).unwrap();
            for entry in &listed {
                for end in ["", "/", "//"] {
                    let path = format!("{}/{}{}", dir, entry.name, end);
                    assert_eq!(&fat.metadata(&path).unwrap(), entry);
                    assert_eq!(&fat.metadata(&path.to_uppercase()).unwrap(), entry);
                }
            }
            assert!(matches!(fat.metadata(&format!("{}/nothing here", dir)), Err(FatError::NotFound)));
        }
        assert!(matches!(fat.metadata("/"), Err(FatError::NotFound)));
    }
}

#[test]
fn written_files_are_listed_once_and_read_in_any_case() {
    for mut fat in volumes() {
        let data = bytes(1300, 5);
        fat.write_file("/overlays/Some Long Name.dat", &data).unwrap();
        fat.write_file("/OVERLAYS/some long name.DAT", &data).unwrap();
        let listed = fat.read_dir("/overlays").unwrap();
        assert_eq!(names(&listed), ["README", "Some Long Name.dat"]);
        assert_eq!(fat.read_file("/overlays/SOME LONG NAME.DAT").unwrap(), data);
        assert_eq!(fat.metadata("/overlays/some long name.dat").unwrap().size, 1300);
    }
}

#[test]
fn changes_keep_the_rest_of_every_listing() {
    for mut fat in volumes() {
        let root = fat.read_dir("/").unwrap();
        let before = fat.free_clusters().unwrap();
        fat.write_file("/overlays/new", &bytes(700, 1)).unwrap();
        assert_eq!(fat.read_dir("/").unwrap(), root);
        assert_eq!(fat.free_clusters().unwrap(), before - 2);
        // Replaced: the same names in the same order, and the old clusters come back.
        fat.write_file("/config.txt", &bytes(1500, 2)).unwrap();
        let replaced = fat.read_dir("/").unwrap();
        assert_eq!(names(&replaced), names(&root));
        assert_eq!(replaced[0].size, 1500);
        assert_eq!(replaced[1..], root[1..]);
        assert_eq!(fat.free_clusters().unwrap(), before - 2 + 1 - 3);
        // Removed: all the others, in their order.
        fat.remove("/config.txt").unwrap();
        assert_eq!(fat.read_dir("/").unwrap(), root[1..]);
        assert_eq!(fat.free_clusters().unwrap(), before - 2 + 1);
        assert_eq!(names(&fat.read_dir("/overlays").unwrap()), ["README", "new"]);
    }
}

#[test]
fn long_names_are_stored_in_numbered_pieces() {
    let name = "a name of just thirty-one units";
    assert_eq!(name.len(), 31);
    for mut fat in volumes() {
        fat.create_dir("/d").unwrap();
        fat.write_file(&format!("/d/{}", name), b"x").unwrap();
        assert_eq!(slots(&mut fat, "/d", name), 3 + 1);
        let dir = fat.find_dir("/d").unwrap();
        let image = fat.load_dir(dir).unwrap();
        // After "." and "..": three pieces, last first, and the entry with the alias.
        let slot = |i: usize| &image.bytes[i * DIR_ENTRY_SIZE..(i + 1) * DIR_ENTRY_SIZE];
        let short: [u8; 11] = slot(5)[..11].try_into().unwrap();
        assert_eq!([slot(2)[0], slot(3)[0], slot(4)[0]], [0x43, 2, 1]);
        for i in 2..5 {
            assert_eq!(slot(i)[11], 0x0F);
            assert_eq!(slot(i)[13], short_name_checksum(&short));
        }
        assert_eq!(names(&fat.read_dir("/d").unwrap()), [name]);
    }
}

#[test]
fn changes_follow_each_other() {
    for mut fat in volumes() {
        fat.create_dir("/work").unwrap();
        let mut kept = Vec::new();
        for round in 0..20u8 {
            let path = format!("/work/Result number {}.txt", round);
            let data = bytes(100 * round as usize, round);
            fat.write_file(&path, &data).unwrap();
            kept.push((path, data));
            if round % 5 == 4 {
                let (path, _) = kept.remove(1);
                fat.remove(&path).unwrap();
            }
            if round % 3 == 2 {
                kept[0].1 = bytes(50 * round as usize, 9);
                fat.write_file(&kept[0].0, &kept[0].1).unwrap();
            }
            for (path, data) in &kept {
                assert_eq!(&fat.read_file(path).unwrap(), data);
            }
        }
        for (path, _) in &kept {
            fat.remove(path).unwrap();
        }
        fat.remove("/work").unwrap();
        assert!(matches!(fat.metadata("/work"), Err(FatError::NotFound)));
    }
}

#[test]
fn results_that_need_no_device_come_without_one() {
    let disk = sample(FatType::Fat16, false).0.into_device();
    let mut fat = Fat::mount(FailingDisk { disk, left: 100 }, Lba(2048)).unwrap();
    fat.device.left = 0;
    assert!(matches!(fat.write_file("/a?b", b"x"), Err(FatError::InvalidName)));
    assert!(matches!(fat.create_dir("/.."), Err(FatError::InvalidName)));
    assert!(matches!(fat.metadata("/"), Err(FatError::NotFound)));
    assert!(matches!(fat.read_file("//"), Err(FatError::NotFound)));
    assert!(matches!(fat.metadata("/config.txt"), Err(FatError::Device("card gone"))));
}

#[test]
fn device_errors_become_volume_errors() {
    assert!(matches!(FatError::from("card gone"), FatError::Device("card gone")));
}

/// A disk that can't be written at one block; once that was tried, its FAT reads as damaged.
struct TornDisk {
    disk: MemoryDisk,
    broken: Option<Lba>,
    fat: std::ops::Range<u64>,
    torn: bool,
}

impl BlockDevice for TornDisk {
    type Error = &'static str;

    fn read_block(&mut self, lba: Lba, block: &mut [u8; BLOCK_SIZE]) -> Result<(), &'static str> {
        self.disk.read_block(lba, block).map_err(|_| "never")?;
        if self.torn && self.fat.contains(&lba.0) {
            for entry in block.chunks_exact_mut(2) {
                entry.copy_from_slice(&1u16.to_le_bytes());
            }
        }
        Ok(())
    }
}

impl WritableBlockDevice for TornDisk {
    fn write_block(&mut self, lba: Lba, block: &[u8; BLOCK_SIZE]) -> Result<(), &'static str> {
        if self.broken == Some(lba) {
            self.torn = true;
            return Err("bad block");
        }
        self.disk.write_block(lba, block).map_err(|_| "never")
    }
}

#[test]
fn what_giving_back_a_chain_finds_is_told() {
    let (sound, _) = sample(FatType::Fat16, false);
    let (fat_start, fat_size) = (sound.layout.fat_start, sound.layout.fat_size);
    let root = match sound.layout.root {
        RootDir::Fixed { start, .. } => start,
        RootDir::Chain(_) => unreachable!(),
    };
    let disk = TornDisk {
        disk: sound.into_device(),
        broken: Some(Lba(2048 + root)),
        fat: 2048 + fat_start..2048 + fat_start + fat_size,
        torn: false,
    };
    let mut fat = Fat::mount(disk, Lba(2048)).unwrap();
    // One cluster: its FAT sector is still at hand, and only the device's error is there.
    assert!(matches!(fat.write_file("/new", &bytes(512, 1)), Err(FatError::Device("bad block"))));
    fat.device.torn = false;
    // Clusters in two FAT sectors: the first one is read again, and found to be damaged.
    assert!(matches!(fat.write_file("/new", &bytes(400 * 512, 1)), Err(FatError::BadCluster(1))));
}

#[test]
fn replacing_keeps_all_but_the_pointer_of_an_entry() {
    for mut fat in volumes() {
        let name = "a longer name to keep.txt";
        let path = format!("/{}", name);
        fat.write_file(&path, b"first").unwrap();
        let dir = fat.find_dir("/").unwrap();
        let before = fat.load_dir(dir).unwrap().bytes;
        fat.set_time(DateTime::from_unix(1_790_000_000));
        fat.write_file("/A LONGER name to keep.TXT", &bytes(900, 4)).unwrap();
        let after = fat.load_dir(dir).unwrap().bytes;
        let located = parse_located(&after, fat.fat_type());
        let slot = located.iter().find(|l| l.entry.name == name).unwrap().slot;
        let pointer = slot * DIR_ENTRY_SIZE + 20..(slot + 1) * DIR_ENTRY_SIZE;
        assert_eq!(after.len(), before.len());
        for i in 0..after.len() {
            assert!(after[i] == before[i] || pointer.contains(&i), "{}", i);
        }
        assert_eq!(u32_at(&after, slot * DIR_ENTRY_SIZE + 28), 900);
    }
}

#[test]
fn removing_says_what_it_finds() {
    for mut fat in volumes() {
        let free = fat.free_clusters().unwrap();
        let root = fat.read_dir("/").unwrap();
        for missing in ["/nothing", "/no?name", "/\u{FFFF}"] {
            assert!(matches!(fat.remove(missing), Err(FatError::NotFound)));
        }
        assert!(matches!(fat.remove("/overlays"), Err(FatError::NotEmpty)));
        assert_eq!(fat.free_clusters().unwrap(), free);
        assert_eq!(fat.read_dir("/").unwrap(), root);
        fat.remove("/overlays/readme").unwrap();
        assert_eq!(fat.free_clusters().unwrap(), free + 1);
        let dir = fat.find_dir("/overlays").unwrap();
        let sectors = fat.load_dir(dir).unwrap().sectors.len() as u32; // of one cluster each
        fat.remove("/OVERLAYS").unwrap();
        assert_eq!(fat.free_clusters().unwrap(), free + 1 + sectors);
        assert!(matches!(fat.metadata("/overlays"), Err(FatError::NotFound)));
    }
}

#[test]
fn names_that_could_not_be_written_can_be_removed() {
    let mut image = Image::new(FatType::Fat16, 2048);
    let root = image.root();
    image.add_file(root, "odd: name?.txt", b"written elsewhere");
    image.add_file(root, "STAYS", b"here");
    let mut fat = Fat::mount(image.finish(), Lba(2048)).unwrap();
    let free = fat.free_clusters().unwrap();
    assert!(matches!(fat.write_file("/odd: name?.txt", b"x"), Err(FatError::InvalidName)));
    assert_eq!(fat.read_file("/odd: name?.txt").unwrap(), b"written elsewhere");
    fat.remove("/ODD: NAME?.TXT").unwrap();
    assert!(matches!(fat.metadata("/odd: name?.txt"), Err(FatError::NotFound)));
    assert_eq!(fat.free_clusters().unwrap(), free + 1);
    assert_eq!(fat.read_file("/stays").unwrap(), b"here");
}
