use rustypi::block::{Block, Lba, BLOCK_SIZE};
use rustypi::mbr::{find_fat_volume, Partition, PartitionType, Volume};

fn mbr(entries: &[(usize, u8, u32, u32)]) -> Block {
    let mut block = [0; BLOCK_SIZE];
    for &(i, kind, start, blocks) in entries {
        let e = &mut block[446 + i * 16..446 + (i + 1) * 16];
        e[4] = kind;
        e[8..12].copy_from_slice(&start.to_le_bytes());
        e[12..16].copy_from_slice(&blocks.to_le_bytes());
    }
    block[510] = 0x55;
    block[511] = 0xAA;
    block
}

#[test]
fn finds_the_first_fat_partition() {
    // A Linux partition first, then FAT32 LBA, like a Raspberry Pi OS card reversed.
    let block = mbr(&[(0, 0x83, 2048, 1000), (1, 0x0C, 8192, 500_000)]);
    let volume = find_fat_volume(&block).unwrap();
    assert_eq!(volume, Volume::Partition {
        index: 1,
        partition: Partition { kind: PartitionType(0x0C), start: Lba(8192), blocks: 500_000 },
    });
    assert_eq!(volume.start(), Lba(8192));
}

#[test]
fn no_signature_or_no_fat_partition_is_none() {
    let mut block = mbr(&[(0, 0x0C, 2048, 1000)]);
    block[511] = 0;
    assert_eq!(find_fat_volume(&block), None);
    assert_eq!(find_fat_volume(&mbr(&[(0, 0x83, 2048, 1000)])), None);
}

#[test]
fn a_fat_boot_sector_at_block_0_is_the_whole_disk() {
    let mut block = mbr(&[]);
    block[0] = 0xEB;
    block[11..13].copy_from_slice(&512u16.to_le_bytes());
    block[13] = 8;
    block[16] = 2;
    assert_eq!(find_fat_volume(&block), Some(Volume::WholeDisk));
}
