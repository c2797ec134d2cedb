//! Finding the FAT volume on a disk: through an MBR partition table, or directly at block 0
//! for disks formatted without one ("superfloppy").

use crate::block::{Block, Lba};
use crate::bytes;
use vstd::prelude::*;

verus! {

/// The partition type byte from an MBR entry.
#[derive(Clone, Copy, Debug, PartialEq, Eq, Structural)]
pub struct PartitionType(pub u8);

impl PartitionType {
    pub open spec fn fat(self) -> bool {
        self.0 == 0x04 || self.0 == 0x06 || self.0 == 0x0B || self.0 == 0x0C || self.0 == 0x0E
    }

    /// FAT16 and FAT32 types, with CHS or LBA addressing.
    pub fn is_fat(self) -> (r: bool)
        ensures
            r == self.fat(),
    {
        self.0 == 0x04 || self.0 == 0x06 || self.0 == 0x0B || self.0 == 0x0C || self.0 == 0x0E
    }
}

#[derive(Clone, Copy, Debug, PartialEq, Eq, Structural)]
pub struct Partition {
    pub kind: PartitionType,
    pub start: Lba,
    pub blocks: u32,
}

/// Where the FAT volume starts, and the partition it is in, if any.
#[derive(Clone, Copy, Debug, PartialEq, Eq, Structural)]
pub enum Volume {
    Partition { index: usize, partition: Partition },
    /// No partition table; the whole disk is one volume.
    WholeDisk,
}

impl Volume {
    pub fn start(&self) -> (r: Lba)
        ensures
            r == match *self {
                Volume::Partition { partition, .. } => partition.start,
                Volume::WholeDisk => Lba(0),
            },
    {
        match self {
            Volume::Partition { partition, .. } => partition.start,
            Volume::WholeDisk => Lba(0),
        }
    }
}

pub open spec fn boot_signature(block: Seq<u8>) -> bool {
    block[510] == 0x55 && block[511] == 0xAA
}

/// Whether `n` is a power of two that a byte can hold.
pub open spec fn byte_power_of_two(n: u8) -> bool {
    n == 1 || n == 2 || n == 4 || n == 8 || n == 16 || n == 32 || n == 64 || n == 128
}

fn has_boot_signature(block: &Block) -> (r: bool)
    ensures
        r == boot_signature(block@),
{
    block[510] == 0x55 && block[511] == 0xAA
}

/// A jump instruction, 512 bytes per sector, a power-of-two cluster size and at least one FAT.
pub open spec fn fat_boot_sector(block: Seq<u8>) -> bool {
    &&& block[0] == 0xEB || block[0] == 0xE9
    &&& boot_signature(block)
    &&& bytes::le16(block, 11) == 512
    &&& byte_power_of_two(block[13])
    &&& block[16] > 0
}

/// Whether `block` looks like a FAT boot sector: a jump instruction, 512 bytes per sector,
/// a power-of-two cluster size and at least one FAT.
pub fn is_fat_boot_sector(block: &Block) -> (r: bool)
    ensures
        r == fat_boot_sector(block@),
{
    let jump = block[0] == 0xEB || block[0] == 0xE9;
    let per_cluster = block[13];
    jump && has_boot_signature(block) && bytes::le16_at(block, 11) == 512 && (per_cluster == 1
        || per_cluster == 2 || per_cluster == 4 || per_cluster == 8 || per_cluster == 16
        || per_cluster == 32 || per_cluster == 64 || per_cluster == 128) && block[16] > 0
}

/// What slot `i` of an MBR's partition table says.
pub open spec fn partition_in(block: Seq<u8>, i: int) -> Option<Partition> {
    let at = 446 + i * 16;
    let blocks = bytes::le32(block, at + 12);
    if block[at + 4] != 0 && blocks != 0 {
        Some(
            Partition {
                kind: PartitionType(block[at + 4]),
                start: Lba(bytes::le32(block, at + 8) as u64),
                blocks,
            },
        )
    } else {
        None
    }
}

fn read_partition(block: &Block, i: usize) -> (r: Option<Partition>)
    requires
        i < 4,
    ensures
        r == partition_in(block@, i as int),
{
    let at: usize = 446 + i * 16;
    let kind = PartitionType(block[at + 4]);
    let start = bytes::le32_at(block, at + 8);
    let blocks = bytes::le32_at(block, at + 12);
    if kind.0 != 0 && blocks != 0 {
        Some(Partition { kind, start: Lba(start as u64), blocks })
    } else {
        None
    }
}

/// The four primary partitions of an MBR, `None` for empty slots. Returns `None` if `block`
/// has no MBR signature.
pub fn partitions(block: &Block) -> (r: Option<[Option<Partition>; 4]>)
    ensures
        r is Some <==> boot_signature(block@),
        r matches Some(found) ==> forall|i: int|
            0 <= i < 4 ==> #[trigger] found@[i] == partition_in(block@, i),
{
    if !has_boot_signature(block) {
        return None;
    }
    Some(
        [
            read_partition(block, 0),
            read_partition(block, 1),
            read_partition(block, 2),
            read_partition(block, 3),
        ],
    )
}

/// Whether slot `i` holds a FAT partition.
pub open spec fn is_fat_slot(block: Seq<u8>, i: int) -> bool {
    partition_in(block, i) matches Some(partition) && partition.kind.fat()
}

/// Block 0 itself if it is a FAT boot sector, otherwise the first FAT partition in its MBR.
pub open spec fn fat_volume(block: Seq<u8>) -> Option<Volume> {
    if fat_boot_sector(block) {
        Some(Volume::WholeDisk)
    } else if !boot_signature(block) {
        None
    } else if is_fat_slot(block, 0) {
        Some(Volume::Partition { index: 0, partition: partition_in(block, 0)->0 })
    } else if is_fat_slot(block, 1) {
        Some(Volume::Partition { index: 1, partition: partition_in(block, 1)->0 })
    } else if is_fat_slot(block, 2) {
        Some(Volume::Partition { index: 2, partition: partition_in(block, 2)->0 })
    } else if is_fat_slot(block, 3) {
        Some(Volume::Partition { index: 3, partition: partition_in(block, 3)->0 })
    } else {
        None
    }
}

/// Finds the FAT volume given the disk's first block: block 0 itself if it is a FAT boot
/// sector, otherwise the first FAT partition in its MBR.
pub fn find_fat_volume(block0: &Block) -> (r: Option<Volume>)
    ensures
        r == fat_volume(block0@),
{
    if is_fat_boot_sector(block0) {
        return Some(Volume::WholeDisk);
    }
    let table = partitions(block0)?;
    let mut index: usize = 0;
    while index < 4
        invariant
            index <= 4,
            !fat_boot_sector(block0@),
            boot_signature(block0@),
            forall|i: int| 0 <= i < 4 ==> #[trigger] table@[i] == partition_in(block0@, i),
            forall|i: int| 0 <= i < index ==> !#[trigger] is_fat_slot(block0@, i),
        decreases 4 - index,
    {
        assert(table@[index as int] == partition_in(block0@, index as int));
        if let Some(partition) = table[index] {
            if partition.kind.is_fat() {
                assert(is_fat_slot(block0@, index as int));
                return Some(Volume::Partition { index, partition });
            }
        }
        assert(!is_fat_slot(block0@, index as int));
        index += 1;
    }
    None
}

/// What the table says of partition `i`: its type and where it starts and how many blocks it has,
/// the low bytes first.
pub open spec fn type_in(block: Seq<u8>, i: int) -> u8 {
    block[450 + 16 * i]
}

pub open spec fn start_in(block: Seq<u8>, i: int) -> int {
    let at = 454 + 16 * i;
    block[at] + 256 * block[at + 1] + 65536 * block[at + 2] + 16777216 * block[at + 3]
}

pub open spec fn blocks_in(block: Seq<u8>, i: int) -> int {
    let at = 458 + 16 * i;
    block[at] + 256 * block[at + 1] + 65536 * block[at + 2] + 16777216 * block[at + 3]
}

/// Whether partition `i` is there, and of one of the types of FAT16 and FAT32 volumes.
pub open spec fn is_fat_partition(block: Seq<u8>, i: int) -> bool {
    let kind = type_in(block, i);
    (kind == 4 || kind == 6 || kind == 11 || kind == 12 || kind == 14) && blocks_in(block, i) != 0
}

/// Whether a block is a FAT volume's own boot sector: it starts with a jump, and says that there
/// are 512 bytes in a sector, a power of two of these in a cluster, and a FAT.
pub open spec fn starts_a_volume(block: Seq<u8>) -> bool {
    &&& block[0] == 235 || block[0] == 233
    &&& block[11] == 0 && block[12] == 2
    &&& exists|n: nat| n < 8 && block[13] == #[trigger] vstd::arithmetic::power2::pow2(n)
    &&& block[16] != 0
}

/// The volume on a disk: the whole disk where its first block is a FAT volume's boot sector, else
/// the first FAT partition in the table there, with its start and size. Without the
/// signature 0x55 0xAA at its end a block is neither.
pub proof fn the_first_fat_partition_is_found(block: Seq<u8>, i: int)
    requires
        block.len() == 512,
        0 <= i < 4,
    ensures
        block[510] != 0x55 || block[511] != 0xAA ==> fat_volume(block) is None,
        block[510] == 0x55 && block[511] == 0xAA && starts_a_volume(block) ==> fat_volume(block)
            == Some(Volume::WholeDisk),
        block[510] == 0x55 && block[511] == 0xAA && !starts_a_volume(block) && is_fat_partition(
            block,
            i,
        ) && (forall|j: int| 0 <= j < i ==> !#[trigger] is_fat_partition(block, j)) ==> fat_volume(
            block,
        ) == Some(
            Volume::Partition {
                index: i as usize,
                partition: Partition {
                    kind: PartitionType(type_in(block, i)),
                    start: Lba(start_in(block, i) as u64),
                    blocks: blocks_in(block, i) as u32,
                },
            },
        ),
        block[510] == 0x55 && block[511] == 0xAA && !starts_a_volume(block) && (forall|j: int|
            0 <= j < 4 ==> !#[trigger] is_fat_partition(block, j)) ==> fat_volume(block) is None,
{
    lemma_byte_powers(block[13]);
    assert(fat_boot_sector(block) == (starts_a_volume(block) && boot_signature(block)));
    assert forall|j: int| 0 <= j < 4 implies #[trigger] is_fat_partition(block, j) == is_fat_slot(
        block,
        j,
    ) by {
        assert(bytes::le32(block, 446 + j * 16 + 12) == blocks_in(block, j));
    }
    assert(bytes::le32(block, 446 + i * 16 + 8) == start_in(block, i));
    assert(bytes::le32(block, 446 + i * 16 + 12) == blocks_in(block, i));
    assert(is_fat_partition(block, 0) == is_fat_slot(block, 0));
    assert(is_fat_partition(block, 1) == is_fat_slot(block, 1));
    assert(is_fat_partition(block, 2) == is_fat_slot(block, 2));
    assert(is_fat_partition(block, 3) == is_fat_slot(block, 3));
}

proof fn lemma_byte_powers(n: u8)
    ensures
        byte_power_of_two(n) == exists|k: nat|
            k < 8 && n == #[trigger] vstd::arithmetic::power2::pow2(k),
{
    vstd::arithmetic::power2::lemma2_to64();
    if exists|k: nat| k < 8 && n == #[trigger] vstd::arithmetic::power2::pow2(k) {
        let k = choose|k: nat| k < 8 && n == #[trigger] vstd::arithmetic::power2::pow2(k);
        assert(k == 0 || k == 1 || k == 2 || k == 3 || k == 4 || k == 5 || k == 6 || k == 7);
    }
    if byte_power_of_two(n) {
        assert(n == vstd::arithmetic::power2::pow2(0) || n == vstd::arithmetic::power2::pow2(1) || n
            == vstd::arithmetic::power2::pow2(2) || n == vstd::arithmetic::power2::pow2(3) || n
            == vstd::arithmetic::power2::pow2(4) || n == vstd::arithmetic::power2::pow2(5) || n
            == vstd::arithmetic::power2::pow2(6) || n == vstd::arithmetic::power2::pow2(7));
    }
}

} // verus!
