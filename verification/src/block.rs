//! Block devices: storage read and written in fixed 512-byte blocks, like an SD card.

use crate::text::push_decimal;
use std::collections::BTreeMap;
use vstd::prelude::*;

verus! {

pub const BLOCK_SIZE: usize = 512;

pub type Block = [u8; BLOCK_SIZE];

/// A block number (logical block address). A distinct type so block numbers can't be mixed
/// up with byte offsets, which some SD cards use on the wire.
#[derive(Clone, Copy, Debug, PartialEq, Eq, PartialOrd, Ord, Hash, Structural)]
pub struct Lba(pub u64);

impl Lba {
    /// The block `blocks` further on.
    pub fn offset(self, blocks: u64) -> (r: Lba)
        requires
            self.0 + blocks <= u64::MAX,
        ensures
            r.0 == self.0 + blocks,
    {
        Lba(self.0 + blocks)
    }

    /// The words it is shown with.
    pub fn to_string(self) -> (r: String)
        ensures
            r@ == "block "@ + crate::text::decimal(self.0 as nat),
    {
        let mut out = "block ".to_owned();
        push_decimal(&mut out, self.0);
        out
    }
}

pub trait BlockDevice {
    type Error;

    /// What every block holds.
    open spec fn disk(&self) -> Map<u64, Seq<u8>> {
        Map::empty()
    }

    /// What the disk held after each write, the oldest first: what it holds if the power is
    /// cut.
    open spec fn past(&self) -> Seq<Map<u64, Seq<u8>>> {
        Seq::empty()
    }

    /// How many commands failed so far: 0 for a device that never fails.
    open spec fn failures(&self) -> nat {
        0
    }

    /// How many blocks were read so far, on a device that counts them.
    open spec fn blocks_read(&self) -> nat {
        0
    }

    fn read_block(&mut self, lba: Lba, block: &mut Block) -> (r: Result<(), Self::Error>)
        ensures
            (*final(self)).disk() == (*old(self)).disk(),
            (*final(self)).past() == (*old(self)).past(),
            (*final(self)).blocks_read() <= (*old(self)).blocks_read() + 1,
            r is Ok ==> (*final(self)).failures() == (*old(self)).failures(),
            r is Err ==> (*final(self)).failures() > (*old(self)).failures(),
            r is Ok ==> final(block)@ == (*old(self)).disk()[lba.0],
    ;

    /// Reads consecutive blocks from `lba` on. Devices that can do it in one go (an SD card's
    /// multi-block read) override this; the default reads them one at a time.
    fn read_blocks(&mut self, lba: Lba, blocks: &mut [Block]) -> (r: Result<(), Self::Error>)
        requires
            lba.0 + old(blocks)@.len() <= u64::MAX,
        ensures
            (*final(self)).disk() == (*old(self)).disk(),
            (*final(self)).past() == (*old(self)).past(),
            (*final(self)).blocks_read() <= (*old(self)).blocks_read() + old(blocks)@.len(),
            r is Ok ==> (*final(self)).failures() == (*old(self)).failures(),
            r is Err ==> (*final(self)).failures() > (*old(self)).failures(),
            final(blocks)@.len() == old(blocks)@.len(),
            r is Ok ==> forall|i: int|
                0 <= i < old(blocks)@.len() ==> (#[trigger] final(blocks)@[i])@
                    == (*old(self)).disk()[(lba.0 + i) as u64],
    {
        let mut i: usize = 0;
        while i < blocks.len()
            invariant
                i <= blocks@.len(),
                blocks@.len() == old(blocks)@.len(),
                lba.0 + old(blocks)@.len() <= u64::MAX,
                (*self).disk() == (*old(self)).disk(),
                (*self).past() == (*old(self)).past(),
                (*self).blocks_read() <= (*old(self)).blocks_read() + i,
                (*self).failures() == (*old(self)).failures(),
                forall|k: int|
                    0 <= k < i ==> (#[trigger] blocks@[k])@ == (*old(self)).disk()[(lba.0
                        + k) as u64],
            decreases blocks@.len() - i,
        {
            self.read_block(lba.offset(i as u64), &mut blocks[i])?;
            i += 1;
        }
        Ok(())
    }
}

impl<D: BlockDevice + ?Sized> BlockDevice for &mut D {
    type Error = D::Error;

    open spec fn disk(&self) -> Map<u64, Seq<u8>> {
        (**self).disk()
    }

    open spec fn past(&self) -> Seq<Map<u64, Seq<u8>>> {
        (**self).past()
    }

    open spec fn failures(&self) -> nat {
        (**self).failures()
    }

    open spec fn blocks_read(&self) -> nat {
        (**self).blocks_read()
    }

    fn read_block(&mut self, lba: Lba, block: &mut Block) -> (r: Result<(), Self::Error>) {
        (**self).read_block(lba, block)
    }

    fn read_blocks(&mut self, lba: Lba, blocks: &mut [Block]) -> (r: Result<(), Self::Error>) {
        (**self).read_blocks(lba, blocks)
    }
}

/// A block device that can be written, too.
pub trait WritableBlockDevice: BlockDevice {
    /// If it fails, it is unknown what the block holds; other blocks are as they were.
    fn write_block(&mut self, lba: Lba, block: &Block) -> (r: Result<(), Self::Error>)
        ensures
            r is Ok ==> (*final(self)).disk() == (*old(self)).disk().insert(lba.0, block@),
            r is Ok ==> (*final(self)).past() == (*old(self)).past().push((*final(self)).disk()),
            r is Ok ==> (*final(self)).failures() == (*old(self)).failures(),
            r is Err ==> (*final(self)).failures() > (*old(self)).failures(),
            forall|l: u64|
                l != lba.0 ==> #[trigger] (*final(self)).disk()[l] == (*old(self)).disk()[l],
    ;

    /// Writes consecutive blocks from `lba` on. Devices that can do it in one go override this;
    /// the default writes them one at a time. If it fails, it is unknown what these blocks
    /// hold.
    fn write_blocks(&mut self, lba: Lba, blocks: &[Block]) -> (r: Result<(), Self::Error>)
        requires
            lba.0 + blocks@.len() <= u64::MAX,
        ensures
            r is Ok ==> (*final(self)).failures() == (*old(self)).failures(),
            r is Err ==> (*final(self)).failures() > (*old(self)).failures(),
            r is Ok ==> (*final(self)).disk() == blocks_written(
                (*old(self)).disk(),
                lba.0,
                blocks@,
            ),
            r is Ok ==> went_through(
                (*old(self)).past(),
                (*final(self)).past(),
                (*old(self)).disk(),
                lba.0,
                blocks@.len(),
            ),
            forall|l: u64|
                !(lba.0 <= l < lba.0 + blocks@.len()) ==> #[trigger] (*final(self)).disk()[l]
                    == (*old(self)).disk()[l],
    {
        let mut i: usize = 0;
        assert(blocks@.subrange(0, 0) =~= Seq::<Block>::empty());
        assert((*self).past().subrange(0, (*self).past().len() as int) =~= (*self).past());
        while i < blocks.len()
            invariant
                i <= blocks@.len(),
                lba.0 + blocks@.len() <= u64::MAX,
                (*self).failures() == (*old(self)).failures(),
                (*self).disk() == blocks_written(
                    (*old(self)).disk(),
                    lba.0,
                    blocks@.subrange(0, i as int),
                ),
                went_through(
                    (*old(self)).past(),
                    (*self).past(),
                    (*old(self)).disk(),
                    lba.0,
                    blocks@.len(),
                ),
                forall|l: u64|
                    !(lba.0 <= l < lba.0 + blocks@.len()) ==> #[trigger] (*self).disk()[l]
                        == (*old(self)).disk()[l],
                forall|l: u64| #[trigger]
                    (*self).disk()[l] == (*old(self)).disk()[l] || (*self).disk()[l].len()
                        == BLOCK_SIZE,
            decreases blocks@.len() - i,
        {
            let ghost past = (*self).past();
            self.write_block(lba.offset(i as u64), &blocks[i])?;
            i += 1;
            proof {
                assert((*self).past().subrange(0, (*old(self)).past().len() as int) =~= past.subrange(
                    0,
                    (*old(self)).past().len() as int,
                ));
                assert(blocks@.subrange(0, i as int).drop_last() =~= blocks@.subrange(0, i - 1));
            }
        }
        assert(blocks@.subrange(0, i as int) =~= blocks@);
        Ok(())
    }
}

/// A block of zeros.
pub fn zero_block() -> (r: Block)
    ensures
        r@ == crate::bytes::zeros(BLOCK_SIZE as nat),
{
    let r = [0u8;BLOCK_SIZE];
    assert forall|i: int| 0 <= i < 512 implies #[trigger] r@[i] == 0 by {
        assert(vstd::array::spec_array_fill_for_copy_type::<u8, BLOCK_SIZE>(0u8)@[i] == 0u8);
    }
    assert(r@ =~= crate::bytes::zeros(BLOCK_SIZE as nat));
    r
}

/// Whether what a disk held has gone on from `before` to `after` without a block changing but
/// the `count` from `lba` on, which are blocks still.
pub open spec fn went_through(
    before: Seq<Map<u64, Seq<u8>>>,
    after: Seq<Map<u64, Seq<u8>>>,
    disk: Map<u64, Seq<u8>>,
    lba: u64,
    count: nat,
) -> bool {
    &&& before.len() <= after.len()
    &&& after.subrange(0, before.len() as int) == before
    &&& forall|i: int, l: u64|
        before.len() <= i < after.len() ==> #[trigger] after[i][l] == disk[l] || (lba <= l < lba
            + count && after[i][l].len() == BLOCK_SIZE)
}

/// What a disk holds after `blocks` were written from `lba` on.
pub open spec fn blocks_written(disk: Map<u64, Seq<u8>>, lba: u64, blocks: Seq<Block>) -> Map<
    u64,
    Seq<u8>,
>
    decreases blocks.len(),
{
    if blocks.len() == 0 {
        disk
    } else {
        blocks_written(disk, lba, blocks.drop_last()).insert(
            (lba + blocks.len() - 1) as u64,
            blocks.last()@,
        )
    }
}

/// A disk in memory: blocks never written read as zeros.
pub struct MemoryDisk {
    blocks: BTreeMap<u64, Block>,
    /// Blocks read.
    pub reads: usize,
    /// Read commands: a multi-block read is one.
    pub commands: usize,
    /// What it held after each write.
    past: Ghost<Seq<Map<u64, Seq<u8>>>>,
    /// How many blocks were read, however many.
    count: Ghost<nat>,
}

/// What reading from a disk in memory can go wrong with: nothing.
#[derive(Clone, Copy, Debug, PartialEq, Eq, Structural)]
pub struct NeverFails;

impl MemoryDisk {
    pub fn new() -> (r: Self)
        ensures
            forall|l: u64| #[trigger] r.disk()[l] == crate::bytes::zeros(BLOCK_SIZE as nat),
    {
        let r = MemoryDisk {
            blocks: BTreeMap::new(),
            reads: 0,
            commands: 0,
            past: Ghost(Seq::empty()),
            count: Ghost(0),
        };
        r
    }

    /// The block at `lba`.
    fn block(&self, lba: u64) -> (r: Block)
        ensures
            r@ == (*self).disk()[lba],
    {
        match self.blocks.get(&lba) {
            Some(block) => *block,
            None => zero_block(),
        }
    }

    /// Puts `bytes` on the disk, from byte `offset` of block `lba` on.
    pub fn write(&mut self, lba: u64, offset: usize, bytes: &[u8])
        requires
            lba + (offset + bytes@.len()) / 512 < u64::MAX,
            offset + bytes@.len() <= usize::MAX,
        ensures
            forall|l: u64, i: int|
                0 <= i < BLOCK_SIZE ==> #[trigger] (*final(self)).disk()[l][i] == ({
                    let at = (l - lba) * BLOCK_SIZE + i - offset;
                    if 0 <= at < bytes@.len() {
                        bytes@[at]
                    } else {
                        (*old(self)).disk()[l][i]
                    }
                }),
    {
        let mut done: usize = 0;
        while done < bytes.len()
            invariant
                done <= bytes@.len(),
                lba + (offset + bytes@.len()) / 512 < u64::MAX,
                offset + bytes@.len() <= usize::MAX,
                forall|l: u64, i: int| #![trigger (*self).disk()[l][i]]
                    0 <= i < BLOCK_SIZE ==> (*self).disk()[l][i] == ({
                        let at = (l - lba) * BLOCK_SIZE + i - offset;
                        if 0 <= at < done {
                            bytes@[at]
                        } else {
                            (*old(self)).disk()[l][i]
                        }
                    }),
            decreases bytes@.len() - done,
        {
            let target: u64 = lba + ((offset + done) / BLOCK_SIZE) as u64;
            let within: usize = (offset + done) % BLOCK_SIZE;
            let ghost before = (*self).disk();
            let mut block = self.block(target);
            block[within] = bytes[done];
            self.blocks.insert(target, block);
            proof {
                assert((*self).disk() =~= before.insert(target, block@));
                assert forall|l: u64, i: int| #![trigger (*self).disk()[l][i]]
                    0 <= i < BLOCK_SIZE implies (*self).disk()[l][i] == ({
                    let at = (l - lba) * BLOCK_SIZE + i - offset;
                    if 0 <= at < done + 1 {
                        bytes@[at]
                    } else {
                        (*old(self)).disk()[l][i]
                    }
                }) by {
                    let at = (l - lba) * BLOCK_SIZE + i - offset;
                    assert((l == target && i == within) <==> at == done);
                    assert(before[l][i] == before[l][i]);
                }
            }
            done += 1;
        }
    }
}

impl Default for MemoryDisk {
    fn default() -> (r: Self)
        ensures
            forall|l: u64| #[trigger] r.disk()[l] == crate::bytes::zeros(BLOCK_SIZE as nat),
    {
        MemoryDisk::new()
    }
}

impl BlockDevice for MemoryDisk {
    type Error = NeverFails;

    closed spec fn disk(&self) -> Map<u64, Seq<u8>> {
        Map::new(
            |l: u64| true,
            |l: u64|
                if self.blocks@.contains_key(l) {
                    self.blocks@[l]@
                } else {
                    crate::bytes::zeros(BLOCK_SIZE as nat)
                },
        )
    }

    closed spec fn past(&self) -> Seq<Map<u64, Seq<u8>>> {
        self.past@
    }

    closed spec fn blocks_read(&self) -> nat {
        self.count@
    }

    fn read_block(&mut self, lba: Lba, block: &mut Block) -> (r: Result<(), Self::Error>)
        ensures
            r is Ok,
            (*final(self)).blocks_read() == (*old(self)).blocks_read() + 1,
    {
        self.commands = self.commands.wrapping_add(1);
        self.reads = self.reads.wrapping_add(1);
        proof {
            self.count@ = self.count@ + 1;
        }
        *block = self.block(lba.0);
        Ok(())
    }

    fn read_blocks(&mut self, lba: Lba, blocks: &mut [Block]) -> (r: Result<(), Self::Error>)
        ensures
            r is Ok,
            (*final(self)).blocks_read() == (*old(self)).blocks_read() + old(blocks)@.len(),
    {
        self.commands = self.commands.wrapping_add(1);
        let mut i: usize = 0;
        while i < blocks.len()
            invariant
                i <= blocks@.len(),
                blocks@.len() == old(blocks)@.len(),
                lba.0 + old(blocks)@.len() <= u64::MAX,
                (*self).disk() == (*old(self)).disk(),
                (*self).past() == (*old(self)).past(),
                (*self).blocks_read() == (*old(self)).blocks_read() + i,
                forall|k: int|
                    0 <= k < i ==> (#[trigger] blocks@[k])@ == (*old(self)).disk()[(lba.0
                        + k) as u64],
            decreases blocks@.len() - i,
        {
            self.reads = self.reads.wrapping_add(1);
            proof {
                self.count@ = self.count@ + 1;
            }
            blocks[i] = self.block(lba.0 + i as u64);
            i += 1;
        }
        Ok(())
    }
}

impl WritableBlockDevice for MemoryDisk {
    fn write_block(&mut self, lba: Lba, block: &Block) -> (r: Result<(), Self::Error>)
        ensures
            r is Ok,
    {
        self.blocks.insert(lba.0, *block);
        assert((*self).disk() =~= (*old(self)).disk().insert(lba.0, block@));
        proof {
            self.past@ = self.past@.push((*self).disk());
        }
        Ok(())
    }
}

} // verus!
