//! A first-fit free-list heap allocator over a region of memory it is given.
//!
//! Free blocks form a singly linked list sorted by address, with each block's header
//! stored in the free memory itself. Freed blocks are merged with free neighbours, so the
//! heap doesn't fragment into unusable slivers. Allocations carry no header: `dealloc`
//! works the size out again from what was asked for.

use vstd::prelude::*;

verus! {

/// Every block is a multiple of this in size and aligned to it. It is also the smallest
/// block, since a free block has to hold its header.
pub const BLOCK_ALIGN: usize = 16;

/// What a free block starts with: its size in bytes, and where the next free block is (0 if
/// it is the last).
#[derive(Clone, Copy, Debug, PartialEq, Eq, Structural)]
pub struct Header {
    pub size: usize,
    pub next: usize,
}

/// The memory that a heap lies in: what it needs of it is to keep headers in free blocks.
pub trait Memory {
    /// The header at every address.
    open spec fn headers(&self) -> Map<usize, Header> {
        Map::empty()
    }

    /// Whether `address..address + BLOCK_ALIGN` is memory that can be read and written.
    open spec fn usable(&self, address: usize) -> bool {
        false
    }

    fn read(&self, address: usize) -> (r: Header)
        requires
            self.usable(address),
            address % BLOCK_ALIGN == 0,
        ensures
            r == self.headers()[address],
    ;

    fn write(&mut self, address: usize, header: Header)
        requires
            old(self).usable(address),
            address % BLOCK_ALIGN == 0,
        ensures
            final(self).headers() == old(self).headers().insert(address, header),
            forall|a: usize| final(self).usable(a) == old(self).usable(a),
    ;
}

/// Memory from `start` on for `headers.len()` blocks of the smallest size.
pub struct Arena {
    pub start: usize,
    pub blocks: Vec<Header>,
}

impl Arena {
    pub open spec fn wf(&self) -> bool {
        &&& self.start % BLOCK_ALIGN == 0
        &&& self.start + self.blocks@.len() * BLOCK_ALIGN <= usize::MAX
    }

    /// `count` blocks of memory at `start`.
    pub fn new(start: usize, count: usize) -> (r: Self)
        requires
            start % BLOCK_ALIGN == 0,
            start + count * BLOCK_ALIGN <= usize::MAX,
        ensures
            r.start == start,
            r.blocks@.len() == count,
            forall|a: usize|
                start <= a < start + count * BLOCK_ALIGN && a % BLOCK_ALIGN == 0
                    ==> #[trigger] r.usable(a),
    {
        Arena { start, blocks: vec![Header { size: 0, next: 0 }; count] }
    }
}

impl Memory for Arena {
    open spec fn headers(&self) -> Map<usize, Header> {
        Map::new(
            |a: usize| true,
            |a: usize|
                if self.usable(a) && a % BLOCK_ALIGN == 0 {
                    self.blocks@[(a - self.start) / BLOCK_ALIGN as int]
                } else {
                    Header { size: 0, next: 0 }
                },
        )
    }

    open spec fn usable(&self, address: usize) -> bool {
        self.wf() && self.start <= address < self.start + self.blocks@.len() * BLOCK_ALIGN
    }

    fn read(&self, address: usize) -> (r: Header) {
        self.blocks[(address - self.start) / BLOCK_ALIGN]
    }

    fn write(&mut self, address: usize, header: Header) {
        let at: usize = (address - self.start) / BLOCK_ALIGN;
        self.blocks[at] = header;
        proof {
            assert forall|a: usize| true implies (#[trigger] self.headers()[a]) == old(self).headers().insert(address, header)[a] by {
                if self.usable(a) && a % BLOCK_ALIGN == 0 && a != address {
                    assert((a - self.start) / BLOCK_ALIGN as int != at);
                }
            }
            assert(self.headers() =~= old(self).headers().insert(address, header));
        }
    }
}

#[derive(Clone, Copy, Debug, PartialEq, Eq, Structural)]
pub struct Stats {
    pub total: usize,
    pub used: usize,
    pub largest_free: usize,
}

/// A range of memory.
pub struct Block {
    pub start: usize,
    pub size: usize,
}

impl Block {
    pub open spec fn end(self) -> int {
        self.start + self.size
    }

    pub open spec fn wf(self) -> bool {
        &&& self.start > 0
        &&& self.size > 0
        &&& self.start % BLOCK_ALIGN == 0
        &&& self.size % BLOCK_ALIGN == 0
        &&& self.end() <= usize::MAX
    }

    pub open spec fn disjoint(self, other: Block) -> bool {
        self.end() <= other.start || other.end() <= self.start
    }
}

/// `value` rounded up to a multiple of `align`.
pub open spec fn rounded_up(value: int, align: int) -> int {
    (value + align - 1) / align * align
}

/// `value` rounded down to a multiple of `align`.
pub open spec fn rounded_down(value: int, align: int) -> int {
    value / align * align
}

/// The size of the block that `size` bytes are allocated in.
pub open spec fn block_bytes(size: int) -> int {
    rounded_up(
        if size > 0 {
            size
        } else {
            1
        },
        BLOCK_ALIGN as int,
    )
}

/// The larger of the two alignments.
pub open spec fn block_alignment(align: usize) -> int {
    if align > BLOCK_ALIGN {
        align as int
    } else {
        BLOCK_ALIGN as int
    }
}

/// Free blocks in address order, no two of which touch.
pub open spec fn ordered(blocks: Seq<Block>) -> bool {
    &&& forall|i: int| 0 <= i < blocks.len() ==> (#[trigger] blocks[i]).wf()
    &&& forall|i: int, j: int|
        0 <= i < j < blocks.len() ==> (#[trigger] blocks[i]).end() < (#[trigger] blocks[j]).start
}

/// Where free block `i` starts; 0 past the last.
pub open spec fn link(blocks: Seq<Block>, i: int) -> usize {
    if 0 <= i < blocks.len() {
        blocks[i].start
    } else {
        0
    }
}

/// The header of free block `i` says how big it is and where the next one is.
pub open spec fn headed(headers: Map<usize, Header>, blocks: Seq<Block>, i: int) -> bool {
    headers[blocks[i].start] == (Header { size: blocks[i].size, next: link(blocks, i + 1) })
}

/// The free blocks' headers lead from each to the next.
pub open spec fn chained(headers: Map<usize, Header>, blocks: Seq<Block>) -> bool {
    forall|i: int| 0 <= i < blocks.len() ==> #[trigger] headed(headers, blocks, i)
}

/// Whether address `a` lies in one of the blocks.
pub open spec fn covered(blocks: Seq<Block>, a: int) -> bool {
    exists|i: int| 0 <= i < blocks.len() && (#[trigger] blocks[i]).start <= a < blocks[i].end()
}

/// The bytes of all blocks.
pub open spec fn total_size(blocks: Seq<Block>) -> nat
    decreases blocks.len(),
{
    if blocks.len() == 0 {
        0
    } else {
        total_size(blocks.drop_last()) + blocks.last().size as nat
    }
}

/// The size of the biggest block.
pub open spec fn largest(blocks: Seq<Block>) -> nat
    decreases blocks.len(),
{
    if blocks.len() == 0 {
        0
    } else if largest(blocks.drop_last()) > blocks.last().size {
        largest(blocks.drop_last())
    } else {
        blocks.last().size as nat
    }
}

/// Whether a block can hold `size` bytes aligned to `align`.
pub open spec fn fits(block: Block, size: int, align: int) -> bool {
    rounded_up(block.start as int, align) + size <= block.end()
}

/// The first block from `from` on that `size` bytes fit; the number of blocks if none does.
pub open spec fn first_fit(blocks: Seq<Block>, from: int, size: int, align: int) -> int
    decreases blocks.len() - from,
{
    if from >= blocks.len() {
        blocks.len() as int
    } else if fits(blocks[from], size, align) {
        from
    } else {
        first_fit(blocks, from + 1, size, align)
    }
}

/// What is left of `block` without `start..end`.
pub open spec fn pieces(block: Block, start: usize, end: usize) -> Seq<Block> {
    let before = Block { start: block.start, size: (start - block.start) as usize };
    let behind = Block { start: end, size: (block.end() - end) as usize };
    if block.start < start && end < block.end() {
        seq![before, behind]
    } else if block.start < start {
        seq![before]
    } else if end < block.end() {
        seq![behind]
    } else {
        Seq::empty()
    }
}

/// `blocks` with what is left of block `i` in its place.
pub open spec fn carved(blocks: Seq<Block>, i: int, start: usize, end: usize) -> Seq<Block> {
    blocks.subrange(0, i) + pieces(blocks[i], start, end) + blocks.subrange(
        i + 1,
        blocks.len() as int,
    )
}

/// How many blocks start before `start`.
pub open spec fn place_of(blocks: Seq<Block>, start: usize) -> int
    decreases blocks.len(),
{
    if blocks.len() == 0 {
        0
    } else if blocks.last().start < start {
        blocks.len() as int
    } else {
        place_of(blocks.drop_last(), start)
    }
}

/// `blocks` with `freed` put in, merged with those that touch it.
pub open spec fn merged(blocks: Seq<Block>, freed: Block) -> Seq<Block> {
    let k = place_of(blocks, freed.start);
    let joins_before = k > 0 && blocks[k - 1].end() == freed.start;
    let joins_behind = k < blocks.len() && freed.end() == blocks[k].start;
    let start = if joins_before {
        blocks[k - 1].start
    } else {
        freed.start
    };
    let end = if joins_behind {
        blocks[k].end()
    } else {
        freed.end()
    };
    blocks.subrange(
        0,
        if joins_before {
            k - 1
        } else {
            k
        },
    ) + seq![Block { start, size: (end - start) as usize }] + blocks.subrange(
        if joins_behind {
            k + 1
        } else {
            k
        },
        blocks.len() as int,
    )
}

proof fn lemma_place(blocks: Seq<Block>, start: usize, k: int)
    requires
        ordered(blocks),
        0 <= k <= blocks.len(),
        k > 0 ==> blocks[k - 1].start < start,
        k < blocks.len() ==> blocks[k].start >= start,
    ensures
        place_of(blocks, start) == k,
    decreases blocks.len(),
{
    if blocks.len() > 0 {
        let last = blocks.len() - 1;
        if k <= last {
            if k < last {
                assert(blocks[k].end() < blocks[last].start);
            }
            assert(blocks.drop_last().len() == last);
            assert forall|i: int| 0 <= i < last implies (#[trigger] blocks.drop_last()[i]).wf() by {
                assert(blocks[i].wf());
            }
            assert forall|i: int, j: int| 0 <= i < j < last implies (
            #[trigger] blocks.drop_last()[i]).end() < (#[trigger] blocks.drop_last()[j]).start by {
                assert(blocks[i].end() < blocks[j].start);
            }
            lemma_place(blocks.drop_last(), start, k);
        }
    }
}

proof fn lemma_place_bounds(blocks: Seq<Block>, start: usize)
    ensures
        0 <= place_of(blocks, start) <= blocks.len(),
    decreases blocks.len(),
{
    if blocks.len() > 0 {
        lemma_place_bounds(blocks.drop_last(), start);
    }
}

proof fn lemma_total_of_two(a: Seq<Block>, b: Seq<Block>)
    ensures
        total_size(a + b) == total_size(a) + total_size(b),
    decreases b.len(),
{
    if b.len() == 0 {
        assert(a + b =~= a);
    } else {
        assert((a + b).drop_last() =~= a + b.drop_last());
        lemma_total_of_two(a, b.drop_last());
    }
}

proof fn lemma_total_of_one(a: Block)
    ensures
        total_size(seq![a]) == a.size,
{
    assert(seq![a].drop_last() =~= Seq::<Block>::empty());
    assert(total_size(seq![a].drop_last()) == 0);
}

/// The bytes of a sequence of blocks in which one was replaced.
proof fn lemma_total_replaced(blocks: Seq<Block>, from: int, to: int, with: Seq<Block>)
    requires
        0 <= from <= to <= blocks.len(),
    ensures
        total_size(blocks.subrange(0, from) + with + blocks.subrange(to, blocks.len() as int))
            + total_size(blocks.subrange(from, to)) == total_size(blocks) + total_size(with),
{
    let a = blocks.subrange(0, from);
    let b = blocks.subrange(from, to);
    let c = blocks.subrange(to, blocks.len() as int);
    lemma_total_of_two(a + with, c);
    lemma_total_of_two(a, with);
    lemma_total_of_two(a + b, c);
    lemma_total_of_two(a, b);
    assert(a + b + c =~= blocks);
}

proof fn lemma_total_pieces(block: Block, start: usize, end: usize)
    requires
        block.wf(),
        block.start <= start < end <= block.end(),
    ensures
        total_size(pieces(block, start, end)) + (end - start) == block.size,
{
    let before = Block { start: block.start, size: (start - block.start) as usize };
    let behind = Block { start: end, size: (block.end() - end) as usize };
    lemma_total_of_one(before);
    lemma_total_of_one(behind);
    lemma_total_of_two(seq![before], seq![behind]);
    assert(seq![before] + seq![behind] =~= seq![before, behind]);
}

/// Not thread-safe by itself; the kernel wraps it in a lock.
pub struct Heap {
    head: usize,
    total: usize,
    used: usize,
    blocks: Ghost<Seq<Block>>,
    allocated: Ghost<Seq<Block>>,
}

impl Heap {
    /// The free blocks, in address order.
    pub closed spec fn free_blocks(&self) -> Seq<Block> {
        self.blocks@
    }

    /// The blocks that were allocated and not freed since, the oldest first.
    pub closed spec fn live(&self) -> Seq<Block> {
        self.allocated@
    }

    pub closed spec fn total(&self) -> usize {
        self.total
    }

    pub closed spec fn used(&self) -> usize {
        self.used
    }

    /// What holds of a heap and the memory it lies in: its free blocks are linked in order,
    /// and neither free nor allocated blocks overlap.
    pub closed spec fn wf<M: Memory>(&self, memory: &M) -> bool {
        &&& ordered(self.blocks@)
        &&& chained(memory.headers(), self.blocks@)
        &&& self.head == link(self.blocks@, 0)
        &&& forall|a: usize|
            a % BLOCK_ALIGN == 0 && (covered(self.blocks@, a as int) || covered(
                self.allocated@,
                a as int,
            )) ==> #[trigger] memory.usable(a)
        &&& forall|i: int| 0 <= i < self.allocated@.len() ==> (#[trigger] self.allocated@[i]).wf()
        &&& forall|i: int, j: int|
            0 <= i < j < self.allocated@.len() ==> (#[trigger] self.allocated@[i]).disjoint(
                #[trigger] self.allocated@[j],
            )
        &&& forall|i: int, j: int|
            0 <= i < self.allocated@.len() && 0 <= j < self.blocks@.len() ==> (
            #[trigger] self.allocated@[i]).disjoint(#[trigger] self.blocks@[j])
        &&& self.used == total_size(self.allocated@)
        &&& self.total == self.used + total_size(self.blocks@)
    }

    /// Whether the heap has no memory at all.
    pub closed spec fn has_nothing(&self) -> bool {
        &&& self.head == 0
        &&& self.total == 0
        &&& self.used == 0
        &&& self.blocks@ == Seq::<Block>::empty()
        &&& self.allocated@ == Seq::<Block>::empty()
    }

    /// A heap with no memory; every allocation fails until `init`.
    pub fn empty() -> (r: Self)
        ensures
            r.has_nothing(),
            r.free_blocks() == Seq::<Block>::empty(),
            r.live() == Seq::<Block>::empty(),
            r.total() == 0,
            r.used() == 0,
    {
        Heap {
            head: 0,
            total: 0,
            used: 0,
            blocks: Ghost(Seq::empty()),
            allocated: Ghost(Seq::empty()),
        }
    }

    /// Takes over `start..end`, which must be usable memory.
    pub fn init<M: Memory>(&mut self, memory: &mut M, start: usize, end: usize)
        requires
            0 < rounded_up(start as int, BLOCK_ALIGN as int) < rounded_down(
                end as int,
                BLOCK_ALIGN as int,
            ),
            forall|a: usize|
                start <= a < end && a % BLOCK_ALIGN == 0 ==> #[trigger] old(memory).usable(a),
        ensures
            final(self).wf(final(memory)),
            final(self).free_blocks() == seq![
                Block {
                    start: rounded_up(start as int, BLOCK_ALIGN as int) as usize,
                    size: (rounded_down(end as int, BLOCK_ALIGN as int) - rounded_up(
                        start as int,
                        BLOCK_ALIGN as int,
                    )) as usize,
                },
            ],
            final(self).live() == Seq::<Block>::empty(),
            final(self).used() == 0,
            final(self).total() == rounded_down(end as int, BLOCK_ALIGN as int) - rounded_up(
                start as int,
                BLOCK_ALIGN as int,
            ),
    {
        let start: usize = align_up(start, BLOCK_ALIGN);
        let end: usize = end / BLOCK_ALIGN * BLOCK_ALIGN;
        self.head = 0;
        self.total = end - start;
        self.used = 0;
        self.blocks = Ghost(Seq::empty());
        self.allocated = Ghost(Seq::empty());
        let ghost freed = Block { start, size: (end - start) as usize };
        self.free(memory, start, end - start);
        proof {
            assert(place_of(Seq::empty(), start) == 0);
            assert(self.blocks@ =~= seq![freed]);
            lemma_total_of_one(freed);
            assert forall|a: usize|
                a % BLOCK_ALIGN == 0 && covered(self.blocks@, a as int) implies #[trigger] memory.usable(
                a,
            ) by {
                assert(old(memory).usable(a));
            }
        }
    }

    /// Adds `start..end` to the heap, merging it with the free blocks it touches. For growing a
    /// heap as more memory becomes available. The range must be usable memory that the heap
    /// doesn't have yet.
    pub fn extend<M: Memory>(&mut self, memory: &mut M, start: usize, end: usize)
        requires
            old(self).wf(old(memory)),
            0 < rounded_up(start as int, BLOCK_ALIGN as int) <= usize::MAX,
            old(self).total() + end - start <= usize::MAX,
            forall|a: usize|
                start <= a < end && a % BLOCK_ALIGN == 0 ==> #[trigger] old(memory).usable(a),
            forall|i: int|
                0 <= i < old(self).free_blocks().len() ==> (#[trigger] old(self).free_blocks()[i]).end() <= start || end <= old(self).free_blocks()[i].start,
            forall|i: int|
                0 <= i < old(self).live().len() ==> (#[trigger] old(self).live()[i]).end() <= start
                    || end <= old(self).live()[i].start,
        ensures
            final(self).wf(final(memory)),
            final(self).live() == old(self).live(),
            final(self).used() == old(self).used(),
            ({
                let from = rounded_up(start as int, BLOCK_ALIGN as int);
                let to = rounded_down(end as int, BLOCK_ALIGN as int);
                if from < to {
                    &&& final(self).free_blocks() == merged(
                        old(self).free_blocks(),
                        Block { start: from as usize, size: (to - from) as usize },
                    )
                    &&& final(self).total() == old(self).total() + (to - from)
                } else {
                    &&& final(self).free_blocks() == old(self).free_blocks()
                    &&& final(self).total() == old(self).total()
                }
            }),
    {
        let start: usize = align_up(start, BLOCK_ALIGN);
        let end: usize = end / BLOCK_ALIGN * BLOCK_ALIGN;
        if end > start {
            let ghost freed = Block { start, size: (end - start) as usize };
            proof {
                assert forall|j: int| 0 <= j < self.blocks@.len() implies freed.disjoint(
                    #[trigger] self.blocks@[j],
                ) by {
                    assert(old(self).free_blocks()[j].wf());
                }
            }
            self.total += end - start;
            self.free(memory, start, end - start);
            proof {
                assert forall|i: int, j: int|
                    0 <= i < self.allocated@.len() && 0 <= j < self.blocks@.len() implies (
                #[trigger] self.allocated@[i]).disjoint(#[trigger] self.blocks@[j]) by {
                    let live = old(self).live()[i];
                    assert(live.wf());
                    lemma_merged_avoids(old(self).blocks@, freed, live);
                }
                assert forall|a: usize|
                    a % BLOCK_ALIGN == 0 && (covered(self.blocks@, a as int) || covered(
                        self.allocated@,
                        a as int,
                    )) implies #[trigger] memory.usable(a) by {
                    if freed.start <= a < freed.end() {
                        assert(old(memory).usable(a));
                    } else if covered(self.blocks@, a as int) {
                        assert(covered(old(self).blocks@, a as int));
                        assert(old(memory).usable(a));
                    } else {
                        assert(covered(old(self).allocated@, a as int));
                        assert(old(memory).usable(a));
                    }
                }
            }
        }
    }

    /// Allocates a block for `size` bytes aligned to `align`, if one is free: in the first free
    /// block where it fits, as low as it can be. Alignments are powers of two.
    #[verifier::rlimit(40)]
    #[verifier::spinoff_prover]
    pub fn allocate<M: Memory>(&mut self, memory: &mut M, size: usize, align: usize) -> (r: Option<
        usize,
    >)
        requires
            old(self).wf(old(memory)),
            0 < align,
            align <= BLOCK_ALIGN || align % BLOCK_ALIGN == 0,
            block_bytes(size as int) <= usize::MAX,
        ensures
            final(self).wf(final(memory)),
            final(self).total() == old(self).total(),
            ({
                let bytes = block_bytes(size as int);
                let alignment = block_alignment(align);
                let blocks = old(self).free_blocks();
                let i = first_fit(blocks, 0, bytes, alignment);
                match r {
                    None => {
                        &&& i == blocks.len()
                        &&& *final(self) == *old(self)
                        &&& final(memory).headers() == old(memory).headers()
                    },
                    Some(start) => {
                        &&& took(*old(self), *final(self), size, align, start)
                        &&& final(self).used() == old(self).used() + bytes
                        &&& forall|a: usize|
                            !covered(blocks, a as int) ==> #[trigger] final(memory).headers()[a]
                                == old(memory).headers()[a]
                    },
                }
            }),
    {
        let bytes: usize = align_up(
            if size > 0 {
                size
            } else {
                1
            },
            BLOCK_ALIGN,
        );
        let alignment: usize = if align > BLOCK_ALIGN {
            align
        } else {
            BLOCK_ALIGN
        };
        // The block before `block`: 0 if `block` is the first.
        let mut before: usize = 0;
        let mut block: usize = self.head;
        let ghost blocks = self.blocks@;
        let ghost mut i: int = 0;
        while block != 0
            invariant
                self.wf(memory),
                *self == *old(self),
                old(self).wf(old(memory)),
                memory.headers() == old(memory).headers(),
                forall|a: usize| #[trigger] memory.usable(a) == old(memory).usable(a),
                blocks == self.blocks@,
                0 <= i <= blocks.len(),
                block == link(blocks, i),
                before == link(blocks, i - 1),
                bytes == block_bytes(size as int),
                alignment == block_alignment(align),
                alignment % BLOCK_ALIGN == 0,
                first_fit(blocks, 0, bytes as int, alignment as int) == first_fit(
                    blocks,
                    i,
                    bytes as int,
                    alignment as int,
                ),
            decreases blocks.len() - i,
        {
            assert(blocks[i].wf());
            assert(covered(blocks, blocks[i].start as int));
            assert(headed(memory.headers(), blocks, i));
            let header = memory.read(block);
            // What aligning skips of the block.
            let past: usize = block % alignment;
            let skipped: usize = if past == 0 {
                0
            } else {
                alignment - past
            };
            proof {
                lemma_rounding(block as int, alignment as int);
            }
            if skipped <= header.size && bytes <= header.size - skipped {
                let start: usize = block + skipped;
                let ghost target = Block { start, size: bytes };
                proof {
                    assert(bytes > 0 && bytes % BLOCK_ALIGN == 0);
                    lemma_multiple_of_multiple(start as int, alignment as int);
                    assert(fits(blocks[i], bytes as int, alignment as int));
                }
                self.carve(memory, before, block, start, start + bytes, Ghost(i));
                proof {
                    self.allocated@ = self.allocated@.push(target);
                    lemma_allocated_apart(blocks, old(self).allocated@, i, target);
                    lemma_allocated_totals(blocks, old(self).allocated@, i, target);
                    assert forall|a: usize|
                        a % BLOCK_ALIGN == 0 && covered(
                            self.allocated@,
                            a as int,
                        ) implies #[trigger] memory.usable(a) by {
                        lemma_allocated_covers(blocks, old(self).allocated@, i, target, a as int);
                        assert(old(memory).usable(a));
                    }
                }
                self.used += bytes;
                return Some(start);
            }
            before = block;
            block = header.next;
            proof {
                i = i + 1;
            }
        }
        None
    }

    /// Takes `start..end` out of free block `block`.
    fn carve<M: Memory>(
        &mut self,
        memory: &mut M,
        before: usize,
        block: usize,
        start: usize,
        end: usize,
        i: Ghost<int>,
    )
        requires
            ordered(old(self).blocks@),
            chained(old(memory).headers(), old(self).blocks@),
            old(self).head == link(old(self).blocks@, 0),
            forall|a: usize|
                a % BLOCK_ALIGN == 0 && covered(
                    old(self).blocks@,
                    a as int,
                ) ==> #[trigger] old(memory).usable(a),
            0 <= i@ < old(self).blocks@.len(),
            block == old(self).blocks@[i@].start,
            before == link(old(self).blocks@, i@ - 1),
            block <= start < end <= old(self).blocks@[i@].end(),
            start % BLOCK_ALIGN == 0,
            end % BLOCK_ALIGN == 0,
        ensures
            final(self).total == old(self).total,
            final(self).used == old(self).used,
            final(self).allocated == old(self).allocated,
            final(self).blocks@ == carved(old(self).blocks@, i@, start, end),
            ordered(final(self).blocks@),
            chained(final(memory).headers(), final(self).blocks@),
            final(self).head == link(final(self).blocks@, 0),
            forall|a: usize|
                a % BLOCK_ALIGN == 0 && covered(
                    final(self).blocks@,
                    a as int,
                ) ==> #[trigger] final(memory).usable(a),
            forall|a: usize| #[trigger] final(memory).usable(a) == old(memory).usable(a),
            forall|a: usize|
                !covered(old(self).blocks@, a as int) ==> #[trigger] final(memory).headers()[a]
                    == old(memory).headers()[a],
    {
        let ghost blocks = self.blocks@;
        let ghost i = i@;
        proof {
            assert(blocks[i].wf());
            assert(covered(blocks, block as int));
            assert(headed(memory.headers(), blocks, i));
            if i > 0 {
                assert(headed(memory.headers(), blocks, i - 1));
                assert(blocks[i - 1].wf());
                assert(blocks[i - 1].start <= before < blocks[i - 1].end());
                assert(covered(blocks, before as int));
            }
        }
        let header = memory.read(block);
        let block_end: usize = block + header.size;
        // Give back what's left after the allocation...
        let mut rest: usize = header.next;
        if end < block_end {
            assert(blocks[i].start <= end < blocks[i].end());
            assert(covered(blocks, end as int));
            memory.write(end, Header { size: block_end - end, next: rest });
            rest = end;
        }
        // ...and before it, when aligning skipped some of the block.
        if start > block {
            memory.write(block, Header { size: start - block, next: rest });
        } else if before == 0 {
            self.head = rest;
        } else {
            assert(blocks[i - 1].end() < blocks[i].start);
            let size = memory.read(before).size;
            memory.write(before, Header { size, next: rest });
        }
        proof {
            let after = carved(blocks, i, start, end);
            self.blocks@ = after;
            lemma_carved_ordered(blocks, i, start, end);
            lemma_carved_chained(blocks, i, start, end, old(memory).headers(), memory.headers());
            assert forall|a: usize|
                a % BLOCK_ALIGN == 0 && covered(after, a as int) implies #[trigger] memory.usable(
                a,
            ) by {
                let j = choose|j: int|
                    0 <= j < after.len() && (#[trigger] after[j]).start <= a < after[j].end();
                lemma_carved_within(blocks, i, start, end, j);
                assert(covered(blocks, a as int));
                assert(old(memory).usable(a));
            }
        }
    }

    /// Frees a block that was allocated for `size` bytes at `ptr`.
    pub fn dealloc<M: Memory>(&mut self, memory: &mut M, ptr: usize, size: usize)
        requires
            old(self).wf(old(memory)),
            block_bytes(size as int) <= usize::MAX,
            old(self).live().contains(
                (Block { start: ptr, size: block_bytes(size as int) as usize }),
            ),
        ensures
            final(self).wf(final(memory)),
            final(self).total() == old(self).total(),
            final(self).used() == old(self).used() - block_bytes(size as int),
            gave_back(*old(self), *final(self), ptr, size),
            forall|a: usize|
                !covered(final(self).free_blocks(), a as int) ==> #[trigger] final(memory).headers()[a] == old(memory).headers()[a],
    {
        let bytes: usize = align_up(
            if size > 0 {
                size
            } else {
                1
            },
            BLOCK_ALIGN,
        );
        let ghost freed = Block { start: ptr, size: bytes };
        let ghost live = self.allocated@;
        let ghost at = live.index_of(freed);
        proof {
            assert(live[at] == freed);
            assert(live[at].wf());
            assert forall|a: usize|
                ptr <= a < ptr + bytes && a % BLOCK_ALIGN == 0 implies #[trigger] memory.usable(
                a,
            ) by {
                assert(live[at].start <= a < live[at].end());
                assert(covered(live, a as int));
            }
        }
        self.free(memory, ptr, bytes);
        proof {
            self.allocated@ = live.remove(at);
            lemma_total_replaced(live, at, at + 1, Seq::empty());
            assert(live.subrange(at, at + 1) =~= seq![freed]);
            lemma_total_of_one(freed);
            assert(live.subrange(0, at) + Seq::<Block>::empty() + live.subrange(
                at + 1,
                live.len() as int,
            ) =~= live.remove(at));
            assert(total_size(Seq::<Block>::empty()) == 0);
            let left = self.allocated@;
            assert forall|i: int| 0 <= i < left.len() implies (#[trigger] left[i]).wf()
                && left[i].disjoint(freed) by {
                let k = if i < at { i } else { i + 1 };
                assert(left[i] == live[k]);
                if k < at {
                    assert(live[k].disjoint(live[at]));
                } else {
                    assert(live[at].disjoint(live[k]));
                }
            }
            assert forall|i: int, j: int| 0 <= i < j < left.len() implies (
            #[trigger] left[i]).disjoint(#[trigger] left[j]) by {
                let k = if i < at { i } else { i + 1 };
                let m = if j < at { j } else { j + 1 };
                assert(live[k].disjoint(live[m]));
            }
            assert forall|i: int, j: int|
                0 <= i < left.len() && 0 <= j < self.blocks@.len() implies (
            #[trigger] left[i]).disjoint(#[trigger] self.blocks@[j]) by {
                let k = if i < at { i } else { i + 1 };
                assert(left[i] == live[k]);
                assert forall|m: int| 0 <= m < old(self).blocks@.len() implies left[i].disjoint(
                    #[trigger] old(self).blocks@[m],
                ) by {
                    assert(live[k].disjoint(old(self).blocks@[m]));
                }
                lemma_merged_avoids(old(self).blocks@, freed, left[i]);
            }
            assert forall|a: usize|
                a % BLOCK_ALIGN == 0 && (covered(self.blocks@, a as int) || covered(
                    self.allocated@,
                    a as int,
                )) implies #[trigger] memory.usable(a) by {
                if freed.start <= a < freed.end() {
                    assert(old(memory).usable(a));
                } else if covered(self.blocks@, a as int) {
                    assert(covered(old(self).blocks@, a as int));
                    assert(old(memory).usable(a));
                } else {
                    let i = choose|i: int|
                        0 <= i < left.len() && (#[trigger] left[i]).start <= a < left[i].end();
                    let k = if i < at { i } else { i + 1 };
                    assert(live[k].start <= a < live[k].end());
                    assert(covered(live, a as int));
                    assert(old(memory).usable(a));
                }
            }
        }
        self.used -= bytes;
    }

    /// Returns `start..start + size` to the free list, merging it with its neighbours.
    #[verifier::rlimit(60)]
    #[verifier::spinoff_prover]
    fn free<M: Memory>(&mut self, memory: &mut M, start: usize, size: usize)
        requires
            ordered(old(self).blocks@),
            chained(old(memory).headers(), old(self).blocks@),
            old(self).head == link(old(self).blocks@, 0),
            forall|a: usize|
                a % BLOCK_ALIGN == 0 && covered(
                    old(self).blocks@,
                    a as int,
                ) ==> #[trigger] old(memory).usable(a),
            (Block { start, size }).wf(),
            forall|a: usize|
                start <= a < start + size && a % BLOCK_ALIGN == 0 ==> #[trigger] old(memory).usable(a),
            forall|j: int|
                0 <= j < old(self).blocks@.len() ==> (Block { start, size }).disjoint(
                    #[trigger] old(self).blocks@[j],
                ),
        ensures
            final(self).total == old(self).total,
            final(self).used == old(self).used,
            final(self).allocated == old(self).allocated,
            final(self).blocks@ == merged(old(self).blocks@, Block { start, size }),
            ordered(final(self).blocks@),
            chained(final(memory).headers(), final(self).blocks@),
            final(self).head == link(final(self).blocks@, 0),
            forall|a: usize| #[trigger] final(memory).usable(a) == old(memory).usable(a),
            total_size(final(self).blocks@) == total_size(old(self).blocks@) + size,
            forall|a: int| #[trigger]
                covered(final(self).blocks@, a) == (covered(old(self).blocks@, a) || start <= a
                    < start + size),
            forall|a: usize|
                !covered(final(self).blocks@, a as int) ==> #[trigger] final(memory).headers()[a]
                    == old(memory).headers()[a],
    {
        let ghost blocks = self.blocks@;
        let ghost freed = Block { start, size };
        let ghost mut k: int = 0;
        // Find the free blocks right before and after the freed range.
        let mut before: usize = 0;
        let mut next: usize = self.head;
        while next != 0 && next < start
            invariant
                blocks == self.blocks@,
                ordered(blocks),
                chained(memory.headers(), blocks),
                *self == *old(self),
                memory.headers() == old(memory).headers(),
                forall|a: usize| #[trigger] memory.usable(a) == old(memory).usable(a),
                forall|a: usize|
                    a % BLOCK_ALIGN == 0 && covered(blocks, a as int) ==> #[trigger] memory.usable(
                        a,
                    ),
                0 <= k <= blocks.len(),
                next == link(blocks, k),
                before == link(blocks, k - 1),
                before < start,
            decreases blocks.len() - k,
        {
            assert(blocks[k].wf());
            assert(covered(blocks, next as int));
            assert(headed(memory.headers(), blocks, k));
            before = next;
            next = memory.read(next).next;
            proof {
                k = k + 1;
            }
        }
        proof {
            if k > 0 {
                assert(headed(memory.headers(), blocks, k - 1));
                assert(blocks[k - 1].wf());
                assert(covered(blocks, before as int));
                assert(freed.disjoint(blocks[k - 1]));
            }
            if k < blocks.len() {
                assert(headed(memory.headers(), blocks, k));
                assert(blocks[k].wf());
                assert(covered(blocks, next as int));
                assert(freed.disjoint(blocks[k]));
            }
            lemma_place(blocks, start, k);
            assert(memory.usable(start));
        }
        let end: usize = start + size;
        let mut merged_size: usize = size;
        let mut rest: usize = next;
        if next != 0 && end == next {
            let header = memory.read(next);
            merged_size = size + header.size;
            rest = header.next;
        }
        let before_size: usize = if before == 0 {
            0
        } else {
            memory.read(before).size
        };
        if before != 0 && before + before_size == start {
            memory.write(before, Header { size: before_size + merged_size, next: rest });
        } else {
            memory.write(start, Header { size: merged_size, next: rest });
            if before == 0 {
                self.head = start;
            } else {
                memory.write(before, Header { size: before_size, next: start });
            }
        }
        proof {
            let after = merged(blocks, freed);
            self.blocks@ = after;
            lemma_merged_parts(blocks, freed, k);
            lemma_merged_ordered(blocks, freed, k);
            lemma_merged_total(blocks, freed, k);
            lemma_merged_chained(blocks, freed, k, old(memory).headers(), memory.headers());
            assert forall|a: int| #[trigger]
                covered(after, a) == (covered(blocks, a) || start <= a < start + size) by {
                lemma_merged_covers(blocks, freed, k, a);
            }
            assert forall|a: usize| !covered(after, a as int) implies #[trigger] memory.headers()[a]
                == old(memory).headers()[a] by {
                if k > 0 && a == before {
                    assert(covered(blocks, a as int));
                }
            }
        }
    }

    pub fn stats<M: Memory>(&self, memory: &M) -> (r: Stats)
        requires
            self.wf(memory),
        ensures
            r.total == self.total(),
            r.used == self.used(),
            r.largest_free == largest(self.free_blocks()),
    {
        let mut largest_free: usize = 0;
        let mut block: usize = self.head;
        let ghost mut i: int = 0;
        assert(self.blocks@.subrange(0, 0) =~= Seq::<Block>::empty());
        while block != 0
            invariant
                self.wf(memory),
                0 <= i <= self.blocks@.len(),
                block == link(self.blocks@, i),
                largest_free == largest(self.blocks@.subrange(0, i)),
            decreases self.blocks@.len() - i,
        {
            assert(self.blocks@[i].wf());
            assert(covered(self.blocks@, block as int));
            assert(headed(memory.headers(), self.blocks@, i));
            let header = memory.read(block);
            if header.size > largest_free {
                largest_free = header.size;
            }
            block = header.next;
            proof {
                i = i + 1;
                assert(self.blocks@.subrange(0, i).drop_last() =~= self.blocks@.subrange(0, i - 1));
            }
        }
        proof {
            if i < self.blocks@.len() {
                assert(self.blocks@[i].wf());
            }
            assert(self.blocks@.subrange(0, i) =~= self.blocks@);
        }
        Stats { total: self.total, used: self.used, largest_free }
    }
}

fn align_up(value: usize, align: usize) -> (r: usize)
    requires
        0 < align,
        rounded_up(value as int, align as int) <= usize::MAX,
    ensures
        r == rounded_up(value as int, align as int),
{
    proof {
        lemma_rounding(value as int, align as int);
    }
    let past: usize = value % align;
    if past == 0 {
        value
    } else {
        value + (align - past)
    }
}

proof fn lemma_multiple_of_multiple(value: int, align: int)
    requires
        0 < align,
        value % align == 0,
        align % BLOCK_ALIGN as int == 0,
    ensures
        value % BLOCK_ALIGN as int == 0,
{
    let q = value / align;
    let p = align / BLOCK_ALIGN as int;
    vstd::arithmetic::div_mod::lemma_fundamental_div_mod(value, align);
    vstd::arithmetic::div_mod::lemma_fundamental_div_mod(align, BLOCK_ALIGN as int);
    assert(value == q * p * BLOCK_ALIGN) by (nonlinear_arith)
        requires
            value == align * q,
            align == BLOCK_ALIGN * p,
    ;
    vstd::arithmetic::div_mod::lemma_mod_multiples_basic(q * p, BLOCK_ALIGN as int);
}

proof fn lemma_rounding(value: int, align: int)
    requires
        0 <= value,
        0 < align,
    ensures
        value % align == 0 ==> rounded_up(value, align) == value,
        value % align != 0 ==> rounded_up(value, align) == value + (align - value % align),
        rounded_up(value, align) % align == 0,
{
    let q = value / align;
    let r = value % align;
    vstd::arithmetic::div_mod::lemma_fundamental_div_mod(value, align);
    vstd::arithmetic::div_mod::lemma_mod_bound(value, align);
    if r == 0 {
        vstd::arithmetic::div_mod::lemma_fundamental_div_mod_converse(
            value + align - 1,
            align,
            q,
            align - 1,
        );
        vstd::arithmetic::mul::lemma_mul_is_commutative(q, align);
    } else {
        assert(align * (q + 1) == align * q + align) by (nonlinear_arith);
        vstd::arithmetic::div_mod::lemma_fundamental_div_mod_converse(
            value + align - 1,
            align,
            q + 1,
            r - 1,
        );
        vstd::arithmetic::mul::lemma_mul_is_commutative(q + 1, align);
    }
    vstd::arithmetic::div_mod::lemma_mod_multiples_basic(
        (value + align - 1) / align,
        align,
    );
}

/// Every block that is left lies in one that was there.
proof fn lemma_carved_within(blocks: Seq<Block>, i: int, start: usize, end: usize, j: int)
    requires
        ordered(blocks),
        0 <= i < blocks.len(),
        blocks[i].start <= start < end <= blocks[i].end(),
        0 <= j < carved(blocks, i, start, end).len(),
    ensures
        exists|m: int|
            0 <= m < blocks.len() && (#[trigger] blocks[m]).start <= carved(
                blocks,
                i,
                start,
                end,
            )[j].start && carved(blocks, i, start, end)[j].end() <= blocks[m].end(),
        (Block { start, size: (end - start) as usize }).disjoint(carved(blocks, i, start, end)[j]),
{
    let n = pieces(blocks[i], start, end).len();
    assert(blocks[i].wf());
    let b = carved(blocks, i, start, end)[j];
    if j < i {
        assert(b == blocks[j]);
        assert(blocks[j].end() < blocks[i].start);
    } else if j >= i + n {
        assert(b == blocks[j - n + 1]);
        assert(blocks[i].end() < blocks[j - n + 1].start);
    } else {
        assert(b == pieces(blocks[i], start, end)[j - i]);
        assert(blocks[i].start <= b.start && b.end() <= blocks[i].end());
    }
}

/// A block carved out of free block `i` keeps clear of what is left and of other allocations.
proof fn lemma_allocated_apart(blocks: Seq<Block>, live: Seq<Block>, i: int, target: Block)
    requires
        ordered(blocks),
        0 <= i < blocks.len(),
        target.wf(),
        blocks[i].start <= target.start,
        target.end() <= blocks[i].end(),
        forall|k: int| 0 <= k < live.len() ==> (#[trigger] live[k]).wf(),
        forall|k: int, j: int|
            0 <= k < j < live.len() ==> (#[trigger] live[k]).disjoint(#[trigger] live[j]),
        forall|k: int, j: int|
            0 <= k < live.len() && 0 <= j < blocks.len() ==> (#[trigger] live[k]).disjoint(
                #[trigger] blocks[j],
            ),
    ensures
        ({
            let after = live.push(target);
            let left = carved(blocks, i, target.start, target.end() as usize);
            &&& forall|k: int| 0 <= k < after.len() ==> (#[trigger] after[k]).wf()
            &&& forall|k: int, j: int|
                0 <= k < j < after.len() ==> (#[trigger] after[k]).disjoint(#[trigger] after[j])
            &&& forall|k: int, j: int|
                0 <= k < after.len() && 0 <= j < left.len() ==> (#[trigger] after[k]).disjoint(
                    #[trigger] left[j],
                )
        }),
{
    let after = live.push(target);
    let end = target.end() as usize;
    let left = carved(blocks, i, target.start, end);
    assert(blocks[i].wf());
    assert forall|k: int, j: int| 0 <= k < after.len() && 0 <= j < left.len() implies (
    #[trigger] after[k]).disjoint(#[trigger] left[j]) by {
        lemma_carved_within(blocks, i, target.start, end, j);
        if k < live.len() {
            let m = choose|m: int|
                0 <= m < blocks.len() && (#[trigger] blocks[m]).start <= left[j].start
                    && left[j].end() <= blocks[m].end();
            assert(live[k].disjoint(blocks[m]));
        }
    }
    assert forall|k: int, j: int| 0 <= k < j < after.len() implies (#[trigger] after[k]).disjoint(
        #[trigger] after[j],
    ) by {
        if j == live.len() {
            assert(live[k].disjoint(blocks[i]));
        } else {
            assert(live[k].disjoint(live[j]));
        }
    }
}

proof fn lemma_allocated_totals(blocks: Seq<Block>, live: Seq<Block>, i: int, target: Block)
    requires
        0 <= i < blocks.len(),
        blocks[i].wf(),
        target.wf(),
        blocks[i].start <= target.start,
        target.end() <= blocks[i].end(),
    ensures
        total_size(live.push(target)) == total_size(live) + target.size,
        total_size(carved(blocks, i, target.start, target.end() as usize)) + target.size
            == total_size(blocks),
{
    let end = target.end() as usize;
    assert(live.push(target).drop_last() =~= live);
    lemma_total_replaced(blocks, i, i + 1, pieces(blocks[i], target.start, end));
    lemma_total_pieces(blocks[i], target.start, end);
    assert(blocks.subrange(i, i + 1) =~= seq![blocks[i]]);
    lemma_total_of_one(blocks[i]);
}

proof fn lemma_allocated_covers(
    blocks: Seq<Block>,
    live: Seq<Block>,
    i: int,
    target: Block,
    a: int,
)
    requires
        0 <= i < blocks.len(),
        blocks[i].start <= target.start,
        target.end() <= blocks[i].end(),
        covered(live.push(target), a),
    ensures
        covered(blocks, a) || covered(live, a),
{
    let after = live.push(target);
    let k = choose|k: int|
        0 <= k < after.len() && (#[trigger] after[k]).start <= a < after[k].end();
    if k == live.len() {
        assert(blocks[i].start <= a < blocks[i].end());
    } else {
        assert(live[k].start <= a < live[k].end());
    }
}

/// The headers after carving, given those that were written.
#[verifier::rlimit(40)]
#[verifier::spinoff_prover]
proof fn lemma_carved_chained(
    blocks: Seq<Block>,
    i: int,
    start: usize,
    end: usize,
    old_headers: Map<usize, Header>,
    headers: Map<usize, Header>,
)
    requires
        ordered(blocks),
        chained(old_headers, blocks),
        0 <= i < blocks.len(),
        blocks[i].start <= start < end <= blocks[i].end(),
        ({
            let rest = if end < blocks[i].end() {
                end
            } else {
                link(blocks, i + 1)
            };
            &&& end < blocks[i].end() ==> headers[end] == (Header {
                size: (blocks[i].end() - end) as usize,
                next: link(blocks, i + 1),
            })
            &&& blocks[i].start < start ==> headers[blocks[i].start] == (Header {
                size: (start - blocks[i].start) as usize,
                next: rest,
            })
            &&& blocks[i].start == start && i > 0 ==> headers[blocks[i - 1].start] == (Header {
                size: blocks[i - 1].size,
                next: rest,
            })
            &&& forall|a: usize|
                a != end && a != blocks[i].start && !(i > 0 && a == blocks[i - 1].start && start
                    == blocks[i].start) ==> #[trigger] headers[a] == old_headers[a]
            &&& end == blocks[i].end() ==> headers[end] == old_headers[end]
        }),
    ensures
        chained(headers, carved(blocks, i, start, end)),
{
    let after = carved(blocks, i, start, end);
    let p = pieces(blocks[i], start, end);
    let n = p.len() as int;
    assert(blocks[i].wf());
    assert forall|k: int| 0 <= k < after.len() implies #[trigger] headed(headers, after, k) by {
        if k < i {
            assert(headed(old_headers, blocks, k));
            assert(after[k] == blocks[k]);
            assert(blocks[k].wf());
            assert(blocks[k].end() < blocks[i].start);
            if k < i - 1 {
                assert(blocks[k].end() < blocks[i - 1].start);
                assert(after[k + 1] == blocks[k + 1]);
            } else if n > 0 {
                assert(after[i] == p[0]);
            } else if i + 1 < blocks.len() {
                assert(after[i] == blocks[i + 1]);
            }
        } else if k >= i + n {
            let m = k - n + 1;
            assert(headed(old_headers, blocks, m));
            assert(after[k] == blocks[m]);
            assert(blocks[i].end() < blocks[m].start);
            if i > 0 {
                assert(blocks[i - 1].end() < blocks[m].start);
                assert(blocks[i - 1].wf());
            }
            if m + 1 < blocks.len() {
                assert(after[k + 1] == blocks[m + 1]);
            }
        } else {
            assert(after[k] == p[k - i]);
            if k + 1 < i + n {
                assert(after[k + 1] == p[k + 1 - i]);
            } else if i + 1 < blocks.len() {
                assert(after[k + 1] == blocks[i + 1]);
            }
        }
    }
}

proof fn lemma_carved_ordered(blocks: Seq<Block>, i: int, start: usize, end: usize)
    requires
        ordered(blocks),
        0 <= i < blocks.len(),
        blocks[i].start <= start < end <= blocks[i].end(),
        start % BLOCK_ALIGN == 0,
        end % BLOCK_ALIGN == 0,
    ensures
        ordered(carved(blocks, i, start, end)),
{
    let after = carved(blocks, i, start, end);
    let p = pieces(blocks[i], start, end);
    let n = p.len();
    assert(blocks[i].wf());
    assert forall|j: int| 0 <= j < after.len() implies (#[trigger] after[j]).wf() by {
        if j < i {
            assert(after[j] == blocks[j]);
        } else if j >= i + n {
            assert(after[j] == blocks[j - n + 1]);
        } else {
            assert(after[j] == p[j - i]);
        }
    }
    assert forall|j: int, k: int| 0 <= j < k < after.len() implies (#[trigger] after[j]).end() < (
    #[trigger] after[k]).start by {
        if k < i {
            assert(after[j] == blocks[j] && after[k] == blocks[k]);
        } else if j >= i + n {
            assert(after[j] == blocks[j - n + 1] && after[k] == blocks[k - n + 1]);
        } else if j < i {
            assert(after[j] == blocks[j]);
            assert(blocks[j].end() < blocks[i].start);
            if k < i + n {
                assert(after[k] == p[k - i]);
            } else {
                assert(after[k] == blocks[k - n + 1]);
                assert(blocks[i].end() < blocks[k - n + 1].start);
            }
        } else {
            assert(after[j] == p[j - i]);
            if k >= i + n {
                assert(after[k] == blocks[k - n + 1]);
                assert(blocks[i].end() < blocks[k - n + 1].start);
            } else {
                assert(after[k] == p[k - i]);
            }
        }
    }
}

/// Whether `freed` belongs before free block `k`.
spec fn goes_before(blocks: Seq<Block>, freed: Block, k: int) -> bool {
    &&& ordered(blocks)
    &&& freed.wf()
    &&& forall|j: int| 0 <= j < blocks.len() ==> freed.disjoint(#[trigger] blocks[j])
    &&& 0 <= k <= blocks.len()
    &&& place_of(blocks, freed.start) == k
    &&& k > 0 ==> blocks[k - 1].start < freed.start
    &&& k < blocks.len() ==> blocks[k].start >= freed.start
}

/// The free blocks that `freed` replaces when it goes before block `k`: from which, and up to
/// which.
spec fn replaced(blocks: Seq<Block>, freed: Block, k: int) -> (int, int) {
    (
        if k > 0 && blocks[k - 1].end() == freed.start {
            k - 1
        } else {
            k
        },
        if k < blocks.len() && freed.end() == blocks[k].start {
            k + 1
        } else {
            k
        },
    )
}

/// What the freed block becomes, and where the others are.
proof fn lemma_merged_parts(blocks: Seq<Block>, freed: Block, k: int)
    requires
        goes_before(blocks, freed, k),
    ensures
        ({
            let (from, to) = replaced(blocks, freed, k);
            let after = merged(blocks, freed);
            let joined = after[from];
            &&& 0 <= from <= k <= to <= blocks.len()
            &&& to - from <= 2
            &&& after == blocks.subrange(0, from) + seq![joined] + blocks.subrange(
                to,
                blocks.len() as int,
            )
            &&& joined.wf()
            &&& joined.start == if from < k {
                blocks[k - 1].start
            } else {
                freed.start
            }
            &&& joined.end() == if k < to {
                blocks[k].end()
            } else {
                freed.end()
            }
            &&& from > 0 ==> blocks[from - 1].end() < joined.start
            &&& to < blocks.len() ==> joined.end() < blocks[to].start
        }),
{
    let (from, to) = replaced(blocks, freed, k);
    let after = merged(blocks, freed);
    if k > 0 {
        assert(blocks[k - 1].wf() && freed.disjoint(blocks[k - 1]));
        if from < k && from > 0 {
            assert(blocks[k - 2].end() < blocks[k - 1].start);
        }
    }
    if k < blocks.len() {
        assert(blocks[k].wf() && freed.disjoint(blocks[k]));
        if k < to && to < blocks.len() {
            assert(blocks[k].end() < blocks[k + 1].start);
        }
    }
    let joined = after[from];
    assert(after =~= blocks.subrange(0, from) + seq![joined] + blocks.subrange(
        to,
        blocks.len() as int,
    ));
}

proof fn lemma_merged_ordered(blocks: Seq<Block>, freed: Block, k: int)
    requires
        goes_before(blocks, freed, k),
    ensures
        ordered(merged(blocks, freed)),
{
    lemma_merged_parts(blocks, freed, k);
    let (from, to) = replaced(blocks, freed, k);
    let after = merged(blocks, freed);
    assert forall|j: int| 0 <= j < after.len() implies (#[trigger] after[j]).wf() by {
        if j < from {
            assert(after[j] == blocks[j]);
        } else if j > from {
            assert(after[j] == blocks[to + (j - from - 1)]);
        }
    }
    assert forall|j: int, m: int| 0 <= j < m < after.len() implies (#[trigger] after[j]).end() < (
    #[trigger] after[m]).start by {
        if m < from {
            assert(after[j] == blocks[j] && after[m] == blocks[m]);
        } else if j > from {
            assert(after[j] == blocks[to + (j - from - 1)] && after[m] == blocks[to + (m - from
                - 1)]);
        } else {
            if j < from {
                assert(after[j] == blocks[j]);
                if j < from - 1 {
                    assert(blocks[j].end() < blocks[from - 1].start);
                    assert(blocks[from - 1].wf());
                }
            }
            if m > from {
                let x = to + (m - from - 1);
                assert(after[m] == blocks[x]);
                if x > to {
                    assert(blocks[to].end() < blocks[x].start);
                    assert(blocks[to].wf());
                }
            }
        }
    }
}

proof fn lemma_merged_total(blocks: Seq<Block>, freed: Block, k: int)
    requires
        goes_before(blocks, freed, k),
    ensures
        total_size(merged(blocks, freed)) == total_size(blocks) + freed.size,
{
    lemma_merged_parts(blocks, freed, k);
    let (from, to) = replaced(blocks, freed, k);
    let joined = merged(blocks, freed)[from];
    let middle = blocks.subrange(from, to);
    lemma_total_replaced(blocks, from, to, seq![joined]);
    lemma_total_of_one(joined);
    if from < k {
        lemma_total_of_one(blocks[k - 1]);
    }
    if k < to {
        lemma_total_of_one(blocks[k]);
    }
    if from < k && k < to {
        lemma_total_of_two(seq![blocks[k - 1]], seq![blocks[k]]);
        assert(middle =~= seq![blocks[k - 1]] + seq![blocks[k]]);
    } else if from < k {
        assert(middle =~= seq![blocks[k - 1]]);
    } else if k < to {
        assert(middle =~= seq![blocks[k]]);
    } else {
        assert(middle =~= Seq::<Block>::empty());
    }
}

#[verifier::rlimit(60)]
#[verifier::spinoff_prover]
proof fn lemma_merged_covers(blocks: Seq<Block>, freed: Block, k: int, a: int)
    requires
        goes_before(blocks, freed, k),
    ensures
        covered(merged(blocks, freed), a) == (covered(blocks, a) || freed.start <= a < freed.end()),
{
    lemma_merged_parts(blocks, freed, k);
    let (from, to) = replaced(blocks, freed, k);
    let after = merged(blocks, freed);
    if covered(after, a) {
        let j = choose|j: int|
            0 <= j < after.len() && (#[trigger] after[j]).start <= a < after[j].end();
        if j < from {
            assert(blocks[j].start <= a < blocks[j].end());
        } else if j > from {
            let x = to + (j - from - 1);
            assert(after[j] == blocks[x]);
            assert(blocks[x].start <= a < blocks[x].end());
        } else {
            if from < k && a < freed.start {
                assert(blocks[k - 1].start <= a < blocks[k - 1].end());
            }
            if k < to && a >= freed.end() {
                assert(blocks[k].start <= a < blocks[k].end());
            }
        }
    }
    if covered(blocks, a) {
        let j = choose|j: int|
            0 <= j < blocks.len() && (#[trigger] blocks[j]).start <= a < blocks[j].end();
        if j < from {
            assert(after[j].start <= a < after[j].end());
        } else if j >= to {
            let x = j - to + from + 1;
            assert(after[x] == blocks[j]);
            assert(after[x].start <= a < after[x].end());
        } else {
            assert(after[from].start <= a < after[from].end());
        }
    }
    if freed.start <= a < freed.end() {
        assert(after[from].start <= a < after[from].end());
    }
}

/// The headers after merging, given those that were written.
proof fn lemma_merged_chained(
    blocks: Seq<Block>,
    freed: Block,
    k: int,
    old_headers: Map<usize, Header>,
    headers: Map<usize, Header>,
)
    requires
        goes_before(blocks, freed, k),
        chained(old_headers, blocks),
        ({
            let (from, to) = replaced(blocks, freed, k);
            let joined = merged(blocks, freed)[from];
            &&& headers[joined.start] == (Header { size: joined.size, next: link(blocks, to) })
            &&& from == k && k > 0 ==> headers[blocks[k - 1].start] == (Header {
                size: blocks[k - 1].size,
                next: joined.start,
            })
            &&& forall|a: usize|
                a != joined.start && !(k > 0 && a == blocks[k - 1].start) ==> #[trigger] headers[a]
                    == old_headers[a]
        }),
    ensures
        chained(headers, merged(blocks, freed)),
{
    lemma_merged_parts(blocks, freed, k);
    let (from, to) = replaced(blocks, freed, k);
    let after = merged(blocks, freed);
    let joined = after[from];
    assert forall|j: int| 0 <= j < after.len() implies #[trigger] headed(headers, after, j) by {
        if j < from {
            assert(headed(old_headers, blocks, j));
            assert(after[j] == blocks[j]);
            assert(blocks[j].wf());
            if j + 1 < from {
                assert(after[j + 1] == blocks[j + 1]);
                assert(blocks[j].end() < blocks[j + 1].start);
            }
            if j < from - 1 {
                assert(blocks[j].end() < blocks[from - 1].start);
                assert(blocks[from - 1].wf());
            }
            if k > 0 && j < k - 1 {
                assert(blocks[j].end() < blocks[k - 1].start);
            }
        } else if j > from {
            let m = to + (j - from - 1);
            assert(headed(old_headers, blocks, m));
            assert(after[j] == blocks[m]);
            if m > to {
                assert(blocks[to].end() < blocks[m].start);
                assert(blocks[to].wf());
            }
            if k > 0 {
                assert(blocks[k - 1].end() < blocks[m].start);
                assert(blocks[k - 1].wf());
            }
            if m + 1 < blocks.len() {
                assert(after[j + 1] == blocks[m + 1]);
            }
        } else if to < blocks.len() {
            assert(after[from + 1] == blocks[to]);
        }
    }
}

/// A block that keeps clear of the free blocks and of the freed one keeps clear of what they
/// become.
proof fn lemma_merged_avoids(blocks: Seq<Block>, freed: Block, other: Block)
    requires
        ordered(blocks),
        freed.wf(),
        other.wf(),
        forall|j: int| 0 <= j < blocks.len() ==> freed.disjoint(#[trigger] blocks[j]),
        forall|j: int| 0 <= j < blocks.len() ==> other.disjoint(#[trigger] blocks[j]),
        other.disjoint(freed),
    ensures
        forall|j: int|
            0 <= j < merged(blocks, freed).len() ==> other.disjoint(
                #[trigger] merged(blocks, freed)[j],
            ),
{
    lemma_place_bounds(blocks, freed.start);
    let k = place_of(blocks, freed.start);
    let after = merged(blocks, freed);
    let jb = k > 0 && blocks[k - 1].end() == freed.start;
    let jn = k < blocks.len() && freed.end() == blocks[k].start;
    let from = if jb { k - 1 } else { k };
    let to = if jn { k + 1 } else { k };
    assert forall|j: int| 0 <= j < after.len() implies other.disjoint(#[trigger] after[j]) by {
        if j < from {
            assert(after[j] == blocks[j]);
        } else if j > from {
            assert(after[j] == blocks[to + (j - from - 1)]);
        } else {
            if jb {
                assert(other.disjoint(blocks[k - 1]));
                assert(blocks[k - 1].wf());
            }
            if jn {
                assert(other.disjoint(blocks[k]));
                assert(blocks[k].wf());
            }
        }
    }
}

/// What allocating `size` bytes aligned to `align` at `start` does: the first free block that
/// they fit loses them, and the block joins the allocated ones.
pub open spec fn took(before: Heap, after: Heap, size: usize, align: usize, start: usize) -> bool {
    let bytes = block_bytes(size as int);
    let alignment = block_alignment(align);
    let blocks = before.free_blocks();
    let i = first_fit(blocks, 0, bytes, alignment);
    &&& 0 <= i < blocks.len()
    &&& start == rounded_up(blocks[i].start as int, alignment)
    &&& after.free_blocks() == carved(blocks, i, start, (start + bytes) as usize)
    &&& after.live() == before.live().push(Block { start, size: bytes as usize })
}

/// What freeing the block at `ptr` for `size` bytes does: it leaves the allocated ones and
/// joins the free memory.
pub open spec fn gave_back(before: Heap, after: Heap, ptr: usize, size: usize) -> bool {
    let freed = Block { start: ptr, size: block_bytes(size as int) as usize };
    &&& before.live().contains(freed)
    &&& after.free_blocks() == merged(before.free_blocks(), freed)
    &&& after.live() == before.live().remove(before.live().index_of(freed))
}

/// One of the two happened, for some block.
pub open spec fn stepped(before: Heap, after: Heap) -> bool {
    ||| exists|size: usize, align: usize, start: usize|
        0 < align && block_bytes(size as int) <= usize::MAX && #[trigger] took(
            before,
            after,
            size,
            align,
            start,
        )
    ||| exists|ptr: usize, size: usize| #[trigger] gave_back(before, after, ptr, size)
}

/// Allocated blocks overlap neither each other nor free memory.
pub proof fn blocks_never_overlap<M: Memory>(heap: &Heap, memory: &M, i: int, j: int)
    requires
        heap.wf(memory),
        0 <= i < heap.live().len(),
    ensures
        0 <= j < heap.live().len() && i != j ==> heap.live()[i].disjoint(heap.live()[j]),
        0 <= j < heap.free_blocks().len() ==> heap.live()[i].disjoint(heap.free_blocks()[j]),
{
    if 0 <= j < heap.live().len() && j < i {
        assert(heap.live()[j].disjoint(heap.live()[i]));
    }
}

/// Every byte of the heap is either allocated or free.
pub proof fn bytes_are_accounted_for<M: Memory>(heap: &Heap, memory: &M)
    requires
        heap.wf(memory),
    ensures
        heap.used() == total_size(heap.live()),
        heap.total() == heap.used() + total_size(heap.free_blocks()),
        ordered(heap.free_blocks()),
{
}

/// A heap with no memory is a heap in any memory.
pub proof fn an_empty_heap_is_a_heap<M: Memory>(heap: &Heap, memory: &M)
    requires
        heap.has_nothing(),
    ensures
        heap.wf(memory),
{
}

/// What programs write to their own blocks doesn't disturb the heap: it only depends on the
/// memory that is free.
pub proof fn only_free_memory_matters<M: Memory>(heap: &Heap, memory: &M, changed: &M)
    requires
        heap.wf(memory),
        forall|a: usize| #[trigger] changed.usable(a) == memory.usable(a),
        forall|a: usize|
            covered(heap.free_blocks(), a as int) ==> #[trigger] changed.headers()[a]
                == memory.headers()[a],
    ensures
        heap.wf(changed),
{
    let blocks = heap.free_blocks();
    assert forall|i: int| 0 <= i < blocks.len() implies #[trigger] headed(
        changed.headers(),
        blocks,
        i,
    ) by {
        assert(headed(memory.headers(), blocks, i));
        assert(blocks[i].wf());
        assert(covered(blocks, blocks[i].start as int));
    }
}

/// Freeing a block right after allocating it makes the free memory what it was: pieces that
/// were cut off are merged back.
pub proof fn freeing_undoes_allocating(blocks: Seq<Block>, i: int, start: usize, end: usize)
    requires
        ordered(blocks),
        0 <= i < blocks.len(),
        blocks[i].start <= start < end <= blocks[i].end(),
        start % BLOCK_ALIGN == 0,
        end % BLOCK_ALIGN == 0,
    ensures
        merged(
            carved(blocks, i, start, end),
            Block { start, size: (end - start) as usize },
        ) == blocks,
{
    let cut = carved(blocks, i, start, end);
    let p = pieces(blocks[i], start, end);
    let freed = Block { start, size: (end - start) as usize };
    lemma_carved_ordered(blocks, i, start, end);
    assert(blocks[i].wf());
    let k = if blocks[i].start < start { i + 1 } else { i };
    if k > i {
        assert(cut[i] == p[0]);
    } else if i > 0 {
        assert(cut[i - 1] == blocks[i - 1]);
        assert(blocks[i - 1].end() < blocks[i].start);
    }
    let n = p.len() as int;
    if k < i + n {
        assert(cut[k] == p[k - i]);
    } else if k < cut.len() {
        assert(cut[k] == blocks[i + 1]);
        assert(blocks[i].end() < blocks[i + 1].start);
    }
    lemma_place(cut, start, k);
    let whole = merged(cut, freed);
    assert(whole =~= blocks);
}

/// The block that is found fits.
proof fn lemma_first_fit(blocks: Seq<Block>, from: int, size: int, align: int)
    requires
        0 <= from,
        first_fit(blocks, from, size, align) < blocks.len(),
    ensures
        from <= first_fit(blocks, from, size, align),
        fits(blocks[first_fit(blocks, from, size, align)], size, align),
    decreases blocks.len() - from,
{
    if from < blocks.len() && !fits(blocks[from], size, align) {
        lemma_first_fit(blocks, from + 1, size, align);
    }
}

/// Carving a block out takes its addresses and no others.
proof fn lemma_carved_covers(blocks: Seq<Block>, i: int, start: usize, end: usize, a: int)
    requires
        ordered(blocks),
        0 <= i < blocks.len(),
        blocks[i].start <= start < end <= blocks[i].end(),
    ensures
        covered(carved(blocks, i, start, end), a) == (covered(blocks, a) && !(start <= a < end)),
{
    let after = carved(blocks, i, start, end);
    let p = pieces(blocks[i], start, end);
    let n = p.len();
    if covered(after, a) {
        let j = choose|j: int|
            0 <= j < after.len() && (#[trigger] after[j]).start <= a < after[j].end();
        lemma_carved_within(blocks, i, start, end, j);
    }
    if covered(blocks, a) && !(start <= a < end) {
        let j = choose|j: int|
            0 <= j < blocks.len() && (#[trigger] blocks[j]).start <= a < blocks[j].end();
        if j < i {
            assert(after[j] == blocks[j]);
        } else if j > i {
            assert(after[j - 1 + n] == blocks[j]);
        } else if a < start {
            assert(after[i] == p[0]);
        } else {
            assert(after[i + n - 1] == p[n - 1]);
        }
    }
}

/// Blocks that don't touch are known by the addresses they cover.
proof fn lemma_same_blocks(a: Seq<Block>, b: Seq<Block>)
    requires
        ordered(a),
        ordered(b),
        forall|x: int| #[trigger] covered(a, x) == covered(b, x),
    ensures
        a == b,
    decreases a.len() + b.len(),
{
    if a.len() == 0 || b.len() == 0 {
        if a.len() > 0 {
            assert(a[0].wf());
            assert(covered(a, a[0].start as int));
        }
        if b.len() > 0 {
            assert(b[0].wf());
            assert(covered(b, b[0].start as int));
            assert(covered(a, b[0].start as int));
        }
        assert(a =~= b);
    } else {
        let la = a.last();
        let lb = b.last();
        lemma_last_reaches(a, b);
        lemma_last_reaches(b, a);
        lemma_last_begins(a, b);
        lemma_last_begins(b, a);
        assert(la == lb);
        let ra = a.drop_last();
        let rb = b.drop_last();
        lemma_ordered_without_last(a);
        lemma_ordered_without_last(b);
        assert forall|x: int| #[trigger] covered(ra, x) == covered(rb, x) by {
            lemma_covered_without_last(a, x);
            lemma_covered_without_last(b, x);
            assert(covered(a, x) == covered(b, x));
        }
        lemma_same_blocks(ra, rb);
        assert(a =~= ra.push(la));
        assert(b =~= rb.push(lb));
    }
}

proof fn lemma_ordered_without_last(blocks: Seq<Block>)
    requires
        ordered(blocks),
        blocks.len() > 0,
    ensures
        ordered(blocks.drop_last()),
{
    let rest = blocks.drop_last();
    assert forall|i: int| 0 <= i < rest.len() implies (#[trigger] rest[i]).wf() by {
        assert(blocks[i].wf());
    }
    assert forall|i: int, j: int| 0 <= i < j < rest.len() implies (#[trigger] rest[i]).end() < (
    #[trigger] rest[j]).start by {
        assert(blocks[i].end() < blocks[j].start);
    }
}

proof fn lemma_covered_without_last(blocks: Seq<Block>, a: int)
    requires
        ordered(blocks),
        blocks.len() > 0,
    ensures
        covered(blocks.drop_last(), a) == (covered(blocks, a) && !(blocks.last().start <= a
            < blocks.last().end())),
{
    let rest = blocks.drop_last();
    let last = blocks.len() - 1;
    if covered(rest, a) {
        let j = choose|j: int|
            0 <= j < rest.len() && (#[trigger] rest[j]).start <= a < rest[j].end();
        assert(rest[j] == blocks[j]);
        assert(blocks[j].end() < blocks[last].start);
    }
    if covered(blocks, a) && !(blocks.last().start <= a < blocks.last().end()) {
        let j = choose|j: int|
            0 <= j < blocks.len() && (#[trigger] blocks[j]).start <= a < blocks[j].end();
        assert(rest[j] == blocks[j]);
    }
}

proof fn lemma_last_reaches(a: Seq<Block>, b: Seq<Block>)
    requires
        ordered(a),
        ordered(b),
        a.len() > 0,
        b.len() > 0,
        forall|x: int| #[trigger] covered(a, x) == covered(b, x),
    ensures
        a.last().end() <= b.last().end(),
{
    let last = a.len() - 1;
    let x = a[last].end() - 1;
    assert(a[last].wf());
    assert(covered(a, x));
    assert(covered(b, x));
    let j = choose|j: int| 0 <= j < b.len() && (#[trigger] b[j]).start <= x < b[j].end();
    if j < b.len() - 1 {
        assert(b[j].end() < b[b.len() - 1].start);
        assert(b[b.len() - 1].wf());
    }
}

proof fn lemma_last_begins(a: Seq<Block>, b: Seq<Block>)
    requires
        ordered(a),
        ordered(b),
        a.len() > 0,
        b.len() > 0,
        a.last().end() == b.last().end(),
        forall|x: int| #[trigger] covered(a, x) == covered(b, x),
    ensures
        a.last().start >= b.last().start,
{
    let n = b.len() - 1;
    let last = a.len() - 1;
    assert(b[n].wf());
    if a[last].start < b[n].start {
        let x = b[n].start - 1;
        assert(a[last].start <= x < a[last].end());
        assert(covered(a, x));
        assert(covered(b, x));
        let j = choose|j: int| 0 <= j < b.len() && (#[trigger] b[j]).start <= x < b[j].end();
        assert(b[j].end() < b[n].start);
    }
}

/// Allocating and freeing move memory between the two sides; none is lost.
proof fn lemma_step_covers<M: Memory>(
    before: Heap,
    first: &M,
    after: Heap,
    second: &M,
    a: int,
)
    requires
        before.wf(first),
        after.wf(second),
        stepped(before, after),
    ensures
        (covered(after.free_blocks(), a) || covered(after.live(), a)) == (covered(
            before.free_blocks(),
            a,
        ) || covered(before.live(), a)),
{
    let blocks = before.free_blocks();
    let live = before.live();
    let later = after.live();
    if exists|size: usize, align: usize, start: usize|
        0 < align && block_bytes(size as int) <= usize::MAX && #[trigger] took(
            before,
            after,
            size,
            align,
            start,
        ) {
        let (size, align, start) = choose|size: usize, align: usize, start: usize|
            0 < align && block_bytes(size as int) <= usize::MAX && #[trigger] took(
                before,
                after,
                size,
                align,
                start,
            );
        let bytes = block_bytes(size as int);
        let alignment = block_alignment(align);
        let i = first_fit(blocks, 0, bytes, alignment);
        lemma_first_fit(blocks, 0, bytes, alignment);
        assert(blocks[i].wf());
        lemma_rounding(blocks[i].start as int, alignment);
        let target = Block { start, size: bytes as usize };
        let end = (start + bytes) as usize;
        assert(later.last() == target);
        assert(later[later.len() - 1].wf());
        lemma_carved_covers(blocks, i, start, end, a);
        if covered(later, a) {
            lemma_allocated_covers(blocks, live, i, target, a);
        }
        if start <= a < end {
            assert(later[later.len() - 1].start <= a < later[later.len() - 1].end());
            assert(blocks[i].start <= a < blocks[i].end());
        } else if covered(live, a) {
            let k = choose|k: int|
                0 <= k < live.len() && (#[trigger] live[k]).start <= a < live[k].end();
            assert(later[k] == live[k]);
        }
    } else {
        let (ptr, size) = choose|ptr: usize, size: usize| #[trigger]
            gave_back(before, after, ptr, size);
        let freed = Block { start: ptr, size: block_bytes(size as int) as usize };
        let at = live.index_of(freed);
        assert(live[at] == freed);
        assert(live[at].wf());
        assert forall|j: int| 0 <= j < blocks.len() implies freed.disjoint(#[trigger] blocks[j]) by {
            assert(live[at].disjoint(blocks[j]));
        }
        let k = place_of(blocks, ptr);
        lemma_place_parts(blocks, ptr);
        lemma_merged_covers(blocks, freed, k, a);
        if covered(later, a) {
            let j = choose|j: int|
                0 <= j < later.len() && (#[trigger] later[j]).start <= a < later[j].end();
            let m = if j < at { j } else { j + 1 };
            assert(later[j] == live[m]);
        }
        if covered(live, a) && !(freed.start <= a < freed.end()) {
            let m = choose|m: int|
                0 <= m < live.len() && (#[trigger] live[m]).start <= a < live[m].end();
            let j = if m < at { m } else { m - 1 };
            assert(later[j] == live[m]);
        }
    }
}

/// The blocks before the place start lower, those behind it don't.
proof fn lemma_place_parts(blocks: Seq<Block>, start: usize)
    requires
        ordered(blocks),
    ensures
        ({
            let k = place_of(blocks, start);
            &&& 0 <= k <= blocks.len()
            &&& k > 0 ==> blocks[k - 1].start < start
            &&& k < blocks.len() ==> blocks[k].start >= start
        }),
    decreases blocks.len(),
{
    if blocks.len() > 0 && !(blocks.last().start < start) {
        lemma_ordered_without_last(blocks);
        lemma_place_parts(blocks.drop_last(), start);
    }
}

proof fn lemma_steps_cover<M: Memory>(heaps: Seq<Heap>, memories: Seq<M>, n: int, a: int)
    requires
        heaps.len() == memories.len(),
        0 <= n < heaps.len(),
        forall|k: int| 0 <= k < heaps.len() ==> (#[trigger] heaps[k]).wf(&memories[k]),
        forall|k: int|
            0 < k < heaps.len() ==> stepped(heaps[k - 1], #[trigger] heaps[k]),
    ensures
        (covered(heaps[n].free_blocks(), a) || covered(heaps[n].live(), a)) == (covered(
            heaps[0].free_blocks(),
            a,
        ) || covered(heaps[0].live(), a)),
    decreases n,
{
    if n > 0 {
        lemma_steps_cover(heaps, memories, n - 1, a);
        assert(heaps[n - 1].wf(&memories[n - 1]));
        assert(heaps[n].wf(&memories[n]));
        lemma_step_covers(heaps[n - 1], &memories[n - 1], heaps[n], &memories[n], a);
    }
}

/// What is free doesn't overlap what is allocated.
proof fn lemma_free_or_live<M: Memory>(heap: Heap, memory: &M, a: int)
    requires
        heap.wf(memory),
    ensures
        !(covered(heap.free_blocks(), a) && covered(heap.live(), a)),
{
    let blocks = heap.free_blocks();
    let live = heap.live();
    if covered(blocks, a) && covered(live, a) {
        let j = choose|j: int|
            0 <= j < blocks.len() && (#[trigger] blocks[j]).start <= a < blocks[j].end();
        let k = choose|k: int|
            0 <= k < live.len() && (#[trigger] live[k]).start <= a < live[k].end();
        assert(live[k].disjoint(blocks[j]));
    }
}

/// Blocks can be allocated and freed in any order: once just those are left that there were at
/// first, the free memory is what it was, merged into the same blocks. A heap made of one
/// range is one block again once everything has been freed.
pub proof fn freeing_everything_restores_the_heap<M: Memory>(heaps: Seq<Heap>, memories: Seq<M>)
    requires
        heaps.len() == memories.len(),
        heaps.len() > 0,
        forall|k: int| 0 <= k < heaps.len() ==> (#[trigger] heaps[k]).wf(&memories[k]),
        forall|k: int|
            0 < k < heaps.len() ==> stepped(heaps[k - 1], #[trigger] heaps[k]),
        heaps.last().live() == heaps[0].live(),
    ensures
        heaps.last().free_blocks() == heaps[0].free_blocks(),
        heaps.last().used() == heaps[0].used(),
        heaps.last().total() == heaps[0].total(),
{
    let n = heaps.len() - 1;
    assert(heaps[0].wf(&memories[0]));
    assert(heaps[n].wf(&memories[n]));
    let a = heaps[n].free_blocks();
    let b = heaps[0].free_blocks();
    assert forall|x: int| #[trigger] covered(a, x) == covered(b, x) by {
        lemma_steps_cover(heaps, memories, n, x);
        lemma_free_or_live(heaps[0], &memories[0], x);
        lemma_free_or_live(heaps[n], &memories[n], x);
    }
    lemma_same_blocks(a, b);
}

proof fn lemma_no_fit(blocks: Seq<Block>, from: int, size: int, align: int)
    requires
        0 <= from <= blocks.len(),
        first_fit(blocks, from, size, align) == blocks.len(),
    ensures
        forall|i: int| from <= i < blocks.len() ==> !fits(#[trigger] blocks[i], size, align),
    decreases blocks.len() - from,
{
    if from < blocks.len() {
        lemma_no_fit(blocks, from + 1, size, align);
    }
}

/// What was allocated is where it was asked to be: at a multiple of the alignment, in memory that
/// was free, with room for as many bytes as were asked for.
pub proof fn blocks_are_aligned_and_big_enough(
    before: Heap,
    after: Heap,
    size: usize,
    align: usize,
    start: usize,
)
    requires
        took(before, after, size, align, start),
        align == 1 || align == 2 || align == 4 || align == 8 || (align > 0 && align % 16 == 0),
        block_bytes(size as int) <= usize::MAX,
    ensures
        start % align == 0,
        start % 16 == 0,
        exists|block: Block| #[trigger]
            after.live().contains(block) && block.start == start && block.size >= size && block.size
                > 0 && block.size < size + 32,
        exists|i: int|
            0 <= i < before.free_blocks().len() && (#[trigger] before.free_blocks()[i]).start
                <= start && start + size <= before.free_blocks()[i].end(),
{
    let bytes = block_bytes(size as int);
    let alignment = block_alignment(align);
    let blocks = before.free_blocks();
    let i = first_fit(blocks, 0, bytes, alignment);
    lemma_first_fit(blocks, 0, bytes, alignment);
    vstd::arithmetic::div_mod::lemma_mod_multiples_basic(
        (blocks[i].start + alignment - 1) / alignment,
        alignment,
    );
    vstd::arithmetic::div_mod::lemma_fundamental_div_mod(
        blocks[i].start + alignment - 1,
        alignment,
    );
    assert(start as int % alignment == 0);
    assert((blocks[i].start + alignment - 1) / alignment * alignment == alignment * ((
    blocks[i].start + alignment - 1) / alignment)) by (nonlinear_arith);
    assert(blocks[i].start <= start);
    if align % 16 == 0 {
        let times = align as int / 16;
        let count = start as int / align as int;
        vstd::arithmetic::div_mod::lemma_fundamental_div_mod(start as int, align as int);
        assert(align as int * count == 16 * (times * count)) by (nonlinear_arith)
            requires
                align as int == 16 * times,
        ;
        assert(start == 16 * (times * count));
        assert(alignment == align);
    } else {
        assert(start % 16 == 0);
        assert(start % 8 == 0 && start % 4 == 0 && start % 2 == 0 && start % 1 == 0);
    }
    let block = Block { start, size: bytes as usize };
    assert(after.live()[before.live().len() as int] == block);
    assert(after.live().contains(block));
}

/// There is no memory left only if there is none: where nothing is found, no free block has room
/// for as many bytes at any address of that alignment.
pub proof fn free_memory_is_found(heap: &Heap, size: usize, align: usize, i: int, at: int)
    requires
        first_fit(
            heap.free_blocks(),
            0,
            block_bytes(size as int),
            block_alignment(align),
        ) == heap.free_blocks().len(),
        align == 1 || align == 2 || align == 4 || align == 8 || (align > 0 && align % 16 == 0),
        0 <= i < heap.free_blocks().len(),
        heap.free_blocks()[i].start <= at,
        at % 16 == 0,
        at % align as int == 0,
    ensures
        at + block_bytes(size as int) > heap.free_blocks()[i].end(),
{
    let blocks = heap.free_blocks();
    let alignment = block_alignment(align);
    lemma_no_fit(blocks, 0, block_bytes(size as int), alignment);
    assert(!fits(blocks[i], block_bytes(size as int), alignment));
    let start = blocks[i].start as int;
    let count = at / alignment;
    vstd::arithmetic::div_mod::lemma_fundamental_div_mod(at, alignment);
    let steps = (start + alignment - 1) / alignment;
    vstd::arithmetic::div_mod::lemma_fundamental_div_mod(start + alignment - 1, alignment);
    assert(at % alignment == 0);
    assert(steps <= count) by (nonlinear_arith)
        requires
            alignment > 0,
            start <= alignment * count,
            alignment * steps <= start + alignment - 1,
    ;
    assert(steps * alignment <= at) by (nonlinear_arith)
        requires
            alignment > 0,
            steps <= count,
            at == alignment * count,
    ;
}

} // verus!
