//! The program's heap: the allocator over memory that the kernel grows the program by, whenever
//! an allocation doesn't fit.

use crate::abi::layout::PAGE_SIZE;
use crate::abi::{Errno, Syscall};
use crate::heap::{self, Block, Heap, Memory, BLOCK_ALIGN};
use vstd::arithmetic::power2;
use vstd::prelude::*;

verus! {

/// The heap grows by at least this much at a time, so small allocations don't each need a
/// system call.
pub const GROW_BY: usize = 64 * 1024;

/// How much the heap grows by when `size` bytes aligned to `align` don't fit: enough for them
/// wherever alignment puts them, in whole pages.
pub open spec fn growth(size: usize, align: usize) -> int {
    heap::rounded_up(
        if size + align > GROW_BY {
            size + align
        } else {
            GROW_BY as int
        },
        PAGE_SIZE as int,
    )
}

fn growth_for(size: usize, align: usize) -> (len: usize)
    requires
        can_be_asked(size, align),
    ensures
        len == growth(size, align),
{
    proof {
        lemma_room(size, align);
    }
    let wanted: usize = if size + align > GROW_BY {
        size + align
    } else {
        GROW_BY
    };
    let past: usize = wanted % PAGE_SIZE as usize;
    if past == 0 {
        wanted
    } else {
        wanted + (PAGE_SIZE as usize - past)
    }
}

/// What an allocation comes to.
pub enum Allocation {
    /// The address of the block.
    Block(usize),
    /// There is no room until the heap has grown by this many bytes.
    Grow(usize),
}

/// What can be asked of the allocator: alignments are powers of two, and no block is bigger
/// than the address space.
pub open spec fn can_be_asked(size: usize, align: usize) -> bool {
    &&& power2::is_pow2(align as int)
    &&& growth(size, align) <= usize::MAX
}

/// Allocates `size` bytes aligned to `align`, or says how much the heap has to grow by for
/// that.
pub fn allocate<M: Memory>(program: &mut Heap, memory: &mut M, size: usize, align: usize) -> (r:
    Allocation)
    requires
        old(program).wf(old(memory)),
        can_be_asked(size, align),
    ensures
        final(program).wf(final(memory)),
        ({
            let bytes = heap::block_bytes(size as int);
            let alignment = heap::block_alignment(align);
            let blocks = old(program).free_blocks();
            let i = heap::first_fit(blocks, 0, bytes, alignment);
            match r {
                Allocation::Block(start) => {
                    &&& 0 <= i < blocks.len()
                    &&& start == heap::rounded_up(blocks[i].start as int, alignment)
                    &&& final(program).free_blocks() == heap::carved(
                        blocks,
                        i,
                        start,
                        (start + bytes) as usize,
                    )
                    &&& final(program).live() == old(program).live().push(
                        Block { start, size: bytes as usize },
                    )
                },
                Allocation::Grow(len) => {
                    &&& i == blocks.len()
                    &&& len == growth(size, align)
                    &&& *final(program) == *old(program)
                },
            }
        }),
{
    proof {
        lemma_room(size, align);
    }
    match program.allocate(memory, size, align) {
        Some(block) => Allocation::Block(block),
        None => {
            Allocation::Grow(growth_for(size, align))
        },
    }
}

/// The call that asks for `len` bytes more.
pub fn grow(len: usize) -> (r: Syscall)
    ensures
        r == (Syscall::Grow { len: len as u64 }),
{
    Syscall::Grow { len: len as u64 }
}

/// Takes in the memory that the heap was grown by, and allocates from it: that always works,
/// if the kernel had the memory. New memory follows on from the last, so it merges with any
/// free block at the end of the heap.
pub fn grown<M: Memory>(
    program: &mut Heap,
    memory: &mut M,
    result: Result<u64, Errno>,
    size: usize,
    align: usize,
) -> (r: Option<usize>)
    requires
        old(program).wf(old(memory)),
        can_be_asked(size, align),
        result matches Ok(start) ==> is_new_memory(
            old(program),
            old(memory),
            start as int,
            growth(size, align),
        ),
    ensures
        final(program).wf(final(memory)),
        match result {
            Err(_) => r is None && *final(program) == *old(program),
            Ok(start) => {
                let bytes = heap::block_bytes(size as int);
                let alignment = heap::block_alignment(align);
                let blocks = heap::merged(
                    old(program).free_blocks(),
                    Block { start: start as usize, size: growth(size, align) as usize },
                );
                let i = heap::first_fit(blocks, 0, bytes, alignment);
                &&& 0 <= i < blocks.len()
                &&& r matches Some(block)
                &&& block == heap::rounded_up(blocks[i].start as int, alignment)
                &&& final(program).free_blocks() == heap::carved(
                    blocks,
                    i,
                    block,
                    (block + bytes) as usize,
                )
                &&& final(program).live() == old(program).live().push(
                    Block { start: block, size: bytes as usize },
                )
            },
        },
{
    proof {
        lemma_room(size, align);
    }
    match result {
        Ok(start) => {
            let start: usize = start as usize;
            let len: usize = growth_for(size, align);
            proof {
                heap::bytes_are_accounted_for(program, memory);
            }
            program.extend(memory, start, start + len);
            proof {
                growing_makes_room(old(program).free_blocks(), start, size, align);
            }
            program.allocate(memory, size, align)
        },
        Err(_) => None,
    }
}

/// Whether `start..start + len` is whole pages of memory that a heap can have and doesn't have
/// yet.
pub open spec fn is_new_memory<M: Memory>(
    program: &Heap,
    memory: &M,
    start: int,
    len: int,
) -> bool {
    &&& 0 < start
    &&& start % PAGE_SIZE as int == 0
    &&& start + len <= usize::MAX
    &&& program.total() + len <= usize::MAX
    &&& forall|a: usize|
        start <= a < start + len && a % BLOCK_ALIGN == 0 ==> #[trigger] memory.usable(a)
    &&& forall|i: int|
        0 <= i < program.free_blocks().len() ==> (#[trigger] program.free_blocks()[i]).end()
            <= start || start + len <= program.free_blocks()[i].start
    &&& forall|i: int|
        0 <= i < program.live().len() ==> (#[trigger] program.live()[i]).end() <= start || start
            + len <= program.live()[i].start
}

/// Powers of two divide a page, or a page divides them; so it is with the smallest block.
proof fn lemma_power(align: usize)
    requires
        power2::is_pow2(align as int),
    ensures
        0 < align,
        align <= BLOCK_ALIGN || align % BLOCK_ALIGN == 0,
        PAGE_SIZE as int % align as int == 0 || align as int % PAGE_SIZE as int == 0,
{
    power2::is_pow2_equiv(align as int);
    let e = choose|e: nat| vstd::arithmetic::power::pow(2, e) == align;
    assert(power2::pow2(e) == align);
    power2::lemma2_to64();
    power2::lemma_pow2_pos(e);
    if e <= 4 {
        if e < 4 {
            power2::lemma_pow2_strictly_increases(e, 4);
        }
    } else {
        power2::lemma_pow2_adds(4, (e - 4) as nat);
        vstd::arithmetic::div_mod::lemma_mod_multiples_basic(
            power2::pow2((e - 4) as nat) as int,
            16,
        );
        assert(power2::pow2((e - 4) as nat) * 16 == align);
    }
    if e <= 12 {
        power2::lemma_pow2_adds(e, (12 - e) as nat);
        let times = power2::pow2((12 - e) as nat) as int;
        assert(times * align == align * times) by (nonlinear_arith);
        vstd::arithmetic::div_mod::lemma_mod_multiples_basic(times, align as int);
    } else {
        power2::lemma_pow2_adds(12, (e - 12) as nat);
        let times = power2::pow2((e - 12) as nat) as int;
        assert(times * 4096 == align);
        vstd::arithmetic::div_mod::lemma_mod_multiples_basic(times, 4096);
    }
}

/// The growth is whole pages, and enough for the block.
proof fn lemma_room(size: usize, align: usize)
    requires
        can_be_asked(size, align),
    ensures
        0 < align,
        align <= BLOCK_ALIGN || align % BLOCK_ALIGN == 0,
        size + align <= growth(size, align),
        GROW_BY <= growth(size, align),
        growth(size, align) % PAGE_SIZE as int == 0,
        heap::block_bytes(size as int) <= growth(size, align) <= usize::MAX,
        heap::block_bytes(size as int) <= size + BLOCK_ALIGN,
        heap::block_bytes(size as int) > 0,
{
    lemma_power(align);
}

proof fn lemma_first_fit(blocks: Seq<Block>, from: int, size: int, align: int, at: int)
    requires
        0 <= from <= at < blocks.len(),
        heap::fits(blocks[at], size, align),
    ensures
        from <= heap::first_fit(blocks, from, size, align) <= at,
    decreases blocks.len() - from,
{
    if !heap::fits(blocks[from], size, align) {
        lemma_first_fit(blocks, from + 1, size, align, at);
    }
}

proof fn lemma_place_is_among(blocks: Seq<Block>, start: usize)
    ensures
        0 <= heap::place_of(blocks, start) <= blocks.len(),
    decreases blocks.len(),
{
    if blocks.len() > 0 {
        lemma_place_is_among(blocks.drop_last(), start);
    }
}

/// Rounding up what starts a page leaves room for at least a page less than the alignment.
proof fn lemma_rounded(before: int, start: int, align: int)
    requires
        0 <= before <= start,
        start % PAGE_SIZE as int == 0,
        0 < align,
        PAGE_SIZE as int % align == 0 || align % PAGE_SIZE as int == 0,
    ensures
        PAGE_SIZE as int % align == 0 ==> heap::rounded_up(before, align) <= start,
        PAGE_SIZE as int % align != 0 ==> heap::rounded_up(before, align) <= start + align
            - PAGE_SIZE,
{
    let page = PAGE_SIZE as int;
    let up = heap::rounded_up(before, align);
    vstd::arithmetic::div_mod::lemma_fundamental_div_mod(before + align - 1, align);
    assert(up == align * ((before + align - 1) / align)) by {
        vstd::arithmetic::mul::lemma_mul_is_commutative(align, (before + align - 1) / align);
    }
    assert(up <= before + align - 1);
    if page % align == 0 {
        // The start is a multiple of the alignment, and so is what is rounded up.
        let times = start / page;
        let per = page / align;
        vstd::arithmetic::div_mod::lemma_fundamental_div_mod(page, align);
        vstd::arithmetic::div_mod::lemma_fundamental_div_mod(start, page);
        let whole = per * times;
        assert(start == align * whole) by (nonlinear_arith)
            requires
                start == page * times,
                page == align * per,
                whole == per * times,
        ;
        let k = (before + align - 1) / align;
        assert(k <= whole) by (nonlinear_arith)
            requires
                align * k <= align * whole + align - 1,
                align > 0,
        ;
        assert(align * k <= align * whole) by (nonlinear_arith)
            requires
                k <= whole,
                align > 0,
        ;
    } else {
        // Both are whole pages.
        let pages = align / page;
        let k = (before + align - 1) / align;
        vstd::arithmetic::div_mod::lemma_fundamental_div_mod(align, page);
        assert(up == page * (pages * k)) by (nonlinear_arith)
            requires
                up == align * k,
                align == page * pages,
        ;
        assert(up % page == 0) by {
            vstd::arithmetic::mul::lemma_mul_is_commutative(page, pages * k);
            vstd::arithmetic::div_mod::lemma_mod_multiples_basic(pages * k, page);
        }
        assert(up <= start + align - page);
    }
}

/// A heap that grew has room: whatever was free before, the block that didn't fit is found in
/// the free blocks once the new memory is among them.
pub proof fn growing_makes_room(blocks: Seq<Block>, start: usize, size: usize, align: usize)
    requires
        heap::ordered(blocks),
        can_be_asked(size, align),
        start % PAGE_SIZE as usize == 0,
        start + growth(size, align) <= usize::MAX,
    ensures
        ({
            let new = Block { start, size: growth(size, align) as usize };
            let i = heap::first_fit(
                heap::merged(blocks, new),
                0,
                heap::block_bytes(size as int),
                heap::block_alignment(align),
            );
            0 <= i < heap::merged(blocks, new).len()
        }),
{
    let new = Block { start, size: growth(size, align) as usize };
    let after = heap::merged(blocks, new);
    let k = heap::place_of(blocks, start);
    lemma_place_is_among(blocks, start);
    lemma_room(size, align);
    lemma_power(align);
    let joins_before = k > 0 && blocks[k - 1].end() == start;
    let at = if joins_before {
        k - 1
    } else {
        k
    };
    if k > 0 {
        assert(blocks[k - 1].wf());
    }
    if k < blocks.len() {
        assert(blocks[k].wf());
    }
    let bytes = heap::block_bytes(size as int);
    let alignment = heap::block_alignment(align);
    assert(after[at].start <= start && start + new.size <= after[at].end());
    lemma_rounded(after[at].start as int, start as int, alignment);
    assert(heap::fits(after[at], bytes, alignment));
    lemma_first_fit(after, 0, bytes, alignment, at);
}

/// A heap grows by whole pages: by 64KB, or by enough for what is asked for and its alignment if
/// that is more, and by less than a page more than that.
pub proof fn heaps_grow_by_whole_pages(size: usize, align: usize)
    ensures
        growth(size, align) % 4096 == 0,
        growth(size, align) >= 65536,
        growth(size, align) >= size + align,
        size + align <= 65536 ==> growth(size, align) == 65536,
        size + align > 65536 ==> growth(size, align) < size + align + 4096,
{
}

} // verus!
