//! Physical page frames: which 4KB pages of RAM are free, one bit each.
//!
//! Allocation is next-fit: the search resumes after the last frame handed out, so frames
//! are spread out rather than the same few reused, and a run of allocations is quick.

use crate::abi::layout::PAGE_SIZE;
use vstd::prelude::*;

verus! {

#[derive(Clone, Copy, Debug, PartialEq, Eq, Structural)]
pub enum FrameError {
    /// Not the address of a frame this allocator manages.
    NotAFrame,
    /// Freed already, or never allocated.
    NotAllocated,
}

#[derive(Clone, Copy, Debug, PartialEq, Eq, Structural)]
pub struct FrameStats {
    pub total: usize,
    pub free: usize,
}

/// Bit `n` of a bitmap.
spec fn bit(words: Seq<u64>, n: int) -> bool {
    (words[n / 64] >> ((n % 64) as u64)) & 1u64 == 1u64
}

proof fn lemma_bits_of_word(w: u64, b: u64, k: u64)
    by (bit_vector)
    requires
        b < 64,
        k < 64,
    ensures
        ((w | (1u64 << b)) >> k) & 1u64 == (if k == b {
            1u64
        } else {
            (w >> k) & 1u64
        }),
        ((w & !(1u64 << b)) >> k) & 1u64 == (if k == b {
            0u64
        } else {
            (w >> k) & 1u64
        }),
        (w & (1u64 << b) == 0) == ((w >> b) & 1u64 == 0),
        (w >> k) & 1u64 == 0 || (w >> k) & 1u64 == 1,
        ((0xFFFF_FFFF_FFFF_FFFFu64 << b) >> k) & 1u64 == (if k >= b {
            1u64
        } else {
            0u64
        }),
        ((w | !(0xFFFF_FFFF_FFFF_FFFFu64 << b)) >> k) & 1u64 == (if k < b {
            1u64
        } else {
            (w >> k) & 1u64
        }),
        (0u64 >> k) & 1u64 == 0,
        (0xFFFF_FFFF_FFFF_FFFFu64 >> k) & 1u64 == 1,
{
}

/// How far a frame is in a search that starts at `start`.
proof fn lemma_distance(start: int, n: int, count: int)
    requires
        0 <= start < count,
        0 <= n < count,
    ensures
        (n - start) % count == if n >= start {
            n - start
        } else {
            n - start + count
        },
{
    if n >= start {
        vstd::arithmetic::div_mod::lemma_small_mod((n - start) as nat, count as nat);
    } else {
        vstd::arithmetic::div_mod::lemma_small_mod((n - start + count) as nat, count as nat);
        vstd::arithmetic::div_mod::lemma_mod_add_multiples_vanish(n - start, count);
    }
}

/// How many of the first `n` frames are free.
pub open spec fn free_below(allocated: Set<int>, n: nat) -> nat
    decreases n,
{
    if n == 0 {
        0
    } else {
        free_below(allocated, (n - 1) as nat) + if allocated.contains(n - 1) {
            0nat
        } else {
            1nat
        }
    }
}

/// Allocating one more frame leaves one fewer free.
pub proof fn lemma_free_changes(a: Set<int>, n: nat, at: int)
    requires
        0 <= at,
        !a.contains(at),
    ensures
        free_below(a, n) == free_below(a.insert(at), n) + if at < n {
            1nat
        } else {
            0nat
        },
    decreases n,
{
    if n > 0 {
        lemma_free_changes(a, (n - 1) as nat, at);
    }
}

/// With nothing allocated, everything is free.
pub proof fn lemma_all_free(a: Set<int>, n: nat)
    requires
        forall|i: int| 0 <= i < n ==> !#[trigger] a.contains(i),
    ensures
        free_below(a, n) == n,
    decreases n,
{
    if n > 0 {
        lemma_all_free(a, (n - 1) as nat);
    }
}

/// No more frames are free than there are.
pub proof fn lemma_free_bounded(a: Set<int>, n: nat)
    ensures
        free_below(a, n) <= n,
    decreases n,
{
    if n > 0 {
        lemma_free_bounded(a, (n - 1) as nat);
    }
}

/// With everything allocated, nothing is free.
pub proof fn lemma_all_taken(a: Set<int>, n: nat)
    requires
        forall|i: int| 0 <= i < n ==> #[trigger] a.contains(i),
    ensures
        free_below(a, n) == 0,
    decreases n,
{
    if n > 0 {
        lemma_all_taken(a, (n - 1) as nat);
    }
}

pub struct Frames {
    /// Physical address of frame 0.
    base: u64,
    count: usize,
    /// Bit `n` is set while frame `n` is allocated.
    used: Vec<u64>,
    free: usize,
    /// The frame that the next search starts at.
    next: usize,
}

/// The first whole page at or after `start`.
pub open spec fn first_page(start: u64) -> int {
    (start + PAGE_SIZE - 1) / PAGE_SIZE as int * PAGE_SIZE
}

impl Frames {
    pub closed spec fn wf(&self) -> bool {
        &&& self.used@.len() == (self.count + 63) / 64
        &&& self.base + self.count * PAGE_SIZE <= u64::MAX
        &&& self.base % PAGE_SIZE == 0
        &&& forall|n: int| self.count <= n < self.used@.len() * 64 ==> #[trigger] bit(self.used@, n)
        &&& self.free == free_below(self.allocated(), self.count as nat)
        &&& self.next < self.count || self.next == 0
    }

    /// Physical address of frame 0.
    pub closed spec fn base(&self) -> u64 {
        self.base
    }

    /// How many frames there are.
    pub closed spec fn count(&self) -> usize {
        self.count
    }

    /// Which frames, by number, are allocated.
    pub closed spec fn allocated(&self) -> Set<int> {
        Set::new(|n: int| 0 <= n < self.count && bit(self.used@, n))
    }

    /// The number of the frame that the next search starts at: the one after the last that was
    /// handed out, which is frame 0 after the last frame of all.
    pub closed spec fn search_start(&self) -> int {
        self.next as int
    }

    /// How many frames the search passes before it comes to frame `n`.
    pub open spec fn search_distance(&self, n: int) -> int {
        (n - self.search_start()) % self.count() as int
    }

    /// The physical address of frame `n`.
    pub open spec fn address(&self, n: int) -> int {
        self.base() + n * PAGE_SIZE
    }

    /// The number of the frame at `frame`, if one is.
    pub open spec fn frame_number(&self, frame: u64) -> Option<int> {
        let offset = frame - self.base();
        if offset >= 0 && offset % PAGE_SIZE as int == 0 && (offset / PAGE_SIZE as int)
            < self.count() {
            Some(offset / PAGE_SIZE as int)
        } else {
            None
        }
    }

    /// Manages the whole pages in `start..end`, all free.
    pub fn new(start: u64, end: u64) -> (r: Self)
        requires
            first_page(start) <= u64::MAX,
            (end - first_page(start)) / PAGE_SIZE as int <= usize::MAX,
        ensures
            r.wf(),
            r.base() == first_page(start),
            r.count() == if end <= first_page(start) {
                0
            } else {
                (end - first_page(start)) / PAGE_SIZE as int
            },
            r.allocated() == Set::<int>::empty(),
            r.search_start() == 0,
    {
        let past: u64 = start % PAGE_SIZE;
        let base: u64 = if past == 0 {
            start
        } else {
            start + (PAGE_SIZE - past)
        };
        assert(base == first_page(start));
        let count: usize = if end <= base {
            0
        } else {
            ((end - base) / PAGE_SIZE) as usize
        };
        let words: usize = count / 64 + (if count % 64 != 0 {
            1
        } else {
            0
        });
        let mut used: Vec<u64> = vec![0u64; words];
        // Bits past the last frame count as allocated, so they're never handed out.
        if count % 64 != 0 {
            used[words - 1] = 0xFFFF_FFFF_FFFF_FFFFu64 << ((count % 64) as u64);
        }
        let r = Frames { base, count, used, free: count, next: 0 };
        proof {
            assert forall|n: int| 0 <= n < words * 64 implies #[trigger] bit(r.used@, n) == (n
                >= count) by {
                lemma_bits_of_word(0, (count % 64) as u64, (n % 64) as u64);
            }
            assert(r.allocated() =~= Set::<int>::empty());
            lemma_all_free(r.allocated(), count as nat);
        }
        r
    }

    /// A free frame's physical address, now allocated. Its contents are whatever was there.
    pub fn allocate(&mut self) -> (r: Option<u64>)
        requires
            old(self).wf(),
        ensures
            final(self).wf(),
            final(self).base() == old(self).base(),
            final(self).count() == old(self).count(),
            match r {
                None => {
                    &&& forall|n: int|
                        0 <= n < old(self).count() ==> #[trigger] old(self).allocated().contains(n)
                    &&& *final(self) == *old(self)
                },
                Some(frame) => exists|n: int|
                    {
                        &&& 0 <= n < old(self).count()
                        &&& frame == old(self).address(n)
                        &&& !#[trigger] old(self).allocated().contains(n)
                        &&& final(self).allocated() == old(self).allocated().insert(n)
                        &&& forall|m: int|
                            0 <= m < old(self).count() && !#[trigger] old(self).allocated().contains(m)
                                ==> old(self).search_distance(n) <= old(self).search_distance(m)
                        &&& final(self).search_start() == (n + 1) % old(self).count() as int
                    },
            },
    {
        let found = match self.first_free(self.next) {
            Some(n) => Some(n),
            None => self.first_free(0),
        };
        match found {
            Some(n) => {
                let frame = self.take(n);
                proof {
                    assert(!old(self).allocated().contains(n as int));
                    assert forall|m: int|
                        0 <= m < old(self).count() && !#[trigger] old(self).allocated().contains(
                            m,
                        ) implies old(self).search_distance(n as int) <= old(
                        self).search_distance(m) by {
                        assert(!bit(old(self).used@, m));
                        lemma_distance(old(self).next as int, n as int, old(self).count as int);
                        lemma_distance(old(self).next as int, m, old(self).count as int);
                    }
                }
                Some(frame)
            },
            None => {
                assert forall|n: int| 0 <= n < self.count implies #[trigger] self.allocated().contains(
                    n,
                ) by {
                    assert(bit(self.used@, n));
                }
                None
            },
        }
    }

    /// The first free frame from frame `from` on.
    fn first_free(&self, from: usize) -> (r: Option<usize>)
        requires
            self.wf(),
            from < self.count || from == 0,
        ensures
            match r {
                Some(n) => {
                    &&& from <= n < self.count
                    &&& !bit(self.used@, n as int)
                    &&& forall|m: int| from <= m < n ==> #[trigger] bit(self.used@, m)
                },
                None => forall|m: int| from <= m < self.count ==> #[trigger] bit(self.used@, m),
            },
    {
        let words = self.used.len();
        let mut word: usize = from / 64;
        // Bits before the first frame count as allocated, so they're passed over.
        let mut skipped: u64 = !(0xFFFF_FFFF_FFFF_FFFFu64 << ((from % 64) as u64));
        let ghost mut start: int = (from % 64) as int;
        while word < words
            invariant
                self.wf(),
                words == self.used@.len(),
                from / 64 <= word,
                0 <= start < 64,
                skipped == !(0xFFFF_FFFF_FFFF_FFFFu64 << (start as u64)),
                word * 64 + start >= from,
                word == from / 64 ==> start == from % 64,
                word > from / 64 ==> start == 0,
                forall|m: int|
                    from <= m < word * 64 && m < self.count ==> #[trigger] bit(self.used@, m),
            decreases words - word,
        {
            let w = self.used[word];
            let seen: u64 = w | skipped;
            if seen != 0xFFFF_FFFF_FFFF_FFFF {
                proof {
                    vstd::std_specs::bits::axiom_u64_trailing_ones(seen);
                }
                let first: usize = seen.trailing_ones() as usize;
                let ghost n = word * 64 + first;
                proof {
                    lemma_bits_of_word(w, start as u64, first as u64);
                    assert(n / 64 == word && n % 64 == first);
                    assert(!bit(self.used@, n));
                    assert(n < self.count);
                    assert forall|m: int| from <= m < n implies #[trigger] bit(self.used@, m) by {
                        if m / 64 == word {
                            let k = (m % 64) as u64;
                            lemma_bits_of_word(w, start as u64, k);
                            assert((seen >> k) & 1u64 == 1u64);
                        }
                    }
                }
                return Some(word * 64 + first);
            }
            assert forall|m: int|
                from <= m < (word + 1) * 64 && m < self.count implies #[trigger] bit(
                self.used@,
                m,
            ) by {
                if m / 64 == word {
                    let k = (m % 64) as u64;
                    lemma_bits_of_word(w, start as u64, k);
                }
            }
            word += 1;
            skipped = 0;
            proof {
                start = 0;
                assert(!(0xFFFF_FFFF_FFFF_FFFFu64 << 0u64) == 0u64) by (bit_vector);
            }
        }
        None
    }

    /// Allocates free frame `n`.
    fn take(&mut self, n: usize) -> (frame: u64)
        requires
            old(self).wf(),
            n < old(self).count,
            !bit(old(self).used@, n as int),
        ensures
            final(self).wf(),
            final(self).base() == old(self).base(),
            final(self).count() == old(self).count(),
            frame == old(self).address(n as int),
            final(self).allocated() == old(self).allocated().insert(n as int),
            final(self).search_start() == (n + 1) % old(self).count() as int,
    {
        let word: usize = n / 64;
        let b: u64 = (n % 64) as u64;
        let w = self.used[word];
        let ghost before = self.used@;
        assert forall|m: int| 0 <= m < before.len() * 64 implies #[trigger] bit(
            before.update(word as int, w | (1u64 << b)),
            m,
        ) == (m == n || bit(before, m)) by {
            lemma_bits_of_word(w, b, (m % 64) as u64);
        }
        self.used[word] = w | (1u64 << b);
        assert(self.used@ =~= before.update(word as int, w | (1u64 << b)));
        proof {
            assert(self.allocated() =~= old(self).allocated().insert(n as int));
            lemma_free_changes(old(self).allocated(), self.count as nat, n as int);
        }
        self.free -= 1;
        self.next = if n + 1 < self.count {
            n + 1
        } else {
            0
        };
        proof {
            if n + 1 < self.count {
                vstd::arithmetic::div_mod::lemma_small_mod((n + 1) as nat, self.count as nat);
            } else {
                vstd::arithmetic::div_mod::lemma_mod_self_0(self.count as int);
            }
        }
        assert(n * PAGE_SIZE < self.count * PAGE_SIZE);
        self.base + n as u64 * PAGE_SIZE
    }

    /// Makes an allocated frame free again.
    pub fn free(&mut self, frame: u64) -> (r: Result<(), FrameError>)
        requires
            old(self).wf(),
        ensures
            final(self).wf(),
            final(self).base() == old(self).base(),
            final(self).count() == old(self).count(),
            final(self).search_start() == old(self).search_start(),
            match old(self).frame_number(frame) {
                None => r == Err::<(), FrameError>(FrameError::NotAFrame) && *final(self) == *old(
                    self,
                ),
                Some(n) => if !old(self).allocated().contains(n) {
                    r == Err::<(), FrameError>(FrameError::NotAllocated) && *final(self) == *old(
                        self,
                    )
                } else {
                    r is Ok && final(self).allocated() == old(self).allocated().remove(n)
                },
            },
    {
        if frame < self.base {
            return Err(FrameError::NotAFrame);
        }
        let offset: u64 = frame - self.base;
        if offset % PAGE_SIZE != 0 || offset / PAGE_SIZE >= self.count as u64 {
            return Err(FrameError::NotAFrame);
        }
        let n: usize = (offset / PAGE_SIZE) as usize;
        let word: usize = n / 64;
        let at: u64 = (n % 64) as u64;
        let w = self.used[word];
        proof {
            lemma_bits_of_word(w, at, at);
        }
        if w & (1u64 << at) == 0 {
            return Err(FrameError::NotAllocated);
        }
        let ghost before = self.used@;
        proof {
            assert forall|m: int| 0 <= m < before.len() * 64 implies #[trigger] bit(
                before.update(word as int, w & !(1u64 << at)),
                m,
            ) == (m != n && bit(before, m)) by {
                lemma_bits_of_word(w, at, (m % 64) as u64);
            }
        }
        self.used[word] = w & !(1u64 << at);
        assert(self.used@ =~= before.update(word as int, w & !(1u64 << at)));
        proof {
            assert(self.allocated() =~= old(self).allocated().remove(n as int));
            assert(self.allocated().insert(n as int) =~= old(self).allocated());
            lemma_free_changes(self.allocated(), self.count as nat, n as int);
            lemma_free_bounded(self.allocated(), self.count as nat);
        }
        self.free += 1;
        Ok(())
    }

    /// The physical address of frame 0.
    pub fn first_frame(&self) -> (r: u64)
        ensures
            r == self.base(),
    {
        self.base
    }

    pub fn stats(&self) -> (r: FrameStats)
        requires
            self.wf(),
        ensures
            r.total == self.count(),
            r.free == free_below(self.allocated(), self.count() as nat),
    {
        FrameStats { total: self.count, free: self.free }
    }
}

} // verus!
