//! Page tables for user address spaces.
//!
//! Every program gets a level 1 table of its own. It shares the kernel's entries, so the
//! kernel stays mapped while it handles the program's exceptions (EL0 still can't touch it),
//! and adds one entry for the user window, the 1GB at `USER_BASE` (`USER_BASE..USER_END`
//! must be exactly one level 1 entry), mapped with 4KB pages
//! through level 2 and level 3 tables that belong to the program.
//!
//! Pages are readable from EL0 and at most one of writable and executable: `Access` has no
//! way to ask for both. They are not global, so the TLB tags them with the program's ASID
//! and a task switch doesn't need to flush it.
//!
//! Tables and pages are page frames from a [`FrameSource`], which also reads and writes what
//! is in them, by physical address.

use crate::abi::layout;
use crate::bytes;
use crate::frames::Frames;
use std::collections::BTreeMap;
use vstd::prelude::*;

verus! {

pub const USER_BASE: u64 = layout::USER_BASE;

pub const USER_END: u64 = layout::USER_END;

pub const PAGE_SIZE: usize = 4096;

const PAGE: u64 = 4096;

pub const ENTRIES: usize = 512;

/// One translation table, in the layout the MMU walks.
pub struct Table(pub [u64; ENTRIES]);

/// Whether `frame` can be a page frame's physical address: page aligned and of 48 bits.
pub open spec fn is_frame(frame: u64) -> bool {
    frame % 4096 == 0 && frame < 0x1_0000_0000_0000
}

/// Where address spaces get page frames (for their pages and tables), and give them back.
pub trait FrameSource {
    /// The frames that are handed out, and what they hold.
    open spec fn contents(&self) -> Map<u64, Seq<u8>> {
        Map::empty()
    }

    /// How many more frames it can hand out.
    open spec fn available(&self) -> nat {
        0
    }

    open spec fn wf(&self) -> bool {
        true
    }

    /// The physical address of a free frame, or `None` if memory ran out. Its contents are
    /// unspecified.
    fn allocate(&mut self) -> (r: Option<u64>)
        requires
            old(self).wf(),
        ensures
            final(self).wf(),
            match r {
                None => {
                    &&& old(self).available() == 0
                    &&& final(self).available() == 0
                    &&& final(self).contents() == old(self).contents()
                },
                Some(frame) => {
                    &&& is_frame(frame)
                    &&& !old(self).contents().contains_key(frame)
                    &&& final(self).contents().contains_key(frame)
                    &&& final(self).contents()[frame].len() == PAGE_SIZE
                    &&& final(self).contents().remove(frame) == old(self).contents()
                    &&& final(self).available() + 1 == old(self).available()
                },
            },
    ;

    /// Gives back a frame from `allocate`. Nothing may use the frame any more.
    fn free(&mut self, frame: u64)
        requires
            old(self).wf(),
            old(self).contents().contains_key(frame),
        ensures
            final(self).wf(),
            final(self).contents() == old(self).contents().remove(frame),
            final(self).available() == old(self).available() + 1,
    ;

    /// Reads `len` bytes of a frame.
    fn load(&self, frame: u64, offset: usize, len: usize) -> (r: Vec<u8>)
        requires
            self.wf(),
            self.contents().contains_key(frame),
            offset + len <= PAGE_SIZE,
            self.contents()[frame].len() == PAGE_SIZE,
        ensures
            r@ == self.contents()[frame].subrange(offset as int, offset + len),
    ;

    /// Writes `bytes` to a frame.
    fn store(&mut self, frame: u64, offset: usize, bytes: &[u8])
        requires
            old(self).wf(),
            old(self).contents().contains_key(frame),
            offset + bytes@.len() <= PAGE_SIZE,
            old(self).contents()[frame].len() == PAGE_SIZE,
        ensures
            final(self).wf(),
            final(self).contents() == old(self).contents().insert(
                frame,
                bytes::splice(old(self).contents()[frame], offset as int, bytes@),
            ),
            final(self).available() == old(self).available(),
    ;
}

/// There is no frame left for a page or table.
#[derive(Clone, Copy, Debug, PartialEq, Eq, Structural)]
pub struct OutOfMemory;

/// What a program may do with a page. It can always read it; the kernel never executes it.
#[derive(Clone, Copy, Debug, PartialEq, Eq, Structural)]
pub enum Access {
    ReadOnly,
    ReadWrite,
    ReadExecute,
}

/// What every user page's descriptor has set: valid (bit 0), a page (bit 1), accessible from
/// EL0 (bit 6), inner shareable (bits 8 and 9), the access flag (bit 10), not global (bit 11),
/// never executed by the kernel (bit 53).
pub const COMMON_BITS: u64 = 0x20_0000_0000_0F43;

/// AP[2]: nobody may write it.
pub const AP_READ_ONLY: u64 = 0x80;

/// EL0 may not execute it.
pub const USER_EXECUTE_NEVER: u64 = 0x40_0000_0000_0000;

/// Valid, and points to a table.
const TABLE: u64 = 3;

impl Access {
    /// The descriptor of a page with this access, but for the page's address.
    pub open spec fn bits(self) -> u64 {
        match self {
            Access::ReadOnly => (COMMON_BITS + AP_READ_ONLY + USER_EXECUTE_NEVER) as u64,
            Access::ReadWrite => (COMMON_BITS + USER_EXECUTE_NEVER) as u64,
            Access::ReadExecute => (COMMON_BITS + AP_READ_ONLY) as u64,
        }
    }

    pub fn descriptor_bits(self) -> (r: u64)
        ensures
            r == self.bits(),
    {
        match self {
            Access::ReadOnly => COMMON_BITS + AP_READ_ONLY + USER_EXECUTE_NEVER,
            Access::ReadWrite => COMMON_BITS + USER_EXECUTE_NEVER,
            Access::ReadExecute => COMMON_BITS + AP_READ_ONLY,
        }
    }

    /// The access that a page's descriptor allows, if it is that of a user page.
    pub fn from_descriptor(descriptor: u64) -> (r: Option<Access>)
        ensures
            forall|access: Access|
                r == Some(access) <==> descriptor - address_in(descriptor) == #[trigger] access.bits(),
    {
        let bits: u64 = descriptor - table_address(descriptor);
        let r = if bits == Access::ReadOnly.descriptor_bits() {
            Some(Access::ReadOnly)
        } else if bits == Access::ReadWrite.descriptor_bits() {
            Some(Access::ReadWrite)
        } else if bits == Access::ReadExecute.descriptor_bits() {
            Some(Access::ReadExecute)
        } else {
            None
        };
        r
    }

    pub fn writable(self) -> (r: bool)
        ensures
            r == (self == Access::ReadWrite),
    {
        self == Access::ReadWrite
    }
}

/// No page is both writable and executable from EL0, and none is executable by the kernel.
pub proof fn no_page_is_writable_and_executable(access: Access)
    ensures
        access.bits() / AP_READ_ONLY % 2 == 1 || access.bits() / USER_EXECUTE_NEVER % 2 == 1,
        access.bits() / 0x20_0000_0000_0000 % 2 == 1,
        access.bits() % 4 == 3,
{
}

/// The address in a descriptor: bits 12 to 47.
pub open spec fn address_in(descriptor: u64) -> u64 {
    (descriptor % 0x1_0000_0000_0000 / 4096 * 4096) as u64
}

fn table_address(descriptor: u64) -> (r: u64)
    ensures
        r == address_in(descriptor),
        r <= descriptor,
{
    descriptor % 0x1_0000_0000_0000 / 4096 * 4096
}

#[derive(Clone, Copy, Debug, PartialEq, Eq, Structural)]
pub enum MapError {
    /// The address isn't the start of a page.
    NotAligned,
    /// The page lies outside the user window.
    OutsideWindow,
    /// Something is mapped there already.
    AlreadyMapped,
    /// There is no frame left for the page or a table.
    OutOfMemory,
}

impl From<OutOfMemory> for MapError {
    fn from(error: OutOfMemory) -> (r: Self) {
        MapError::OutOfMemory
    }
}

impl vstd::std_specs::convert::FromSpecImpl<OutOfMemory> for MapError {
    open spec fn obeys_from_spec() -> bool {
        true
    }

    open spec fn from_spec(error: OutOfMemory) -> Self {
        MapError::OutOfMemory
    }
}

/// A program may not access `address` that way: it is unmapped, or not writable.
#[derive(Clone, Copy, Debug, PartialEq, Eq, Structural)]
pub struct AccessFault {
    pub address: u64,
}

/// The page that address `a` is in.
pub open spec fn page_of(a: int) -> u64 {
    (a / 4096 * 4096) as u64
}

pub open spec fn level1_index(va: u64) -> int {
    va as int / 0x4000_0000 % 512
}

pub open spec fn level2_index(va: u64) -> int {
    va as int / 0x20_0000 % 512
}

pub open spec fn level3_index(va: u64) -> int {
    va as int / 4096 % 512
}

/// The page that entry `j` of level 3 table `i` of the user window is for.
pub open spec fn page_at(i: int, j: int) -> u64 {
    (USER_BASE + i * 0x20_0000 + j * 4096) as u64
}

/// Entry `i` of the table in `frame`.
pub open spec fn entry(contents: Map<u64, Seq<u8>>, frame: u64, i: int) -> u64 {
    bytes::le64(contents[frame], 8 * i)
}

/// What is mapped: each page's frame, and what the program may do with it.
pub type Mapping = Map<u64, (u64, Access)>;

/// Why page `va` can't be mapped, memory aside.
pub open spec fn map_fault(mapping: Mapping, va: u64) -> Option<MapError> {
    if va % 4096 != 0 {
        Some(MapError::NotAligned)
    } else if !(USER_BASE <= va < USER_END) {
        Some(MapError::OutsideWindow)
    } else if mapping.contains_key(va) {
        Some(MapError::AlreadyMapped)
    } else {
        None
    }
}

/// The level 2 index of the level 3 table for page `va`.
pub open spec fn table_of(va: u64) -> u64 {
    level2_index(va) as u64
}

/// How many frames mapping page `va` takes, where there are the level 3 tables `tables`: one for
/// the page, and one for its table if there is none yet.
pub open spec fn frames_taken(tables: Set<u64>, va: u64) -> nat {
    if tables.contains(table_of(va)) {
        1
    } else {
        2
    }
}

/// Page `n` from `start` on.
pub open spec fn nth_page(start: u64, n: int) -> u64 {
    (start + 4096 * n) as u64
}

/// The level 3 tables that there are, `tables` at first, once `count` pages from `start` on are
/// mapped.
pub open spec fn tables_with(tables: Set<u64>, start: u64, count: int) -> Set<u64>
    decreases count,
{
    if count <= 0 {
        tables
    } else {
        tables_with(tables, start, count - 1).insert(table_of(nth_page(start, count - 1)))
    }
}

/// How many frames mapping `count` pages from `start` on takes.
pub open spec fn frames_for(tables: Set<u64>, start: u64, count: int) -> nat
    decreases count,
{
    if count <= 0 {
        0
    } else {
        frames_for(tables, start, count - 1) + frames_taken(
            tables_with(tables, start, count - 1),
            nth_page(start, count - 1),
        )
    }
}

/// Whether `count` pages from `start` on can be mapped: nothing is wrong with any of them, and
/// there are frames for them all.
pub open spec fn range_fits(
    mapping: Mapping,
    tables: Set<u64>,
    available: nat,
    start: u64,
    count: int,
) -> bool {
    &&& forall|j: int|
        0 <= j < count ==> map_fault(mapping, #[trigger] nth_page(start, j)) is None
    &&& frames_for(tables, start, count) <= available
}

/// Whether the program can access the byte at `a`.
pub open spec fn reachable(mapping: Mapping, a: int, write: bool) -> bool {
    &&& USER_BASE <= a < USER_END
    &&& mapping.contains_key(page_of(a))
    &&& write ==> mapping[page_of(a)].1 == Access::ReadWrite
}

/// The byte at `a` in program memory.
pub open spec fn byte_at(mapping: Mapping, contents: Map<u64, Seq<u8>>, a: int) -> u8 {
    contents[mapping[page_of(a)].0][a % 4096]
}

/// What one of an address space's frames is for.
pub enum Role {
    Root,
    Level2,
    /// The level 3 table at that level 2 index.
    Level3(int),
    /// The page at that address.
    Page(u64),
}

/// A program's memory: its page tables and the frames they map. The kernel must stop using it
/// (switch TTBR0 away and flush the TLB) before it gives the frames back with `release`.
pub struct AddressSpace {
    /// Physical addresses of its tables.
    root: u64,
    level2: u64,
    /// By level 2 index.
    level3: BTreeMap<u64, u64>,
    /// Physical addresses of its pages, by virtual address.
    frames: BTreeMap<u64, u64>,
    /// All its frames.
    owned: Vec<u64>,
    access: Ghost<Map<u64, Access>>,
    roles: Ghost<Map<u64, Role>>,
    kernel: Ghost<Seq<u64>>,
}

proof fn lemma_le64_is_a_word(s: Seq<u8>, at: int, v: u64)
    requires
        0 <= at,
        at + 8 <= s.len(),
        s.subrange(at, at + 8) == bytes::le64_bytes(v),
    ensures
        bytes::le64(s, at) == v,
{
    let w = bytes::le64_bytes(v);
    let lo = (v % 0x1_0000_0000) as u32;
    let hi = (v / 0x1_0000_0000) as u32;
    bytes::lemma_words_round_trip(0, lo);
    bytes::lemma_words_round_trip(0, hi);
    assert(forall|k: int| 0 <= k < 8 ==> s[at + k] == w[k]) by {
        assert forall|k: int| 0 <= k < 8 implies s[at + k] == w[k] by {
            assert(s.subrange(at, at + 8)[k] == w[k]);
        }
    }
    assert(s[at] == w[0] && s[at + 1] == w[1] && s[at + 2] == w[2] && s[at + 3] == w[3]);
    assert(s[at + 4] == w[4] && s[at + 5] == w[5] && s[at + 6] == w[6] && s[at + 7] == w[7]);
    assert(bytes::le32(s, at) == lo);
    assert(bytes::le32(s, at + 4) == hi);
}

/// Writing entry `i` of a table changes that entry alone.
proof fn lemma_entry_written(s: Seq<u8>, i: int, v: u64, j: int)
    requires
        s.len() == PAGE_SIZE,
        0 <= i < 512,
        0 <= j < 512,
    ensures
        bytes::le64(bytes::splice(s, 8 * i, bytes::le64_bytes(v)), 8 * j) == if i == j {
            v
        } else {
            bytes::le64(s, 8 * j)
        },
{
    let t = bytes::splice(s, 8 * i, bytes::le64_bytes(v));
    if i == j {
        assert(t.subrange(8 * i, 8 * i + 8) =~= bytes::le64_bytes(v));
        lemma_le64_is_a_word(t, 8 * i, v);
    }
}

proof fn lemma_zero_entries(s: Seq<u8>, j: int)
    requires
        s == bytes::zeros(PAGE_SIZE as nat),
        0 <= j < 512,
    ensures
        bytes::le64(s, 8 * j) == 0,
{
}

/// A zeroed frame from `source`.
fn zeroed_frame<F: FrameSource>(source: &mut F) -> (r: Result<u64, OutOfMemory>)
    requires
        old(source).wf(),
    ensures
        final(source).wf(),
        match r {
            Err(_) => {
                &&& old(source).available() == 0
                &&& final(source).available() == 0
                &&& final(source).contents() == old(source).contents()
            },
            Ok(frame) => {
                &&& is_frame(frame)
                &&& !old(source).contents().contains_key(frame)
                &&& final(source).contents() == old(source).contents().insert(
                    frame,
                    bytes::zeros(PAGE_SIZE as nat),
                )
                &&& final(source).available() + 1 == old(source).available()
            },
        },
{
    match source.allocate() {
        None => Err(OutOfMemory),
        Some(frame) => {
            let zeros: Vec<u8> = vec![0u8; PAGE_SIZE];
            source.store(frame, 0, &zeros);
            proof {
                let c = source.contents();
                assert(c[frame] =~= bytes::zeros(PAGE_SIZE as nat));
                assert(c =~= old(source).contents().insert(frame, bytes::zeros(PAGE_SIZE as nat)));
            }
            Ok(frame)
        },
    }
}

/// Reads entry `i` of a table.
fn read_entry<F: FrameSource>(source: &F, table: u64, i: usize) -> (r: u64)
    requires
        source.wf(),
        source.contents().contains_key(table),
        source.contents()[table].len() == PAGE_SIZE,
        i < ENTRIES,
    ensures
        r == entry(source.contents(), table, i as int),
{
    let word = source.load(table, 8 * i, 8);
    proof {
        bytes::lemma_words_in_subrange(source.contents()[table], 8 * i as int, 8 * i + 8, 0);
        bytes::lemma_words_in_subrange(source.contents()[table], 8 * i as int, 8 * i + 8, 4);
    }
    bytes::le64_at(&word, 0)
}

/// Writes entry `i` of a table.
fn write_entry<F: FrameSource>(source: &mut F, table: u64, i: usize, value: u64)
    requires
        old(source).wf(),
        old(source).contents().contains_key(table),
        old(source).contents()[table].len() == PAGE_SIZE,
        i < ENTRIES,
    ensures
        final(source).wf(),
        final(source).available() == old(source).available(),
        final(source).contents().dom() == old(source).contents().dom(),
        final(source).contents()[table].len() == PAGE_SIZE,
        forall|f: u64| f != table ==> #[trigger] final(source).contents()[f] == old(
            source).contents()[f],
        forall|j: int|
            0 <= j < 512 ==> #[trigger] entry(final(source).contents(), table, j) == if i == j {
                value
            } else {
                entry(old(source).contents(), table, j)
            },
{
    let mut word: Vec<u8> = Vec::new();
    bytes::push_le64(&mut word, value);
    assert(word@ =~= bytes::le64_bytes(value));
    source.store(table, 8 * i, &word);
    proof {
        assert forall|j: int| 0 <= j < 512 implies #[trigger] entry(source.contents(), table, j)
            == if i == j {
            value
        } else {
            entry(old(source).contents(), table, j)
        } by {
            lemma_entry_written(old(source).contents()[table], i as int, value, j);
        }
        assert(source.contents().dom() =~= old(source).contents().dom());
    }
}

/// How address `va` of the user window is found in the tables.
proof fn lemma_indices(va: u64)
    requires
        USER_BASE <= va < USER_END,
    ensures
        level1_index(va) == 2,
        0 <= level2_index(va) < 512,
        0 <= level3_index(va) < 512,
        page_at(level2_index(va), level3_index(va)) == page_of(va as int),
        page_of(va as int) % 4096 == 0,
        USER_BASE <= page_of(va as int) <= va < page_of(va as int) + 4096,
        page_of(va as int) <= USER_END - 4096,
{
}

proof fn lemma_page_at(i: int, j: int)
    requires
        0 <= i < 512,
        0 <= j < 512,
    ensures
        USER_BASE <= page_at(i, j) < USER_END,
        page_at(i, j) % 4096 == 0,
        level2_index(page_at(i, j)) == i,
        level3_index(page_at(i, j)) == j,
{
}

/// A descriptor comes apart into a frame's address and what is below and above it.
#[verifier::rlimit(40)]
#[verifier::spinoff_prover]
proof fn lemma_parts(frame: int, low: int, high: int)
    requires
        frame % 4096 == 0,
        0 <= frame < 0x1_0000_0000_0000,
        0 <= low < 4096,
        0 <= high < 0x1_0000,
    ensures
        ({
            let d = frame + low + 0x1_0000_0000_0000 * high;
            &&& 0 <= d <= u64::MAX
            &&& d % 0x1_0000_0000_0000 == frame + low
            &&& d / 0x1_0000_0000_0000 == high
            &&& d % 4096 == low
            &&& (frame + low) / 4096 * 4096 == frame
        }),
{
    let page = frame / 4096;
    assert(frame == 4096 * page);
    let d = frame + low + 0x1_0000_0000_0000 * high;
    assert(d == 4096 * (page + 0x10_0000_0000 * high) + low);
}

#[verifier::rlimit(40)]
#[verifier::spinoff_prover]
proof fn lemma_descriptor(frame: u64, bits: u64)
    requires
        is_frame(frame),
        bits == TABLE || (exists|access: Access| bits == #[trigger] access.bits()),
    ensures
        frame + bits <= u64::MAX,
        address_in((frame + bits) as u64) == frame,
        (frame + bits) % 4 == 3,
{
    let (low, high): (int, int) = if bits == TABLE {
        (3, 0)
    } else if bits == Access::ReadOnly.bits() {
        (0xFC3, 0x60)
    } else if bits == Access::ReadWrite.bits() {
        (0xF43, 0x60)
    } else {
        (0xFC3, 0x20)
    };
    assert(bits == low + 0x1_0000_0000_0000 * high) by {
        if bits != TABLE {
            let access = choose|access: Access| bits == #[trigger] access.bits();
            assert(access is ReadOnly || access is ReadWrite || access is ReadExecute);
        }
    }
    lemma_parts(frame as int, low, high);
    let d = frame + bits;
    assert(d % 4 == d % 4096 % 4);
}

impl AddressSpace {
    /// What is mapped.
    pub closed spec fn mapping(&self) -> Mapping {
        Map::new(
            |va: u64| self.frames@.contains_key(va),
            |va: u64| (self.frames@[va], self.access@[va]),
        )
    }

    /// The level 2 indices that there are level 3 tables for.
    pub closed spec fn table_set(&self) -> Set<u64> {
        self.level3@.dom()
    }

    /// How many level 3 tables there are.
    pub open spec fn table_count(&self) -> nat {
        self.table_set().len()
    }

    /// How many frames mapping page `va` takes: one for the page, and one for its table if
    /// there is none yet.
    pub open spec fn frames_needed(&self, va: u64) -> nat {
        frames_taken(self.table_set(), va)
    }

    /// Whether `frame` belongs to this address space.
    pub closed spec fn owns(&self, frame: u64) -> bool {
        self.roles@.contains_key(frame)
    }

    /// How many frames belong to this address space.
    pub closed spec fn frame_count(&self) -> nat {
        self.owned@.len()
    }

    /// The physical address of the level 1 table.
    pub closed spec fn root(&self) -> u64 {
        self.root
    }

    /// The kernel's level 1 entries.
    pub closed spec fn kernel_entries(&self) -> Seq<u64> {
        self.kernel@
    }

    /// The frames' use doesn't change when a page's bytes do.
    proof fn lemma_page_written(
        &self,
        before: Map<u64, Seq<u8>>,
        after: Map<u64, Seq<u8>>,
        page: u64,
        with: Seq<u8>,
    )
        requires
            self.wf(before),
            self.frames@.contains_key(page),
            with.len() == PAGE_SIZE,
            after == before.insert(self.frames@[page], with),
        ensures
            self.wf(after),
            forall|p: u64| #[trigger]
                self.mapping().contains_key(p) && p != page ==> after[self.mapping()[p].0]
                    == before[self.mapping()[p].0],
            after[self.mapping()[page].0] == with,
            forall|p: u64| #[trigger]
                self.mapping().contains_key(p) && p != page ==> self.mapping()[p].0
                    != self.frames@[page],
    {
        let frame = self.frames@[page];
        assert(self.roles@[frame] == Role::Page(page));
        assert forall|i: int| 0 <= i < 512 implies #[trigger] entry(after, self.root, i) == entry(
            before,
            self.root,
            i,
        ) by {}
        assert forall|i: int| 0 <= i < 512 implies #[trigger] entry(after, self.level2, i)
            == entry(before, self.level2, i) by {}
        assert forall|i: u64, j: int| self.level3@.contains_key(i) && 0 <= j
            < 512 implies #[trigger] entry(after, self.level3@[i], j) == entry(
            before,
            self.level3@[i],
            j,
        ) by {
            assert(self.roles@[self.level3@[i]] == Role::Level3(i as int));
        }
        assert forall|p: u64| #[trigger] self.mapping().contains_key(p) && p
            != page implies after[self.mapping()[p].0] == before[self.mapping()[p].0] by {
            assert(self.frames@.contains_key(p));
            assert(self.roles@[self.frames@[p]] == Role::Page(p));
        }
        assert(self.mapping().contains_key(page));
    }

    spec fn frames_wf(&self, contents: Map<u64, Seq<u8>>) -> bool {
        &&& forall|f: u64| #[trigger]
            self.roles@.contains_key(f) ==> contents.contains_key(f) && contents[f].len()
                == PAGE_SIZE && is_frame(f)
        &&& forall|f: u64| self.roles@.contains_key(f) <==> #[trigger] self.owned@.contains(f)
        &&& self.owned@.no_duplicates()
        &&& self.roles@.contains_key(self.root) && self.roles@[self.root] is Root
        &&& self.roles@.contains_key(self.level2) && self.roles@[self.level2] is Level2
        &&& self.level3@.dom().finite()
        &&& self.frames@.dom().finite()
        &&& forall|i: u64| #[trigger]
            self.level3@.contains_key(i) ==> i < 512 && self.roles@.contains_key(self.level3@[i])
                && self.roles@[self.level3@[i]] == Role::Level3(i as int)
        &&& forall|va: u64| #[trigger]
            self.frames@.contains_key(va) ==> {
                &&& va % 4096 == 0
                &&& USER_BASE <= va < USER_END
                &&& self.level3@.contains_key(level2_index(va) as u64)
                &&& self.roles@.contains_key(self.frames@[va])
                &&& self.roles@[self.frames@[va]] == Role::Page(va)
            }
    }

    spec fn tables_wf(&self, contents: Map<u64, Seq<u8>>) -> bool {
        &&& forall|i: int|
            0 <= i < 512 ==> #[trigger] entry(contents, self.root, i) == if i == 2 {
                (self.level2 + TABLE) as u64
            } else {
                self.kernel@[i]
            }
        &&& forall|i: int|
            0 <= i < 512 ==> #[trigger] entry(contents, self.level2, i)
                == if self.level3@.contains_key(i as u64) {
                (self.level3@[i as u64] + TABLE) as u64
            } else {
                0
            }
        &&& forall|i: u64, j: int|
            self.level3@.contains_key(i) && 0 <= j < 512 ==> #[trigger] entry(
                contents,
                self.level3@[i],
                j,
            ) == if self.frames@.contains_key(page_at(i as int, j)) {
                (self.frames@[page_at(i as int, j)] + self.access@[page_at(
                    i as int,
                    j,
                )].bits()) as u64
            } else {
                0
            }
    }

    /// What holds of an address space and the memory its tables are in: the tables lead to
    /// exactly the mapped pages, and every frame has one use.
    pub closed spec fn wf(&self, contents: Map<u64, Seq<u8>>) -> bool {
        self.frames_wf(contents) && self.tables_wf(contents) && self.kernel@.len() == 512
    }
}

impl AddressSpace {
    /// An address space with the kernel's entries from `kernel`, its level 1 table, and
    /// nothing mapped in the user window. Its frames come from `source`.
    pub fn new<F: FrameSource>(kernel: &Table, source: &mut F) -> (r: Result<Self, OutOfMemory>)
        requires
            old(source).wf(),
        ensures
            final(source).wf(),
            r is Ok <==> old(source).available() >= 2,
            match r {
                Err(_) => {
                    &&& final(source).contents() == old(source).contents()
                    &&& final(source).available() == old(source).available()
                },
                Ok(space) => {
                    &&& space.wf(final(source).contents())
                    &&& space.mapping() == Mapping::empty()
                    &&& space.mapping().dom().finite()
                    &&& space.kernel_entries() == kernel.0@
                    &&& is_frame(space.root())
                    &&& space.frame_count() == 2
                    &&& space.table_set() == Set::<u64>::empty()
                    &&& final(source).available() + 2 == old(source).available()
                    &&& forall|f: u64|
                        final(source).contents().contains_key(f) <==> old(
                            source).contents().contains_key(f) || #[trigger] space.owns(f)
                    &&& forall|f: u64| #[trigger]
                        old(source).contents().contains_key(f) ==> !space.owns(f) && final(
                            source).contents()[f] == old(source).contents()[f]
                },
            },
    {
        let root = match zeroed_frame(source) {
            Ok(frame) => frame,
            Err(e) => return Err(e),
        };
        let level2 = match zeroed_frame(source) {
            Ok(frame) => frame,
            Err(e) => {
                source.free(root);
                assert(source.contents() =~= old(source).contents());
                return Err(e);
            },
        };
        let ghost before = source.contents();
        let mut words: Vec<u8> = Vec::new();
        let mut i: usize = 0;
        while i < ENTRIES
            invariant
                i <= ENTRIES,
                words@.len() == 8 * i,
                is_frame(level2),
                forall|k: int|
                    0 <= k < i ==> #[trigger] bytes::le64(words@, 8 * k) == if k == 2 {
                        (level2 + TABLE) as u64
                    } else {
                        kernel.0@[k]
                    },
            decreases ENTRIES - i,
        {
            let value: u64 = if i == 2 {
                level2 + TABLE
            } else {
                kernel.0[i]
            };
            let ghost so_far = words@;
            bytes::push_le64(&mut words, value);
            proof {
                assert(words@.subrange(8 * i as int, 8 * i + 8) =~= bytes::le64_bytes(value));
                lemma_le64_is_a_word(words@, 8 * i as int, value);
                assert forall|k: int| 0 <= k < i implies #[trigger] bytes::le64(words@, 8 * k)
                    == bytes::le64(so_far, 8 * k) by {}
            }
            i += 1;
        }
        source.store(root, 0, &words);
        proof {
            assert(source.contents()[root] =~= words@);
        }
        let mut owned: Vec<u64> = Vec::new();
        owned.push(root);
        owned.push(level2);
        let space = AddressSpace {
            root,
            level2,
            level3: BTreeMap::new(),
            frames: BTreeMap::new(),
            owned,
            access: Ghost(Map::empty()),
            roles: Ghost(Map::empty().insert(root, Role::Root).insert(level2, Role::Level2)),
            kernel: Ghost(kernel.0@),
        };
        proof {
            let c = source.contents();
            assert(space.owned@[0] == root && space.owned@[1] == level2);
            assert forall|i: int| 0 <= i < 512 implies #[trigger] entry(c, root, i) == if i == 2 {
                (level2 + TABLE) as u64
            } else {
                kernel.0@[i]
            } by {
                assert(bytes::le64(words@, 8 * i) == entry(c, root, i));
            }
            assert forall|i: int| 0 <= i < 512 implies #[trigger] entry(c, level2, i) == 0 by {
                lemma_zero_entries(c[level2], i);
            }
            assert(space.mapping() =~= Mapping::empty());
        }
        Ok(space)
    }

    /// The TTBR0 value that makes this the current address space, tagged with `asid`.
    pub fn translation_base(&self, asid: u8) -> (r: u64)
        requires
            is_frame(self.root()),
        ensures
            r == self.root() + asid * 0x1_0000_0000_0000,
    {
        self.root + asid as u64 * 0x1_0000_0000_0000
    }

    /// Entry `i` of the level 1 table.
    pub fn root_entry<F: FrameSource>(&self, source: &F, i: usize) -> (r: u64)
        requires
            source.wf(),
            self.wf(source.contents()),
            i < ENTRIES,
        ensures
            i != 2 ==> r == self.kernel_entries()[i as int],
            i == 2 ==> r % 4 == 3 && self.owns(address_in(r)),
            r == entry(source.contents(), self.root(), i as int),
    {
        let r = read_entry(source, self.root, i);
        proof {
            lemma_descriptor(self.level2, TABLE);
            assert(entry(source.contents(), self.root, i as int) == r);
        }
        r
    }

    /// Maps a zeroed page at `va`.
    pub fn map<F: FrameSource>(&mut self, source: &mut F, va: u64, access: Access) -> (r: Result<
        (),
        MapError,
    >)
        requires
            old(source).wf(),
            old(self).wf(old(source).contents()),
        ensures
            final(source).wf(),
            final(self).wf(final(source).contents()),
            final(self).kernel_entries() == old(self).kernel_entries(),
            final(self).root() == old(self).root(),
            final(self).mapping().dom().finite(),
            // What isn't a table of this address space keeps its contents.
            forall|f: u64| #[trigger]
                old(source).contents().contains_key(f) ==> {
                    &&& final(source).contents().contains_key(f)
                    &&& final(self).owns(f) == old(self).owns(f)
                    &&& !old(self).owns(f) ==> final(source).contents()[f] == old(
                        source).contents()[f]
                },
            forall|f: u64| #[trigger]
                final(source).contents().contains_key(f) ==> old(
                    source).contents().contains_key(f) || final(self).owns(f),
            forall|p: u64| #[trigger]
                old(self).mapping().contains_key(p) ==> final(source).contents()[old(
                    self).mapping()[p].0] == old(source).contents()[old(self).mapping()[p].0],
            final(source).available() + final(self).frame_count() == old(source).available() + old(
                self).frame_count(),
            match map_fault(old(self).mapping(), va) {
                Some(e) => {
                    &&& r == Err::<(), MapError>(e)
                    &&& *final(self) == *old(self)
                    &&& final(source).contents() == old(source).contents()
                },
                None => if old(source).available() < old(self).frames_needed(va) {
                    &&& r == Err::<(), MapError>(MapError::OutOfMemory)
                    &&& final(self).mapping() == old(self).mapping()
                    &&& final(source).available() == 0
                    // One frame goes to the table, if that is missing.
                    &&& final(self).table_set() == if old(source).available() == 0 {
                        old(self).table_set()
                    } else {
                        old(self).table_set().insert(table_of(va))
                    }
                } else {
                    &&& r is Ok
                    &&& final(self).mapping().contains_key(va)
                    &&& final(self).mapping() == old(self).mapping().insert(
                        va,
                        (final(self).mapping()[va].0, access),
                    )
                    &&& !old(source).contents().contains_key(final(self).mapping()[va].0)
                    &&& final(source).contents()[final(self).mapping()[va].0] == bytes::zeros(
                        PAGE_SIZE as nat,
                    )
                    &&& final(source).available() + old(self).frames_needed(va) == old(
                        source).available()
                    &&& final(self).table_set() == old(self).table_set().insert(table_of(va))
                },
            },
    {
        proof {
            self.lemma_mapping(source.contents());
        }
        if va % PAGE != 0 {
            return Err(MapError::NotAligned);
        }
        if va < USER_BASE || va >= USER_END {
            return Err(MapError::OutsideWindow);
        }
        if self.frames.contains_key(&va) {
            return Err(MapError::AlreadyMapped);
        }
        let index: u64 = va / 0x20_0000 % 512;
        proof {
            lemma_indices(va);
        }
        if !self.level3.contains_key(&index) {
            match self.add_table(source, index) {
                Ok(()) => {},
                Err(_) => return Err(MapError::OutOfMemory),
            }
        }
        assert(self.mapping() =~= old(self).mapping());
        proof {
            let table = self.level3@[index];
            assert(self.level3@.contains_key(index));
            assert forall|f: u64| old(source).contents().contains_key(f) && !old(self).owns(
                f,
            ) implies f != table && f != old(self).level2 by {
                assert(self.owns(table));
            }
            assert forall|p: u64| #[trigger] old(self).mapping().contains_key(p) implies ({
                let f = old(self).mapping()[p].0;
                f != table && f != old(self).level2 && old(source).contents().contains_key(f)
                    && source.contents().contains_key(f) && source.contents()[f] == old(
                    source).contents()[f]
            }) by {
                let f = old(self).mapping()[p].0;
                assert(old(self).frames@.contains_key(p));
                assert(self.frames@.contains_key(p));
                assert(self.roles@[f] == Role::Page(p));
                assert(self.roles@[table] == Role::Level3(index as int));
                assert(old(self).roles@[f] == Role::Page(p));
            }
        }
        assert(self.table_set() =~= old(self).table_set().insert(table_of(va)));
        match self.add_page(source, va, access) {
            Ok(()) => Ok(()),
            Err(_) => Err(MapError::OutOfMemory),
        }
    }

    /// Adds an empty level 3 table.
    fn add_table<F: FrameSource>(&mut self, source: &mut F, index: u64) -> (r: Result<
        (),
        OutOfMemory,
    >)
        requires
            old(source).wf(),
            old(self).wf(old(source).contents()),
            index < 512,
            !old(self).level3@.contains_key(index),
        ensures
            final(source).wf(),
            final(self).wf(final(source).contents()),
            final(self).kernel == old(self).kernel,
            final(self).root == old(self).root,
            final(self).frames == old(self).frames,
            final(self).access == old(self).access,
            r is Ok <==> old(source).available() > 0,
            r is Ok ==> final(source).available() + 1 == old(source).available()
                && final(self).owned@.len() == old(self).owned@.len() + 1 && final(
                self).level3@.dom() == old(self).level3@.dom().insert(index),
            r is Err ==> *final(self) == *old(self) && final(source).contents() == old(
                source).contents() && final(source).available() == 0,
            forall|f: u64| #[trigger]
                old(source).contents().contains_key(f) ==> {
                    &&& final(source).contents().contains_key(f)
                    &&& final(self).owns(f) == old(self).owns(f)
                    &&& f != old(self).level2 ==> final(source).contents()[f] == old(
                        source).contents()[f]
                },
            forall|f: u64| #[trigger]
                final(source).contents().contains_key(f) ==> old(
                    source).contents().contains_key(f) || final(self).owns(f),
    {
        let table = match zeroed_frame(source) {
            Ok(frame) => frame,
            Err(e) => return Err(e),
        };
        let ghost fresh = source.contents();
        proof {
            assert(!self.roles@.contains_key(table));
        }
        write_entry(source, self.level2, index as usize, table + TABLE);
        let ghost owned = self.owned@;
        self.level3.insert(index, table);
        self.owned.push(table);
        proof {
            self.roles@ = self.roles@.insert(table, Role::Level3(index as int));
            let c = source.contents();
            let b = old(self);
            assert forall|f: u64| self.roles@.contains_key(f) <==> #[trigger] self.owned@.contains(
                f,
            ) by {
                if owned.contains(f) {
                    let k = choose|k: int| 0 <= k < owned.len() && owned[k] == f;
                    assert(self.owned@[k] == f);
                }
                assert(self.owned@[owned.len() as int] == table);
                if self.owned@.contains(f) && f != table {
                    let k = choose|k: int| 0 <= k < self.owned@.len() && self.owned@[k] == f;
                    assert(owned[k] == f);
                }
            }
            assert(self.owned@.no_duplicates()) by {
                assert(!owned.contains(table));
            }
            assert forall|i: int| 0 <= i < 512 implies #[trigger] entry(c, self.root, i) == if i
                == 2 {
                (self.level2 + TABLE) as u64
            } else {
                self.kernel@[i]
            } by {
                assert(entry(c, self.root, i) == entry(old(source).contents(), self.root, i));
            }
            assert forall|i: int| 0 <= i < 512 implies #[trigger] entry(c, self.level2, i)
                == if self.level3@.contains_key(i as u64) {
                (self.level3@[i as u64] + TABLE) as u64
            } else {
                0
            } by {
                assert(entry(fresh, self.level2, i) == entry(
                    old(source).contents(),
                    self.level2,
                    i,
                ));
            }
            assert forall|i: u64, j: int|
                self.level3@.contains_key(i) && 0 <= j < 512 implies #[trigger] entry(
                c,
                self.level3@[i],
                j,
            ) == if self.frames@.contains_key(page_at(i as int, j)) {
                (self.frames@[page_at(i as int, j)] + self.access@[page_at(
                    i as int,
                    j,
                )].bits()) as u64
            } else {
                0
            } by {
                lemma_page_at(i as int, j);
                if i == index {
                    lemma_zero_entries(c[table], j);
                } else {
                    assert(b.level3@.contains_key(i));
                    assert(entry(c, self.level3@[i], j) == entry(
                        old(source).contents(),
                        b.level3@[i],
                        j,
                    ));
                }
            }
            assert(self.level3@.dom() =~= b.level3@.dom().insert(index));
        }
        Ok(())
    }

    /// Adds a zeroed page, whose level 3 table is there.
    fn add_page<F: FrameSource>(&mut self, source: &mut F, va: u64, access: Access) -> (r: Result<
        (),
        OutOfMemory,
    >)
        requires
            old(source).wf(),
            old(self).wf(old(source).contents()),
            va % 4096 == 0,
            USER_BASE <= va < USER_END,
            !old(self).frames@.contains_key(va),
            old(self).level3@.contains_key(level2_index(va) as u64),
        ensures
            final(source).wf(),
            final(self).wf(final(source).contents()),
            final(self).kernel == old(self).kernel,
            final(self).root == old(self).root,
            final(self).level3 == old(self).level3,
            r is Ok <==> old(source).available() > 0,
            r is Err ==> *final(self) == *old(self) && final(source).contents() == old(
                source).contents() && final(source).available() == 0,
            r is Ok ==> {
                let frame = final(self).frames@[va];
                &&& final(self).mapping() == old(self).mapping().insert(va, (frame, access))
                &&& !old(source).contents().contains_key(frame)
                &&& final(source).contents()[frame] == bytes::zeros(PAGE_SIZE as nat)
                &&& final(source).available() + 1 == old(source).available()
                &&& final(self).owned@.len() == old(self).owned@.len() + 1
            },
            forall|f: u64| #[trigger]
                old(source).contents().contains_key(f) ==> {
                    &&& final(source).contents().contains_key(f)
                    &&& final(self).owns(f) == old(self).owns(f)
                    &&& f != old(self).level3@[level2_index(va) as u64] ==> final(
                        source).contents()[f] == old(source).contents()[f]
                },
            forall|f: u64| #[trigger]
                final(source).contents().contains_key(f) ==> old(
                    source).contents().contains_key(f) || final(self).owns(f),
    {
        let index: u64 = va / 0x20_0000 % 512;
        let slot: u64 = va / PAGE % 512;
        proof {
            lemma_indices(va);
        }
        let table: u64 = *self.level3.get(&index).unwrap();
        let frame = match zeroed_frame(source) {
            Ok(frame) => frame,
            Err(e) => return Err(e),
        };
        let ghost fresh = source.contents();
        proof {
            assert(!self.roles@.contains_key(frame));
            lemma_descriptor(frame, access.bits());
        }
        write_entry(source, table, slot as usize, frame + access.descriptor_bits());
        let ghost owned = self.owned@;
        self.frames.insert(va, frame);
        self.owned.push(frame);
        proof {
            self.roles@ = self.roles@.insert(frame, Role::Page(va));
            self.access@ = self.access@.insert(va, access);
            let c = source.contents();
            let b = old(self);
            assert forall|f: u64| self.roles@.contains_key(f) <==> #[trigger] self.owned@.contains(
                f,
            ) by {
                if owned.contains(f) {
                    let k = choose|k: int| 0 <= k < owned.len() && owned[k] == f;
                    assert(self.owned@[k] == f);
                }
                assert(self.owned@[owned.len() as int] == frame);
                if self.owned@.contains(f) && f != frame {
                    let k = choose|k: int| 0 <= k < self.owned@.len() && self.owned@[k] == f;
                    assert(owned[k] == f);
                }
            }
            assert(self.owned@.no_duplicates()) by {
                assert(!owned.contains(frame));
            }
            assert forall|i: int| 0 <= i < 512 implies #[trigger] entry(c, self.root, i) == if i
                == 2 {
                (self.level2 + TABLE) as u64
            } else {
                self.kernel@[i]
            } by {
                assert(entry(c, self.root, i) == entry(old(source).contents(), self.root, i));
            }
            assert forall|i: int| 0 <= i < 512 implies #[trigger] entry(c, self.level2, i)
                == if self.level3@.contains_key(i as u64) {
                (self.level3@[i as u64] + TABLE) as u64
            } else {
                0
            } by {
                assert(entry(c, self.level2, i) == entry(old(source).contents(), self.level2, i));
            }
            assert forall|i: u64, j: int|
                self.level3@.contains_key(i) && 0 <= j < 512 implies #[trigger] entry(
                c,
                self.level3@[i],
                j,
            ) == if self.frames@.contains_key(page_at(i as int, j)) {
                (self.frames@[page_at(i as int, j)] + self.access@[page_at(
                    i as int,
                    j,
                )].bits()) as u64
            } else {
                0
            } by {
                lemma_page_at(i as int, j);
                assert(entry(fresh, b.level3@[i], j) == entry(
                    old(source).contents(),
                    b.level3@[i],
                    j,
                ));
                if i == index {
                    assert(self.level3@[i] == table);
                } else {
                    assert(b.roles@[b.level3@[i]] == Role::Level3(i as int));
                    assert(b.roles@[table] == Role::Level3(index as int));
                    assert(self.level3@[i] != table);
                }
            }
            assert(self.mapping() =~= b.mapping().insert(va, (frame, access)));
        }
        Ok(())
    }
}

/// Whether `p` is one of the `count` pages from `start` on.
pub open spec fn in_range(p: u64, start: u64, count: int) -> bool {
    start <= p < start + 4096 * count && (p - start) % 4096 == 0
}

/// Whether `after` is `before` with `count` more pages from `start` on.
pub open spec fn range_mapped(
    before: Mapping,
    after: Mapping,
    start: u64,
    count: int,
    access: Access,
) -> bool {
    &&& forall|p: u64| #[trigger]
        after.contains_key(p) <==> before.contains_key(p) || in_range(p, start, count)
    &&& forall|p: u64| #[trigger] before.contains_key(p) ==> after[p] == before[p] && !in_range(
        p,
        start,
        count,
    )
    &&& forall|p: u64| in_range(p, start, count) ==> (#[trigger] after[p]).1 == access
}

/// More pages take no fewer frames.
pub proof fn lemma_range_grows(tables: Set<u64>, start: u64, few: int, many: int)
    requires
        few <= many,
    ensures
        frames_for(tables, start, few) <= frames_for(tables, start, many),
    decreases many,
{
    if few < many && many > 0 {
        lemma_range_grows(tables, start, few, many - 1);
    }
}

impl AddressSpace {
    /// Maps zeroed pages over `start..start + len`, from a page boundary.
    pub fn map_range<F: FrameSource>(
        &mut self,
        source: &mut F,
        start: u64,
        len: u64,
        access: Access,
    ) -> (r: Result<(), MapError>)
        requires
            old(source).wf(),
            old(self).wf(old(source).contents()),
        ensures
            final(source).wf(),
            final(self).wf(final(source).contents()),
            final(self).kernel_entries() == old(self).kernel_entries(),
            final(self).root() == old(self).root(),
            forall|f: u64| #[trigger]
                old(source).contents().contains_key(f) ==> {
                    &&& final(source).contents().contains_key(f)
                    &&& final(self).owns(f) == old(self).owns(f)
                    &&& !old(self).owns(f) ==> final(source).contents()[f] == old(
                        source).contents()[f]
                },
            forall|p: u64| #[trigger]
                old(self).mapping().contains_key(p) ==> final(source).contents()[old(
                    self).mapping()[p].0] == old(source).contents()[old(self).mapping()[p].0],
            final(source).available() + final(self).frame_count() == old(source).available() + old(
                self).frame_count(),
            final(self).mapping().dom().finite(),
            start + len > u64::MAX ==> {
                &&& r == Err::<(), MapError>(MapError::OutsideWindow)
                &&& *final(self) == *old(self)
                &&& final(source).contents() == old(source).contents()
            },
            start + len <= u64::MAX ==> {
                &&& r is Ok <==> range_fits(
                    old(self).mapping(),
                    old(self).table_set(),
                    old(source).available(),
                    start,
                    (len + 4095) / 4096,
                )
                &&& exists|count: int|
                    {
                        // The pages up to the first that can't be mapped are.
                        &&& 0 <= count <= (len + 4095) / 4096
                        &&& #[trigger] range_mapped(
                            old(self).mapping(),
                            final(self).mapping(),
                            start,
                            count,
                            access,
                        )
                        &&& range_fits(
                            old(self).mapping(),
                            old(self).table_set(),
                            old(source).available(),
                            start,
                            count,
                        )
                        &&& forall|p: u64|
                            in_range(p, start, count) ==> {
                                let frame = (#[trigger] final(self).mapping()[p]).0;
                                &&& final(source).contents()[frame] == bytes::zeros(
                                    PAGE_SIZE as nat,
                                )
                                &&& !old(source).contents().contains_key(frame)
                            }
                        &&& match r {
                            Ok(()) => {
                                &&& count == (len + 4095) / 4096
                                &&& final(source).available() + frames_for(
                                    old(self).table_set(),
                                    start,
                                    count,
                                ) == old(source).available()
                                &&& final(self).table_set() == tables_with(
                                    old(self).table_set(),
                                    start,
                                    count,
                                )
                            },
                            Err(e) => {
                                &&& count < (len + 4095) / 4096
                                &&& match map_fault(
                                    old(self).mapping(),
                                    nth_page(start, count),
                                ) {
                                    Some(fault) => {
                                        &&& e == fault
                                        &&& final(source).available() + frames_for(
                                            old(self).table_set(),
                                            start,
                                            count,
                                        ) == old(source).available()
                                        &&& final(self).table_set() == tables_with(
                                            old(self).table_set(),
                                            start,
                                            count,
                                        )
                                    },
                                    None => {
                                        &&& e == MapError::OutOfMemory
                                        &&& final(source).available() == 0
                                        &&& old(source).available() < frames_for(
                                            old(self).table_set(),
                                            start,
                                            count + 1,
                                        )
                                    },
                                }
                            },
                        }
                    }
            },
    {
        let ghost total = (len + 4095) / 4096;
        let ghost tables = old(self).table_set();
        proof {
            self.lemma_mapping(source.contents());
        }
        let end = match start.checked_add(len) {
            Some(end) => end,
            None => return Err(MapError::OutsideWindow),
        };
        let mut va = start;
        let ghost mut count: int = 0;
        assert(range_mapped(old(self).mapping(), self.mapping(), start, 0, access));
        while va < end
            invariant
                source.wf(),
                self.wf(source.contents()),
                self.kernel_entries() == old(self).kernel_entries(),
                self.root() == old(self).root(),
                forall|f: u64| #[trigger]
                    old(source).contents().contains_key(f) ==> {
                        &&& source.contents().contains_key(f)
                        &&& self.owns(f) == old(self).owns(f)
                        &&& !old(self).owns(f) ==> source.contents()[f] == old(source).contents()[f]
                    },
                forall|p: u64| #[trigger]
                    old(self).mapping().contains_key(p) ==> source.contents()[old(
                        self).mapping()[p].0] == old(source).contents()[old(self).mapping()[p].0],
                source.available() + self.frame_count() == old(source).available() + old(
                    self).frame_count(),
                start + len == end,
                0 <= count,
                va == start + 4096 * count || va == end,
                va < end ==> va == start + 4096 * count && count < total,
                va == end ==> count == total,
                total == (len + 4095) / 4096,
                count <= total,
                tables == old(self).table_set(),
                self.mapping().dom().finite(),
                self.table_set() == tables_with(tables, start, count),
                source.available() + frames_for(tables, start, count) == old(source).available(),
                range_fits(
                    old(self).mapping(),
                    tables,
                    old(source).available(),
                    start,
                    count,
                ),
                range_mapped(old(self).mapping(), self.mapping(), start, count, access),
                forall|p: u64|
                    in_range(p, start, count) ==> {
                        let frame = (#[trigger] self.mapping()[p]).0;
                        &&& source.contents()[frame] == bytes::zeros(PAGE_SIZE as nat)
                        &&& !old(source).contents().contains_key(frame)
                    },
            decreases end - va,
        {
            let ghost before = self.mapping();
            let ghost c = source.contents();
            match self.map(source, va, access) {
                Ok(()) => {},
                Err(e) => {
                    proof {
                        assert forall|p: u64| in_range(p, start, count) implies ({
                            let frame = (#[trigger] self.mapping()[p]).0;
                            &&& source.contents()[frame] == bytes::zeros(PAGE_SIZE as nat)
                            &&& !old(source).contents().contains_key(frame)
                        }) by {
                            assert(before.contains_key(p));
                        }
                        assert forall|p: u64| #[trigger] old(
                    self).mapping().contains_key(p) implies source.contents()[old(
                    self).mapping()[p].0] == old(source).contents()[old(self).mapping()[p].0] by {
                    assert(before.contains_key(p));
                    assert(source.contents()[before[p].0] == c[before[p].0]);
                }
                        assert(va == nth_page(start, count));
                        assert(map_fault(before, va) == map_fault(old(self).mapping(), va));
                        lemma_range_grows(tables, start, count + 1, total);
                        if range_fits(
                            old(self).mapping(),
                            tables,
                            old(source).available(),
                            start,
                            total,
                        ) {
                            assert(map_fault(
                                old(self).mapping(),
                                nth_page(start, count),
                            ) is None);
                        }
                        assert(range_mapped(
                            old(self).mapping(),
                            self.mapping(),
                            start,
                            count,
                            access,
                        ));
                    }
                    return Err(e);
                },
            }
            proof {
                assert forall|p: u64| #[trigger] old(
                    self).mapping().contains_key(p) implies source.contents()[old(
                    self).mapping()[p].0] == old(source).contents()[old(self).mapping()[p].0] by {
                    assert(before.contains_key(p));
                    assert(source.contents()[before[p].0] == c[before[p].0]);
                }
                assert(va == nth_page(start, count));
                assert(map_fault(before, va) == map_fault(old(self).mapping(), va));
                assert forall|j: int| 0 <= j < count + 1 implies map_fault(
                    old(self).mapping(),
                    #[trigger] nth_page(start, j),
                ) is None by {}
                assert forall|p: u64| in_range(p, start, count + 1) implies ({
                    let frame = (#[trigger] self.mapping()[p]).0;
                    &&& source.contents()[frame] == bytes::zeros(PAGE_SIZE as nat)
                    &&& !old(source).contents().contains_key(frame)
                }) by {
                    if p != va {
                        assert(in_range(p, start, count));
                        assert(before.contains_key(p));
                    }
                }
                assert forall|p: u64| #[trigger] self.mapping().contains_key(p) <==> old(
                    self).mapping().contains_key(p) || in_range(p, start, count + 1) by {
                    if in_range(p, start, count + 1) && p != va {
                        assert(in_range(p, start, count));
                    }
                    assert(before.contains_key(p) <==> old(self).mapping().contains_key(p)
                        || in_range(p, start, count));
                }
                assert forall|p: u64| #[trigger] old(
                    self).mapping().contains_key(p) implies self.mapping()[p] == old(
                    self).mapping()[p] && !in_range(p, start, count + 1) by {
                    assert(before.contains_key(p));
                    assert(p != va);
                }
                assert forall|p: u64| in_range(p, start, count + 1) implies (
                #[trigger] self.mapping()[p]).1 == access by {
                    if p != va {
                        assert(in_range(p, start, count));
                        assert(before[p].1 == access);
                    }
                }
                count = count + 1;
            }
            if end - va <= PAGE {
                va = end;
            } else {
                va = va + PAGE;
            }
        }
        Ok(())
    }

    /// The level 3 descriptor for `va`, found by walking the tables like the MMU does.
    pub fn descriptor<F: FrameSource>(&self, source: &F, va: u64) -> (r: Option<u64>)
        requires
            source.wf(),
            self.wf(source.contents()),
        ensures
            r == if USER_BASE <= va < USER_END && self.mapping().contains_key(page_of(va as int)) {
                Some(
                    (self.mapping()[page_of(va as int)].0 + self.mapping()[page_of(
                        va as int,
                    )].1.bits()) as u64,
                )
            } else {
                None
            },
    {
        if va < USER_BASE || va >= USER_END {
            return None;
        }
        proof {
            lemma_indices(va);
            lemma_descriptor(self.level2, TABLE);
            assert(entry(source.contents(), self.root, 2) == self.level2 + TABLE);
        }
        let root_entry = read_entry(source, self.root, (va / 0x4000_0000 % 512) as usize);
        if root_entry % 4 != TABLE {
            return None;
        }
        let level2 = table_address(root_entry);
        let index: u64 = va / 0x20_0000 % 512;
        let slot: u64 = va / PAGE % 512;
        let level2_entry = read_entry(source, level2, index as usize);
        proof {
            assert(level2_entry == entry(source.contents(), self.level2, index as int));
            if self.level3@.contains_key(index) {
                lemma_descriptor(self.level3@[index], TABLE);
            } else {
                assert(!self.frames@.contains_key(page_of(va as int)));
            }
        }
        if level2_entry % 4 != TABLE {
            return None;
        }
        let level3 = table_address(level2_entry);
        let descriptor = read_entry(source, level3, slot as usize);
        proof {
            let page = page_of(va as int);
            assert(descriptor == entry(source.contents(), self.level3@[index], slot as int));
            if self.frames@.contains_key(page) {
                lemma_descriptor(self.frames@[page], self.access@[page].bits());
            }
        }
        if descriptor % 2 == 0 {
            return None;
        }
        Some(descriptor)
    }

    /// Where `va` is in physical memory, and how the program may use it.
    pub fn translate<F: FrameSource>(&self, source: &F, va: u64) -> (r: Option<(u64, Access)>)
        requires
            source.wf(),
            self.wf(source.contents()),
        ensures
            r is Some <==> USER_BASE <= va < USER_END && self.mapping().contains_key(
                page_of(va as int),
            ),
            r matches Some((physical, access)) ==> {
                &&& physical == self.mapping()[page_of(va as int)].0 + va % 4096
                &&& access == self.mapping()[page_of(va as int)].1
            },
    {
        let descriptor = match self.descriptor(source, va) {
            Some(descriptor) => descriptor,
            None => return None,
        };
        proof {
            let page = page_of(va as int);
            assert(self.frames@.contains_key(page));
            lemma_descriptor(self.frames@[page], self.access@[page].bits());
        }
        match Access::from_descriptor(descriptor) {
            Some(access) => Some((table_address(descriptor) + va % PAGE, access)),
            None => {
                proof {
                    let access = self.access@[page_of(va as int)];
                    assert(descriptor - address_in(descriptor) == access.bits());
                }
                None
            },
        }
    }

    /// What is mapped is finite, page by page, in the user window, and in frames of its own.
    pub proof fn lemma_mapping(&self, contents: Map<u64, Seq<u8>>)
        requires
            self.wf(contents),
        ensures
            self.mapping().dom().finite(),
            self.table_set().finite(),
            is_frame(self.root()),
            forall|p: u64| #[trigger]
                self.mapping().contains_key(p) ==> {
                    &&& p % 4096 == 0
                    &&& USER_BASE <= p < USER_END
                    &&& self.table_set().contains(table_of(p))
                    &&& self.owns(self.mapping()[p].0)
                    &&& contents.contains_key(self.mapping()[p].0)
                    &&& contents[self.mapping()[p].0].len() == PAGE_SIZE
                },
    {
        assert(self.mapping().dom() =~= self.frames@.dom());
        assert forall|p: u64| #[trigger] self.mapping().contains_key(p) implies {
            &&& p % 4096 == 0
            &&& USER_BASE <= p < USER_END
            &&& self.table_set().contains(table_of(p))
            &&& self.owns(self.mapping()[p].0)
            &&& contents.contains_key(self.mapping()[p].0)
            &&& contents[self.mapping()[p].0].len() == PAGE_SIZE
        } by {
            assert(self.frames@.contains_key(p));
        }
    }

    /// Mapped pages.
    pub fn pages(&self) -> (r: usize)
        ensures
            r == self.mapping().len(),
    {
        assert(self.mapping().dom() =~= self.frames@.dom());
        self.frames.len()
    }

    /// Level 3 tables.
    pub fn tables(&self) -> (r: usize)
        ensures
            r == self.table_count(),
    {
        self.level3.len()
    }

    /// Gives every frame back to `source`.
    pub fn release<F: FrameSource>(self, source: &mut F)
        requires
            old(source).wf(),
            self.wf(old(source).contents()),
        ensures
            final(source).wf(),
            final(source).available() == old(source).available() + self.frame_count(),
            forall|f: u64| #[trigger]
                final(source).contents().contains_key(f) <==> old(
                    source).contents().contains_key(f) && !self.owns(f),
            forall|f: u64| #[trigger]
                final(source).contents().contains_key(f) ==> final(source).contents()[f] == old(
                    source).contents()[f],
    {
        let owned = self.owned;
        let mut i: usize = 0;
        proof {
            assert forall|k: int| 0 <= k < owned@.len() implies old(
                source).contents().contains_key(#[trigger] owned@[k]) by {
                assert(self.owned@.contains(owned@[k]));
            }
        }
        while i < owned.len()
            invariant
                i <= owned@.len(),
                owned@ == self.owned@,
                owned@.no_duplicates(),
                source.wf(),
                source.available() == old(source).available() + i,
                forall|k: int|
                    0 <= k < owned@.len() ==> old(source).contents().contains_key(
                        #[trigger] owned@[k],
                    ),
                forall|f: u64| #[trigger]
                    source.contents().contains_key(f) <==> old(source).contents().contains_key(f)
                        && !(exists|k: int| 0 <= k < i && #[trigger] owned@[k] == f),
                forall|f: u64| #[trigger]
                    source.contents().contains_key(f) ==> source.contents()[f] == old(
                        source).contents()[f],
            decreases owned@.len() - i,
        {
            let frame = owned[i];
            assert(old(source).contents().contains_key(owned@[i as int]));
            source.free(frame);
            proof {
                assert forall|f: u64| #[trigger]
                    source.contents().contains_key(f) <==> old(source).contents().contains_key(f)
                        && !(exists|k: int| 0 <= k < i + 1 && #[trigger] owned@[k] == f) by {
                    if f == frame {
                        assert(owned@[i as int] == f);
                    }
                }
            }
            i += 1;
        }
        proof {
            assert forall|f: u64| #[trigger] source.contents().contains_key(f) <==> old(
                source).contents().contains_key(f) && !self.owns(f) by {
                if self.owned@.contains(f) {
                    let k = choose|k: int| 0 <= k < self.owned@.len() && self.owned@[k] == f;
                    assert(owned@[k] == f);
                }
            }
        }
    }

    /// Copies `data` into mapped pages at `va`, up to the first byte that isn't there (or,
    /// if `as_program`, that the program couldn't write).
    fn put<F: FrameSource>(&self, source: &mut F, va: u64, data: &[u8], as_program: bool) -> (r:
        Result<(), AccessFault>)
        requires
            old(source).wf(),
            self.wf(old(source).contents()),
        ensures
            final(source).wf(),
            self.wf(final(source).contents()),
            copied(
                self.mapping(),
                old(source).contents(),
                final(source).contents(),
                va,
                data@,
                as_program,
                r,
            ),
            final(source).available() == old(source).available(),
    {
        let mut done: usize = 0;
        let ghost m = self.mapping();
        let ghost c0 = source.contents();
        while done < data.len()
            invariant
                done <= data@.len(),
                source.wf(),
                self.wf(source.contents()),
                m == self.mapping(),
                c0 == old(source).contents(),
                source.available() == old(source).available(),
                done > 0 ==> va + done <= USER_END,
                forall|a: int| va <= a < va + done ==> #[trigger] reachable(m, a, as_program),
                written(m, c0, source.contents(), va, data@.subrange(0, done as int)),
            decreases data@.len() - done,
        {
            let address: u64 = va + done as u64;
            let offset: usize = (address % PAGE) as usize;
            let left: usize = data.len() - done;
            let piece: usize = if PAGE_SIZE - offset < left {
                PAGE_SIZE - offset
            } else {
                left
            };
            let (physical, access) = match self.translate(source, address) {
                Some(found) => found,
                None => {
                    assert(!reachable(m, address as int, as_program));
                    return Err(AccessFault { address });
                },
            };
            if as_program && !access.writable() {
                assert(!reachable(m, address as int, as_program));
                return Err(AccessFault { address });
            }
            proof {
                lemma_indices(address);
            }
            let ghost page = page_of(address as int);
            let ghost c = source.contents();
            let frame: u64 = physical - address % PAGE;
            proof {
                assert(self.frames@.contains_key(page));
                assert(self.roles@.contains_key(frame));
            }
            source.store(frame, offset, &data[done..done + piece]);
            proof {
                let chunk = data@.subrange(done as int, done + piece);
                let with = bytes::splice(c[frame], offset as int, chunk);
                self.lemma_page_written(c, source.contents(), page, with);
                lemma_same_page(address as int, piece as int);
                assert forall|a: int| va <= a < va + done + piece implies #[trigger] reachable(
                    m,
                    a,
                    as_program,
                ) by {
                    if a >= address {
                        assert(page_of(a) == page);
                    }
                }
                lemma_written_more(
                    m,
                    c0,
                    c,
                    source.contents(),
                    va,
                    data@,
                    done as int,
                    piece as int,
                    frame,
                );
            }
            done += piece;
        }
        assert(data@.subrange(0, done as int) =~= data@);
        Ok(())
    }

    /// Copies `data` into mapped pages at `va`, whatever the program may do with them. For
    /// setting a program up, like loading its code.
    pub fn load<F: FrameSource>(&self, source: &mut F, va: u64, data: &[u8]) -> (r: Result<
        (),
        AccessFault,
    >)
        requires
            old(source).wf(),
            self.wf(old(source).contents()),
        ensures
            final(source).wf(),
            self.wf(final(source).contents()),
            copied(
                self.mapping(),
                old(source).contents(),
                final(source).contents(),
                va,
                data@,
                false,
                r,
            ),
            final(source).available() == old(source).available(),
    {
        self.put(source, va, data, false)
    }

    /// Copies `data` into program memory at `va`, if the program could write all of it; up to
    /// the first byte that it couldn't write otherwise.
    pub fn write_user<F: FrameSource>(&self, source: &mut F, va: u64, data: &[u8]) -> (r: Result<
        (),
        AccessFault,
    >)
        requires
            old(source).wf(),
            self.wf(old(source).contents()),
        ensures
            final(source).wf(),
            self.wf(final(source).contents()),
            copied(
                self.mapping(),
                old(source).contents(),
                final(source).contents(),
                va,
                data@,
                true,
                r,
            ),
            final(source).available() == old(source).available(),
    {
        self.put(source, va, data, true)
    }

    /// Copies program memory at `va` into `buf`, if the program could read all of it; up to the
    /// first byte that it couldn't read otherwise.
    pub fn read_user<F: FrameSource>(&self, source: &F, va: u64, buf: &mut [u8]) -> (r: Result<
        (),
        AccessFault,
    >)
        requires
            source.wf(),
            self.wf(source.contents()),
        ensures
            final(buf)@.len() == old(buf)@.len(),
            reaches(self.mapping(), va, old(buf)@.len() as int, false, r),
            forall|k: int|
                0 <= k < old(buf)@.len() ==> #[trigger] final(buf)@[k] == if k < copy_length(
                    va,
                    old(buf)@.len() as int,
                    r,
                ) {
                    byte_at(self.mapping(), source.contents(), va + k)
                } else {
                    old(buf)@[k]
                },
    {
        let mut done: usize = 0;
        let ghost m = self.mapping();
        let len = buf.len();
        while done < len
            invariant
                done <= len,
                len == buf@.len(),
                len == old(buf)@.len(),
                source.wf(),
                self.wf(source.contents()),
                m == self.mapping(),
                done > 0 ==> va + done <= USER_END,
                forall|a: int| va <= a < va + done ==> #[trigger] reachable(m, a, false),
                forall|k: int|
                    0 <= k < len ==> #[trigger] buf@[k] == if k < done {
                        byte_at(m, source.contents(), va + k)
                    } else {
                        old(buf)@[k]
                    },
            decreases len - done,
        {
            let address: u64 = va + done as u64;
            let offset: usize = (address % PAGE) as usize;
            let left: usize = len - done;
            let piece: usize = if PAGE_SIZE - offset < left {
                PAGE_SIZE - offset
            } else {
                left
            };
            let (physical, access) = match self.translate(source, address) {
                Some(found) => found,
                None => {
                    assert(!reachable(m, address as int, false));
                    return Err(AccessFault { address });
                },
            };
            proof {
                lemma_indices(address);
                lemma_same_page(address as int, piece as int);
            }
            let ghost page = page_of(address as int);
            let frame: u64 = physical - address % PAGE;
            proof {
                assert(self.frames@.contains_key(page));
                assert(self.roles@.contains_key(frame));
            }
            let bytes = source.load(frame, offset, piece);
            let mut i: usize = 0;
            while i < piece
                invariant
                    i <= piece,
                    done + piece <= len,
                    bytes@.len() == piece,
                    len == buf@.len(),
                    bytes@ == source.contents()[frame].subrange(offset as int, offset + piece),
                    source.contents()[frame].len() == PAGE_SIZE,
                    offset + piece <= PAGE_SIZE,
                    m[page].0 == frame,
                    address == va + done,
                    forall|k: int|
                        0 <= k < piece ==> page_of(#[trigger] (address + k)) == page && (address
                            + k) % 4096 == offset + k,
                    forall|k: int|
                        0 <= k < len ==> #[trigger] buf@[k] == if k < done + i {
                            byte_at(m, source.contents(), va + k)
                        } else {
                            old(buf)@[k]
                        },
                decreases piece - i,
            {
                proof {
                    assert(page_of(address + i) == page);
                    assert(bytes@[i as int] == byte_at(m, source.contents(), va + (done + i)));
                }
                buf[done + i] = bytes[i];
                i += 1;
            }
            proof {
                assert forall|a: int| va <= a < va + done + piece implies #[trigger] reachable(
                    m,
                    a,
                    false,
                ) by {
                    if a >= address {
                        assert(page_of(address + (a - address)) == page);
                    }
                }
            }
            done += piece;
        }
        Ok(())
    }
}

/// How many bytes a copy of `len` bytes at `va` gets through.
pub open spec fn copy_length(va: u64, len: int, r: Result<(), AccessFault>) -> int {
    match r {
        Ok(()) => len,
        Err(fault) => fault.address - va,
    }
}

/// Whether `r` is what comes of a copy of `len` bytes at `va`: it succeeds if every byte can
/// be accessed, and otherwise says which one is the first that can't.
pub open spec fn reaches(
    mapping: Mapping,
    va: u64,
    len: int,
    write: bool,
    r: Result<(), AccessFault>,
) -> bool {
    &&& 0 <= copy_length(va, len, r) <= len
    &&& forall|a: int|
        va <= a < va + copy_length(va, len, r) ==> #[trigger] reachable(mapping, a, write)
    &&& r matches Err(fault) ==> fault.address < va + len && !reachable(
        mapping,
        fault.address as int,
        write,
    )
}

/// Whether `after` is `before` with `data` in program memory at `va`, and nothing else changed.
pub open spec fn written(
    mapping: Mapping,
    before: Map<u64, Seq<u8>>,
    after: Map<u64, Seq<u8>>,
    va: u64,
    data: Seq<u8>,
) -> bool {
    &&& after.dom() == before.dom()
    &&& forall|f: u64|
        (forall|p: u64| #[trigger] mapping.contains_key(p) ==> mapping[p].0 != f) ==> after[f]
            == #[trigger] before[f]
    &&& forall|a: int|
        reachable(mapping, a, false) ==> #[trigger] byte_at(mapping, after, a) == if va <= a < va
            + data.len() {
            data[a - va]
        } else {
            byte_at(mapping, before, a)
        }
}

/// What a copy into program memory does, and how it ends.
pub open spec fn copied(
    mapping: Mapping,
    before: Map<u64, Seq<u8>>,
    after: Map<u64, Seq<u8>>,
    va: u64,
    data: Seq<u8>,
    write: bool,
    r: Result<(), AccessFault>,
) -> bool {
    &&& reaches(mapping, va, data.len() as int, write, r)
    &&& written(
        mapping,
        before,
        after,
        va,
        data.subrange(0, copy_length(va, data.len() as int, r)),
    )
}

proof fn lemma_same_page(address: int, piece: int)
    requires
        0 <= address,
        0 <= piece <= 4096 - address % 4096,
        address + piece <= u64::MAX,
    ensures
        forall|k: int|
            0 <= k < piece ==> page_of(#[trigger] (address + k)) == page_of(address) && (address
                + k) % 4096 == address % 4096 + k,
        forall|a: int| #![auto]
            address <= a < address + piece ==> page_of(a) == page_of(address) && a % 4096 == address
                % 4096 + (a - address),
{
}

/// One more piece of a copy, within one page.
proof fn lemma_written_more(
    m: Mapping,
    c0: Map<u64, Seq<u8>>,
    c: Map<u64, Seq<u8>>,
    after: Map<u64, Seq<u8>>,
    va: u64,
    data: Seq<u8>,
    done: int,
    piece: int,
    frame: u64,
)
    requires
        0 <= done,
        0 <= piece,
        done + piece <= data.len(),
        USER_BASE <= va + done < USER_END,
        piece <= 4096 - (va + done) % 4096,
        m.contains_key(page_of(va + done)),
        m[page_of(va + done)].0 == frame,
        c.contains_key(frame),
        c[frame].len() == PAGE_SIZE,
        written(m, c0, c, va, data.subrange(0, done)),
        after == c.insert(
            frame,
            bytes::splice(c[frame], (va + done) % 4096, data.subrange(done, done + piece)),
        ),
        forall|p: u64| #[trigger]
            m.contains_key(p) && p != page_of(va + done) ==> m[p].0 != frame,
    ensures
        written(m, c0, after, va, data.subrange(0, done + piece)),
{
    let address = va + done;
    let page = page_of(address);
    assert(after.dom() =~= c.dom());
    assert forall|f: u64|
        (forall|p: u64| #[trigger] m.contains_key(p) ==> m[p].0 != f) implies after[f]
        == #[trigger] c0[f] by {
        assert(m.contains_key(page));
    }
    assert forall|a: int| reachable(m, a, false) implies #[trigger] byte_at(m, after, a) == if va
        <= a < va + (done + piece) {
        data.subrange(0, done + piece)[a - va]
    } else {
        byte_at(m, c0, a)
    } by {
        assert(byte_at(m, c, a) == if va <= a < va + done {
            data.subrange(0, done)[a - va]
        } else {
            byte_at(m, c0, a)
        });
        if page_of(a) == page {
            assert(0 <= a % 4096 < 4096);
            assert(address <= a < address + piece <==> address % 4096 <= a % 4096 < address % 4096
                + piece);
        } else {
            assert(!(address <= a < address + piece)) by {
                if address <= a < address + piece {
                    lemma_same_page(address, piece);
                    assert(page_of(address + (a - address)) == page);
                }
            }
            assert(m[page_of(a)].0 != frame);
        }
    }
}

/// What was written to program memory is what is read from it.
pub proof fn reads_give_back_writes(
    mapping: Mapping,
    before: Map<u64, Seq<u8>>,
    after: Map<u64, Seq<u8>>,
    va: u64,
    data: Seq<u8>,
    k: int,
)
    requires
        copied(mapping, before, after, va, data, true, Ok(())),
        0 <= k < data.len(),
    ensures
        reachable(mapping, va + k, false),
        byte_at(mapping, after, va + k) == data[k],
{
    assert(reachable(mapping, va + k, true));
    assert(data.subrange(0, data.len() as int) =~= data);
}

/// Address spaces are independent: no frame belongs to two, so what is written to one isn't
/// seen in another.
pub proof fn spaces_are_independent(
    a: &AddressSpace,
    b: &AddressSpace,
    before: Map<u64, Seq<u8>>,
    after: Map<u64, Seq<u8>>,
    va: u64,
    data: Seq<u8>,
    at: int,
)
    requires
        a.wf(before),
        b.wf(before),
        forall|f: u64| #[trigger] a.owns(f) ==> !b.owns(f),
        written(a.mapping(), before, after, va, data),
        reachable(b.mapping(), at, false),
    ensures
        byte_at(b.mapping(), after, at) == byte_at(b.mapping(), before, at),
{
    let frame = b.mapping()[page_of(at)].0;
    assert(b.frames@.contains_key(page_of(at)));
    assert(b.owns(frame));
    assert forall|p: u64| #[trigger] a.mapping().contains_key(p) implies a.mapping()[p].0
        != frame by {
        assert(a.frames@.contains_key(p));
        assert(a.owns(a.frames@[p]));
    }
    assert(after[frame] == before[frame]);
}

/// Every page has a frame of its own.
pub proof fn pages_have_distinct_frames(
    space: &AddressSpace,
    contents: Map<u64, Seq<u8>>,
    p: u64,
    q: u64,
)
    requires
        space.wf(contents),
        space.mapping().contains_key(p),
        space.mapping().contains_key(q),
        p != q,
    ensures
        space.mapping()[p].0 != space.mapping()[q].0,
        space.owns(space.mapping()[p].0),
        is_frame(space.mapping()[p].0),
        is_frame(space.root()),
{
    assert(space.frames@.contains_key(p) && space.frames@.contains_key(q));
    assert(space.roles@[space.frames@[p]] == Role::Page(p));
    assert(space.roles@[space.frames@[q]] == Role::Page(q));
}

/// A run of physical memory, whose page frames are handed out one by one.
pub struct Ram {
    frames: Frames,
    bytes: Vec<u8>,
}

/// What memory holds before anything is written to it.
pub const JUNK: u8 = 0xAA;

impl Ram {
    proof fn lemma_frame_fits(&self, frame: u64)
        requires
            self.wf(),
            self.contents().contains_key(frame),
        ensures
            self.frames.base() <= frame,
            (frame - self.frames.base()) % 4096 == 0,
            frame - self.frames.base() + 4096 <= self.bytes@.len(),
    {
        let n = self.frames.frame_number(frame)->0;
        assert(n < self.frames.count());
        assert(frame - self.frames.base() == 4096 * n);
    }

    /// `count` frames of memory from `base` on, all free.
    pub fn new(base: u64, count: usize) -> (r: Self)
        requires
            base % 4096 == 0,
            base + count * 4096 < 0x1_0000_0000_0000,
            count * 4096 <= usize::MAX,
        ensures
            r.wf(),
            r.available() == count,
            r.contents() == Map::<u64, Seq<u8>>::empty(),
    {
        let frames = Frames::new(base, base + count as u64 * 4096);
        let bytes: Vec<u8> = vec![JUNK; count * 4096];
        let r = Ram { frames, bytes };
        proof {
            crate::frames::lemma_all_free(frames.allocated(), count as nat);
            assert(r.contents() =~= Map::<u64, Seq<u8>>::empty());
        }
        r
    }

    /// How many frames are handed out.
    pub fn live(&self) -> (r: usize)
        requires
            self.wf(),
        ensures
            r + self.available() == self.frame_total(),
    {
        proof {
            crate::frames::lemma_free_bounded(self.frames.allocated(), self.frames.count() as nat);
        }
        let stats = self.frames.stats();
        stats.total - stats.free
    }

    /// How many frames there are.
    pub closed spec fn frame_total(&self) -> nat {
        self.frames.count() as nat
    }
}

impl FrameSource for Ram {
    closed spec fn contents(&self) -> Map<u64, Seq<u8>> {
        Map::new(
            |f: u64|
                self.frames.frame_number(f) is Some && self.frames.allocated().contains(
                    self.frames.frame_number(f)->0,
                ),
            |f: u64|
                self.bytes@.subrange(
                    f - self.frames.base(),
                    f - self.frames.base() + 4096,
                ),
        )
    }

    closed spec fn available(&self) -> nat {
        crate::frames::free_below(self.frames.allocated(), self.frames.count() as nat)
    }

    closed spec fn wf(&self) -> bool {
        &&& self.frames.wf()
        &&& self.bytes@.len() == self.frames.count() * 4096
        &&& self.frames.base() % 4096 == 0
        &&& self.frames.base() + self.frames.count() * 4096 < 0x1_0000_0000_0000
    }

    fn allocate(&mut self) -> (r: Option<u64>) {
        let r = self.frames.allocate();
        proof {
            let before = old(self).frames.allocated();
            let count = self.frames.count() as nat;
            match r {
                None => {
                    crate::frames::lemma_all_taken(before, count);
                    assert(self.contents() =~= old(self).contents());
                },
                Some(frame) => {
                    let n = choose|n: int|
                        0 <= n < old(self).frames.count() && frame == old(self).frames.address(n)
                            && !#[trigger] before.contains(n) && self.frames.allocated()
                            == before.insert(n);
                    crate::frames::lemma_free_changes(before, count, n);
                    assert(self.frames.frame_number(frame) == Some(n));
                    assert(self.contents().remove(frame) =~= old(self).contents());
                },
            }
        }
        r
    }

    fn free(&mut self, frame: u64) {
        let r = self.frames.free(frame);
        proof {
            let n = old(self).frames.frame_number(frame)->0;
            let after = self.frames.allocated();
            assert(after.insert(n) =~= old(self).frames.allocated());
            crate::frames::lemma_free_changes(after, self.frames.count() as nat, n);
            assert(self.contents() =~= old(self).contents().remove(frame));
        }
    }

    fn load(&self, frame: u64, offset: usize, len: usize) -> (r: Vec<u8>) {
        proof {
            self.lemma_frame_fits(frame);
            assert(self.bytes.len() == self.bytes@.len());
        }
        let at: usize = (frame - self.frames.first_frame()) as usize + offset;
        let memory: &[u8] = &self.bytes;
        let r = vstd::slice::slice_to_vec(&memory[at..at + len]);
        assert(r@ =~= self.contents()[frame].subrange(offset as int, offset + len));
        r
    }

    fn store(&mut self, frame: u64, offset: usize, bytes: &[u8]) {
        proof {
            self.lemma_frame_fits(frame);
            assert(self.bytes.len() == self.bytes@.len());
        }
        let at: usize = (frame - self.frames.first_frame()) as usize + offset;
        bytes::overwrite(&mut self.bytes, at, bytes);
        proof {
            let base = self.frames.base();
            let expected = old(self).contents().insert(
                frame,
                bytes::splice(old(self).contents()[frame], offset as int, bytes@),
            );
            assert forall|f: u64| #[trigger] self.contents().contains_key(
                f,
            ) implies self.contents()[f] == expected[f] by {
                self.lemma_frame_fits(f);
                if f == frame {
                    assert(self.contents()[f] =~= expected[f]);
                } else {
                    assert((f - base) % 4096 == 0 && (frame - base) % 4096 == 0);
                    assert(self.contents()[f] =~= old(self).contents()[f]);
                }
            }
            assert(self.contents() =~= expected);
        }
    }
}

/// Only whole pages between 2GB and 3GB that nothing is mapped at yet can be mapped, and what is
/// wrong with any other address is told.
pub proof fn free_pages_can_be_mapped(mapping: Mapping, va: u64)
    ensures
        map_fault(mapping, va) is None <==> va % 4096 == 0 && 0x8000_0000 <= va < 0xC000_0000
            && !mapping.contains_key(va),
        map_fault(mapping, va) == Some(MapError::NotAligned) <==> va % 4096 != 0,
        map_fault(mapping, va) == Some(MapError::AlreadyMapped) ==> mapping.contains_key(va),
        map_fault(mapping, va) == Some(MapError::OutsideWindow) ==> va < 0x8000_0000 || va
            >= 0xC000_0000,
        map_fault(mapping, va) != Some(MapError::OutOfMemory),
{
}

/// The address in a descriptor, as the MMU takes it: bits 12 to 47.
pub open spec fn mmu_address(descriptor: u64) -> u64 {
    (descriptor as int % 0x1_0000_0000_0000 - descriptor as int % 0x1000) as u64
}

/// The descriptor that the MMU finds for `va` when it walks three levels of tables from `root`
/// on, each of 512 entries of eight bytes, by nine bits of the address each. It faults at an entry
/// whose low two bits aren't both set.
pub open spec fn mmu_finds(contents: Map<u64, Seq<u8>>, root: u64, va: u64) -> Option<u64> {
    let first = bytes::le64(contents[root], 8 * (va as int / 0x4000_0000 % 512));
    let second = bytes::le64(contents[mmu_address(first)], 8 * (va as int / 0x20_0000 % 512));
    let third = bytes::le64(contents[mmu_address(second)], 8 * (va as int / 0x1000 % 512));
    if first % 4 == 3 && second % 4 == 3 && third % 4 == 3 {
        Some(third)
    } else {
        None
    }
}

/// What is below a page's number in a descriptor.
#[verifier::rlimit(40)]
#[verifier::spinoff_prover]
proof fn lemma_low_bits(q: int, low: int)
    requires
        0 <= q,
        0 <= low < 4096,
    ensures
        (4096 * q + low) / 4 % 16 == low / 4 % 16,
        (4096 * q + low) / 64 % 2 == low / 64 % 2,
        (4096 * q + low) / 128 % 2 == low / 128 % 2,
        (4096 * q + low) / 256 % 16 == low / 256 % 16,
        (4096 * q + low) % 4 == low % 4,
        (4096 * q + low) % 4096 == low,
{
    assert((4096 * q + low) / 4 == 1024 * q + low / 4);
    assert((4096 * q + low) / 64 == 64 * q + low / 64);
    assert((4096 * q + low) / 128 == 32 * q + low / 128);
    assert((4096 * q + low) / 256 == 16 * q + low / 256);
}

/// What is above a page's address in a descriptor.
#[verifier::rlimit(40)]
#[verifier::spinoff_prover]
proof fn lemma_high_bits(high: int, below: int)
    requires
        0 <= high < 128,
        0 <= below < 0x1_0000_0000_0000,
    ensures
        ({
            let d = 0x1_0000_0000_0000 * high + below;
            &&& d % 0x1_0000_0000_0000 == below
            &&& d / 0x1_0000_0000_0000 == high
            &&& d / 0x20_0000_0000_0000 == high / 32
            &&& d / 0x40_0000_0000_0000 == high / 64
            &&& d / 0x80_0000_0000_0000 == 0
        }),
{
}

#[verifier::spinoff_prover]
proof fn lemma_bits_of_a_page(frame: u64, access: Access)
    requires
        is_frame(frame),
    ensures
        ({
            let d = frame + access.bits();
            &&& 0 <= d <= u64::MAX
            &&& mmu_address(d as u64) == frame
            &&& d % 4 == 3
            &&& d / 64 % 2 == 1
            &&& (d / 128 % 2 == 0 <==> access == Access::ReadWrite)
            &&& (d / 0x40_0000_0000_0000 % 2 == 0 <==> access == Access::ReadExecute)
            &&& d / 0x20_0000_0000_0000 % 2 == 1
            &&& d / 256 % 16 == 15
            &&& d / 4 % 16 == 0
            &&& d / 0x1_0000_0000_0000 % 32 == 0
            &&& d / 0x80_0000_0000_0000 == 0
        }),
{
    let d = frame + access.bits();
    let low: int = if access == Access::ReadWrite {
        0xF43
    } else {
        0xFC3
    };
    let high: int = if access == Access::ReadExecute {
        0x20
    } else {
        0x60
    };
    assert(access.bits() == low + 0x1_0000_0000_0000 * high);
    let page = frame as int / 4096;
    assert(frame == 4096 * page);
    let q = page + 0x10_0000_0000 * high;
    lemma_low_bits(q, low);
    assert(d == 4096 * q + low);
    lemma_high_bits(high, frame + low);
    assert(d == 0x1_0000_0000_0000 * high + (frame + low));
}

#[verifier::spinoff_prover]
proof fn lemma_bits_of_a_table(frame: u64)
    requires
        is_frame(frame),
    ensures
        frame + TABLE <= u64::MAX,
        mmu_address((frame + TABLE) as u64) == frame,
        (frame + TABLE) % 4 == 3,
{
    lemma_parts(frame as int, TABLE as int, 0);
}

/// The MMU finds just the mapped pages: for an address of the user window it comes to a
/// descriptor if and only if the address's page is mapped. The descriptor then leads to the
/// page's frame. It lets EL0 in (bit 6), forbids writing (bit 7) unless the page is writable,
/// forbids EL0 to execute (bit 54) unless the page is executable, always forbids the kernel to
/// (bit 53), has the access flag (bit 10), is inner shareable (bits 8 and 9) and not global
/// (bit 11), and nothing else.
#[verifier::rlimit(40)]
#[verifier::spinoff_prover]
pub proof fn the_mmu_finds_the_mapped_pages(
    space: &AddressSpace,
    contents: Map<u64, Seq<u8>>,
    va: u64,
)
    requires
        space.wf(contents),
        0x8000_0000 <= va < 0xC000_0000,
    ensures
        ({
            let page = (va - va % 4096) as u64;
            let found = mmu_finds(contents, space.root(), va);
            &&& found is Some <==> space.mapping().contains_key(page)
            &&& found matches Some(descriptor) ==> {
                let (frame, access) = space.mapping()[page];
                let d = descriptor as int;
                &&& mmu_address(descriptor) == frame
                &&& d / 64 % 2 == 1
                &&& (d / 128 % 2 == 0 <==> access == Access::ReadWrite)
                &&& (d / 0x40_0000_0000_0000 % 2 == 0 <==> access == Access::ReadExecute)
                &&& d / 0x20_0000_0000_0000 % 2 == 1
                &&& d / 256 % 16 == 15
                &&& d / 4 % 16 == 0
                &&& d / 0x1_0000_0000_0000 % 32 == 0
                &&& d / 0x80_0000_0000_0000 == 0
            }
        }),
{
    lemma_indices(va);
    let page = page_of(va as int);
    assert(page == va - va % 4096);
    let index = level2_index(va);
    let slot = level3_index(va);
    assert(space.roles@.contains_key(space.level2));
    lemma_bits_of_a_table(space.level2);
    assert(entry(contents, space.root, 2) == space.level2 + TABLE);
    let second = entry(contents, space.level2, index);
    if space.level3@.contains_key(index as u64) {
        let table = space.level3@[index as u64];
        assert(space.roles@.contains_key(table));
        lemma_bits_of_a_table(table);
        assert(second == table + TABLE);
        let third = entry(contents, table, slot);
        assert(page_at(index as u64 as int, slot) == page);
        if space.frames@.contains_key(page) {
            let frame = space.frames@[page];
            let access = space.access@[page];
            assert(space.roles@.contains_key(frame));
            lemma_bits_of_a_page(frame, access);
            assert(third == frame + access.bits());
            assert(space.mapping()[page] == (frame, access));
        } else {
            assert(third == 0);
        }
    } else {
        assert(!space.frames@.contains_key(page));
        assert(second == 0);
    }
}

} // verus!
