//! Loads user programs: statically linked AArch64 ELF64 executables.
//!
//! Only what a program needs to run is read: the file header and the `PT_LOAD` program
//! headers. Every segment must start on a page boundary (the user programs' linker script
//! arranges that), lie between `USER_BASE` and `PROGRAM_END`, and be writable or executable
//! but not both. Anything else is refused before a single page is mapped.

use crate::abi::layout::{PAGE_SIZE, PROGRAM_END, USER_BASE};
use crate::bytes;
use crate::paging;
use crate::paging::{Access, AccessFault, AddressSpace, FrameSource, MapError};
use vstd::prelude::*;

verus! {

broadcast use vstd::seq_lib::group_to_multiset_ensures;

#[derive(Clone, Copy, Debug, PartialEq, Eq, Structural)]
pub enum ElfError {
    /// Shorter than its headers say it is.
    Truncated,
    /// No ELF magic number.
    NotElf,
    /// Not a little-endian, 64-bit, AArch64 file.
    WrongArchitecture,
    /// Not a statically linked executable (a shared library or position-independent one).
    NotExecutable,
    /// Has no loadable segments.
    NoSegments,
    /// A segment doesn't start on a page boundary.
    Unaligned,
    /// A segment reaches outside `USER_BASE..PROGRAM_END`.
    OutsideProgramArea,
    /// A segment is bigger in the file than in memory.
    BadSize,
    /// A segment is both writable and executable.
    WritableAndExecutable,
    /// Two segments share a page.
    Overlapping,
    /// The entry point isn't in an executable segment.
    BadEntry,
}

impl ElfError {
    pub open spec fn words(self) -> Seq<char> {
        match self {
            ElfError::Truncated => "file is truncated"@,
            ElfError::NotElf => "not an ELF file"@,
            ElfError::WrongArchitecture => "not a 64-bit little-endian AArch64 program"@,
            ElfError::NotExecutable => "not a statically linked executable"@,
            ElfError::NoSegments => "nothing to load"@,
            ElfError::Unaligned => "segment not page aligned"@,
            ElfError::OutsideProgramArea => "segment outside the program area"@,
            ElfError::BadSize => "segment bigger in the file than in memory"@,
            ElfError::WritableAndExecutable => "segment both writable and executable"@,
            ElfError::Overlapping => "segments overlap"@,
            ElfError::BadEntry => "entry point not in executable code"@,
        }
    }

    pub fn description(self) -> (r: &'static str)
        ensures
            r@ == self.words(),
    {
        match self {
            ElfError::Truncated => "file is truncated",
            ElfError::NotElf => "not an ELF file",
            ElfError::WrongArchitecture => "not a 64-bit little-endian AArch64 program",
            ElfError::NotExecutable => "not a statically linked executable",
            ElfError::NoSegments => "nothing to load",
            ElfError::Unaligned => "segment not page aligned",
            ElfError::OutsideProgramArea => "segment outside the program area",
            ElfError::BadSize => "segment bigger in the file than in memory",
            ElfError::WritableAndExecutable => "segment both writable and executable",
            ElfError::Overlapping => "segments overlap",
            ElfError::BadEntry => "entry point not in executable code",
        }
    }
}

/// A validated program, borrowing its bytes from the file.
#[derive(Debug, PartialEq, Eq)]
pub struct Program<'a> {
    pub entry: u64,
    /// In address order.
    pub segments: Vec<Segment<'a>>,
}

#[derive(Debug, PartialEq, Eq)]
pub struct Segment<'a> {
    pub address: u64,
    /// Bytes in memory. The part past `data` is zero (`.bss`).
    pub size: u64,
    pub data: &'a [u8],
    pub access: Access,
}

/// What a segment says: where its bytes go and which they are.
pub struct Placement {
    pub address: u64,
    pub size: u64,
    pub data: Seq<u8>,
    pub access: Access,
}

impl Segment<'_> {
    pub open spec fn view(&self) -> Placement {
        Placement {
            address: self.address,
            size: self.size,
            data: self.data@,
            access: self.access,
        }
    }

    pub fn end(&self) -> (r: u64)
        requires
            self.address + self.size <= u64::MAX,
        ensures
            r == self.address + self.size,
    {
        self.address + self.size
    }
}

pub open spec fn placements(segments: Seq<Segment<'_>>) -> Seq<Placement> {
    Seq::new(segments.len(), |i: int| segments[i]@)
}

const CLASS_64: u8 = 2;

const LITTLE_ENDIAN: u8 = 1;

const TYPE_EXECUTABLE: u16 = 2;

const MACHINE_AARCH64: u16 = 183;

const HEADER_SIZE: usize = 64;

const PROGRAM_HEADER_SIZE: usize = 56;

const PT_LOAD: u32 = 1;

const PF_X: u32 = 1;

const PF_W: u32 = 2;

/// Whether the file starts with the ELF magic number.
pub open spec fn has_magic(file: Seq<u8>) -> bool {
    file.len() >= 4 && file[0] == 0x7F && file[1] == 0x45 && file[2] == 0x4C && file[3] == 0x46
}

/// Why the file header alone is refused, if it is.
pub open spec fn header_fault(file: Seq<u8>) -> Option<ElfError> {
    if !has_magic(file) {
        Some(ElfError::NotElf)
    } else if file.len() < 64 {
        Some(ElfError::Truncated)
    } else if file[4] != 2 || file[5] != 1 || bytes::le16(file, 18) != 183 {
        Some(ElfError::WrongArchitecture)
    } else if bytes::le16(file, 16) != 2 {
        Some(ElfError::NotExecutable)
    } else if bytes::le16(file, 56) > 0 && bytes::le16(file, 54) < 56 {
        Some(ElfError::Truncated)
    } else {
        None
    }
}

/// Where program header `i` is.
pub open spec fn program_header(file: Seq<u8>, i: int) -> int {
    bytes::le64(file, 32) + i * bytes::le16(file, 54)
}

/// What program header `at` asks to load: nothing if it isn't for a loadable segment.
pub open spec fn segment_at(file: Seq<u8>, at: int) -> Result<Option<Placement>, ElfError> {
    if at + 4 > file.len() {
        Err(ElfError::Truncated)
    } else if bytes::le32(file, at) != 1 {
        Ok(None)
    } else if at + 48 > file.len() {
        Err(ElfError::Truncated)
    } else {
        let flags = bytes::le32(file, at + 4);
        let offset = bytes::le64(file, at + 8);
        let address = bytes::le64(file, at + 16);
        let file_size = bytes::le64(file, at + 32);
        let size = bytes::le64(file, at + 40);
        if address % PAGE_SIZE != 0 {
            Err(ElfError::Unaligned)
        } else if address < USER_BASE || address + size > PROGRAM_END {
            Err(ElfError::OutsideProgramArea)
        } else if file_size > size {
            Err(ElfError::BadSize)
        } else if offset + file_size > file.len() {
            Err(ElfError::Truncated)
        } else if flags & 2u32 != 0 && flags & 1u32 != 0 {
            Err(ElfError::WritableAndExecutable)
        } else {
            let access = if flags & 2u32 != 0 {
                Access::ReadWrite
            } else if flags & 1u32 != 0 {
                Access::ReadExecute
            } else {
                Access::ReadOnly
            };
            let data = file.subrange(offset as int, offset + file_size);
            if size > 0 {
                Ok(Some(Placement { address, size, data, access }))
            } else {
                Ok(None)
            }
        }
    }
}

/// The segments that the first `count` program headers load, in file order, or what is wrong
/// with the first bad one.
pub open spec fn segments_of(file: Seq<u8>, count: nat) -> Result<Seq<Placement>, ElfError>
    decreases count,
{
    if count == 0 {
        Ok(Seq::empty())
    } else {
        match segments_of(file, (count - 1) as nat) {
            Err(e) => Err(e),
            Ok(before) => match segment_at(file, program_header(file, count - 1)) {
                Err(e) => Err(e),
                Ok(None) => Ok(before),
                Ok(Some(segment)) => Ok(before.push(segment)),
            },
        }
    }
}

/// `n` rounded up to whole pages.
pub open spec fn page_ceil(n: int) -> int {
    (n + PAGE_SIZE - 1) / PAGE_SIZE as int * PAGE_SIZE
}

/// Whether `b` starts at or after `a`, on a page that `a` reaches into.
pub open spec fn shares_page(a: Placement, b: Placement) -> bool {
    a.address <= b.address && b.address < page_ceil(a.address + a.size)
}

pub open spec fn any_overlap(segments: Seq<Placement>) -> bool {
    exists|i: int, j: int|
        0 <= i < segments.len() && 0 <= j < segments.len() && i != j && #[trigger] shares_page(
            segments[i],
            segments[j],
        )
}

/// Whether execution can start at `entry`.
pub open spec fn runs_at(segments: Seq<Placement>, entry: u64) -> bool {
    exists|i: int|
        0 <= i < segments.len() && (#[trigger] segments[i]).access == Access::ReadExecute
            && segments[i].address <= entry < segments[i].address + segments[i].size
}

/// The segments of a program RustyPI can run, in file order, or why it is refused.
pub open spec fn parsed(file: Seq<u8>) -> Result<Seq<Placement>, ElfError> {
    match header_fault(file) {
        Some(e) => Err(e),
        None => match segments_of(file, bytes::le16(file, 56) as nat) {
            Err(e) => Err(e),
            Ok(segments) => if segments.len() == 0 {
                Err(ElfError::NoSegments)
            } else if any_overlap(segments) {
                Err(ElfError::Overlapping)
            } else if !runs_at(segments, bytes::le64(file, 24)) {
                Err(ElfError::BadEntry)
            } else {
                Ok(segments)
            },
        },
    }
}

/// A segment that may be mapped as it stands.
pub open spec fn placed_well(segment: Placement) -> bool {
    &&& segment.address % PAGE_SIZE == 0
    &&& USER_BASE <= segment.address
    &&& segment.address + segment.size <= PROGRAM_END
    &&& 0 < segment.size
    &&& segment.data.len() <= segment.size
}

/// Segments in address order.
pub open spec fn ascending(segments: Seq<Placement>) -> bool {
    forall|i: int, j: int|
        0 <= i < j < segments.len() ==> #[trigger] segments[i].address
            <= #[trigger] segments[j].address
}

/// Segments in address order, no two of which share a page.
pub open spec fn apart(segments: Seq<Placement>) -> bool {
    forall|i: int, j: int|
        0 <= i < j < segments.len() ==> page_ceil(
            #[trigger] segments[i].address + segments[i].size,
        ) <= #[trigger] segments[j].address
}

impl Program<'_> {
    /// Every segment may be mapped, none shares a page with another, and the entry point is
    /// in one that may be executed.
    pub open spec fn runnable(&self) -> bool {
        let segments = placements(self.segments@);
        &&& forall|i: int| 0 <= i < segments.len() ==> placed_well(#[trigger] segments[i])
        &&& apart(segments)
        &&& runs_at(segments, self.entry)
    }
}

/// What loads is what the program headers ask for.
proof fn lemma_segments_placed_well(file: Seq<u8>, count: nat)
    ensures
        segments_of(file, count) matches Ok(segments) ==> forall|i: int|
            0 <= i < segments.len() ==> placed_well(#[trigger] segments[i]),
    decreases count,
{
    if count > 0 {
        lemma_segments_placed_well(file, (count - 1) as nat);
    }
}

/// An error among the first headers is the file's error.
proof fn lemma_segment_fault_is_final(file: Seq<u8>, from: nat, to: nat)
    requires
        from <= to,
        segments_of(file, from) is Err,
    ensures
        segments_of(file, to) == segments_of(file, from),
    decreases to,
{
    if from < to {
        lemma_segment_fault_is_final(file, from, (to - 1) as nat);
    }
}

/// Sorting segments changes neither whether two overlap nor where they run.
proof fn lemma_reordered(a: Seq<Placement>, b: Seq<Placement>, entry: u64)
    requires
        a.to_multiset() == b.to_multiset(),
    ensures
        a.len() == b.len(),
        runs_at(a, entry) == runs_at(b, entry),
        forall|i: int| 0 <= i < a.len() ==> b.contains(#[trigger] a[i]),
{
    a.to_multiset_ensures();
    b.to_multiset_ensures();
    assert forall|i: int| 0 <= i < a.len() implies b.contains(#[trigger] a[i]) by {
        assert(a.to_multiset().count(a[i]) > 0);
    }
    assert forall|i: int| 0 <= i < b.len() implies a.contains(#[trigger] b[i]) by {
        assert(b.to_multiset().count(b[i]) > 0);
    }
    if runs_at(a, entry) {
        let i = choose|i: int|
            0 <= i < a.len() && (#[trigger] a[i]).access == Access::ReadExecute && a[i].address
                <= entry < a[i].address + a[i].size;
        assert(b.contains(a[i]));
    }
    if runs_at(b, entry) {
        let i = choose|i: int|
            0 <= i < b.len() && (#[trigger] b[i]).access == Access::ReadExecute && b[i].address
                <= entry < b[i].address + b[i].size;
        assert(a.contains(b[i]));
    }
}

/// Overlap doesn't depend on the order of the segments.
proof fn lemma_overlap_reordered(a: Seq<Placement>, b: Seq<Placement>)
    requires
        a.to_multiset() == b.to_multiset(),
        any_overlap(a),
    ensures
        any_overlap(b),
{
    let (i, j) = choose|i: int, j: int|
        0 <= i < a.len() && 0 <= j < a.len() && i != j && #[trigger] shares_page(a[i], a[j]);
    let x = a[i];
    let y = a[j];
    if x == y {
        // It occurs twice in `a`, so it occurs twice in `b`.
        assert(a.to_multiset().count(x) >= 2) by {
            let rest = a.remove(i);
            assert(rest.insert(i, x) =~= a);
            rest.to_multiset_ensures();
            let k = if j < i { j } else { j - 1 };
            assert(rest[k] == x);
            assert(rest.contains(x));
            a.to_multiset_ensures();
            assert(rest.to_multiset().count(x) > 0);
            assert(a.remove(i).to_multiset() =~= a.to_multiset().remove(x));
        }
        b.to_multiset_ensures();
        assert(b.contains(x));
        let k = choose|k: int| 0 <= k < b.len() && b[k] == x;
        let rest = b.remove(k);
        assert(rest.to_multiset() =~= b.to_multiset().remove(x));
        assert(rest.to_multiset().count(x) > 0);
        rest.to_multiset_ensures();
        assert(rest.contains(x));
        let m = choose|m: int| 0 <= m < rest.len() && rest[m] == x;
        let n = if m < k { m } else { m + 1 };
        assert(b[n] == x);
        assert(shares_page(b[k], b[n]));
    } else {
        a.to_multiset_ensures();
        b.to_multiset_ensures();
        assert(a.contains(x) && a.contains(y));
        assert(b.to_multiset().count(x) > 0 && b.to_multiset().count(y) > 0);
        assert(b.contains(x) && b.contains(y));
        let k = choose|k: int| 0 <= k < b.len() && b[k] == x;
        let n = choose|n: int| 0 <= n < b.len() && b[n] == y;
        assert(shares_page(b[k], b[n]));
    }
}

/// Puts `segment` where its address belongs.
fn insert_segment<'a>(segments: &mut Vec<Segment<'a>>, segment: Segment<'a>)
    requires
        ascending(placements(old(segments)@)),
    ensures
        ascending(placements(final(segments)@)),
        placements(final(segments)@).to_multiset() == placements(
            old(segments)@,
        ).to_multiset().insert(segment@),
{
    let mut at: usize = segments.len();
    while at > 0 && segments[at - 1].address > segment.address
        invariant
            at <= segments@.len(),
            segments@ == old(segments)@,
            ascending(placements(segments@)),
            forall|i: int|
                at <= i < segments@.len() ==> (#[trigger] placements(segments@)[i]).address
                    > segment.address,
        decreases at,
    {
        assert(placements(segments@)[at - 1].address == segments@[at - 1].address);
        assert forall|i: int| at - 1 <= i < segments@.len() implies (#[trigger] placements(
            segments@,
        )[i]).address > segment.address by {}
        at -= 1;
    }
    let ghost before = placements(segments@);
    let ghost added = segment@;
    proof {
        if at > 0 {
            assert(before[at - 1].address <= added.address);
        }
    }
    segments.insert(at, segment);
    proof {
        let after = placements(segments@);
        assert(after =~= before.insert(at as int, added));
        before.to_multiset_ensures();
        assert(after.remove(at as int) =~= before);
        after.to_multiset_ensures();
        assert(after.to_multiset().remove(added) =~= before.to_multiset());
        assert(after.to_multiset().count(added) > 0);
        assert(after.to_multiset() =~= before.to_multiset().insert(added));
        assert forall|i: int, j: int| 0 <= i < j < after.len() implies #[trigger] after[i].address
            <= #[trigger] after[j].address by {
            if i < at && j == at {
                assert(before[i].address <= before[at - 1].address);
            }
        }
    }
}

/// Reads one program header: the segment it loads, if it loads one.
fn parse_segment<'a>(file: &'a [u8], at: u64) -> (r: Result<Option<Segment<'a>>, ElfError>)
    ensures
        match (r, segment_at(file@, at as int)) {
            (Ok(Some(segment)), Ok(Some(placement))) => segment@ == placement,
            (Ok(None), Ok(None)) => true,
            (Err(e), Err(f)) => e == f,
            _ => false,
        },
{
    let len = file.len() as u64;
    if len < 4 || at > len - 4 {
        return Err(ElfError::Truncated);
    }
    let at = at as usize;
    if bytes::le32_at(file, at) != PT_LOAD {
        return Ok(None);
    }
    if file.len() < 48 || at > file.len() - 48 {
        return Err(ElfError::Truncated);
    }
    let flags = bytes::le32_at(file, at + 4);
    let offset = bytes::le64_at(file, at + 8);
    let address = bytes::le64_at(file, at + 16);
    let file_size = bytes::le64_at(file, at + 32);
    let size = bytes::le64_at(file, at + 40);
    if address % PAGE_SIZE != 0 {
        return Err(ElfError::Unaligned);
    }
    if address < USER_BASE || address > PROGRAM_END || size > PROGRAM_END - address {
        return Err(ElfError::OutsideProgramArea);
    }
    if file_size > size {
        return Err(ElfError::BadSize);
    }
    if offset > len || file_size > len - offset {
        return Err(ElfError::Truncated);
    }
    let data = &file[offset as usize..(offset + file_size) as usize];
    let access = if flags & PF_W != 0 {
        if flags & PF_X != 0 {
            return Err(ElfError::WritableAndExecutable);
        }
        Access::ReadWrite
    } else if flags & PF_X != 0 {
        Access::ReadExecute
    } else {
        Access::ReadOnly
    };
    if size > 0 {
        Ok(Some(Segment { address, size, data, access }))
    } else {
        Ok(None)
    }
}

/// Checks the file header.
fn check_header(file: &[u8]) -> (r: Result<(), ElfError>)
    ensures
        match r {
            Ok(()) => header_fault(file@) is None,
            Err(e) => header_fault(file@) == Some(e),
        },
{
    let magic = file.len() >= 4 && file[0] == 0x7F && file[1] == 0x45 && file[2] == 0x4C && file[3]
        == 0x46;
    if !magic {
        return Err(ElfError::NotElf);
    }
    if file.len() < HEADER_SIZE {
        return Err(ElfError::Truncated);
    }
    if file[4] != CLASS_64 || file[5] != LITTLE_ENDIAN || bytes::le16_at(file, 18)
        != MACHINE_AARCH64 {
        return Err(ElfError::WrongArchitecture);
    }
    if bytes::le16_at(file, 16) != TYPE_EXECUTABLE {
        return Err(ElfError::NotExecutable);
    }
    if bytes::le16_at(file, 56) > 0 && (bytes::le16_at(file, 54) as usize) < PROGRAM_HEADER_SIZE {
        return Err(ElfError::Truncated);
    }
    Ok(())
}

/// Whether any two of the segments, in address order, share a page.
fn segments_overlap(segments: &Vec<Segment<'_>>) -> (r: bool)
    requires
        ascending(placements(segments@)),
        forall|i: int|
            0 <= i < segments@.len() ==> placed_well(#[trigger] placements(segments@)[i]),
    ensures
        r == any_overlap(placements(segments@)),
        !r ==> apart(placements(segments@)),
{
    let ghost model = placements(segments@);
    let mut i: usize = 1;
    while i < segments.len()
        invariant
            1 <= i,
            i <= segments@.len() || segments@.len() == 0,
            model == placements(segments@),
            ascending(model),
            forall|k: int| 0 <= k < model.len() ==> placed_well(#[trigger] model[k]),
            forall|k: int, m: int|
                0 <= k < m < i && m < model.len() ==> page_ceil(
                    #[trigger] model[k].address + model[k].size,
                ) <= #[trigger] model[m].address,
        decreases segments@.len() - i,
    {
        assert(placed_well(model[i - 1]));
        assert(segments@[i - 1]@ == model[i - 1]);
        let end = segments[i - 1].end();
        let reached = (end + (PAGE_SIZE - 1)) / PAGE_SIZE * PAGE_SIZE;
        assert(reached == page_ceil(model[i - 1].address + model[i - 1].size));
        if reached > segments[i].address {
            assert(segments@[i as int]@ == model[i as int]);
            assert(shares_page(model[i - 1], model[i as int]));
            return true;
        }
        assert forall|k: int, m: int| 0 <= k < m < i + 1 && m < model.len() implies page_ceil(
            #[trigger] model[k].address + model[k].size,
        ) <= #[trigger] model[m].address by {
            if m == i && k < i - 1 {
                assert(page_ceil(model[k].address + model[k].size) <= model[i - 1].address);
                assert(model[i - 1].address <= model[i as int].address);
            }
        }
        i += 1;
    }
    proof {
        assert(apart(model));
        if any_overlap(model) {
            let (k, m) = choose|k: int, m: int|
                0 <= k < model.len() && 0 <= m < model.len() && k != m && #[trigger] shares_page(
                    model[k],
                    model[m],
                );
            assert(placed_well(model[k]) && placed_well(model[m]));
            if k < m {
                assert(page_ceil(model[k].address + model[k].size) <= model[m].address);
            } else {
                assert(page_ceil(model[m].address + model[m].size) <= model[k].address);
            }
        }
    }
    false
}

/// Whether execution can start at `entry`.
fn entry_runs(segments: &Vec<Segment<'_>>, entry: u64) -> (r: bool)
    requires
        forall|i: int|
            0 <= i < segments@.len() ==> placed_well(#[trigger] placements(segments@)[i]),
    ensures
        r == runs_at(placements(segments@), entry),
{
    let ghost model = placements(segments@);
    let mut i: usize = 0;
    while i < segments.len()
        invariant
            i <= segments@.len(),
            model == placements(segments@),
            forall|k: int| 0 <= k < model.len() ==> placed_well(#[trigger] model[k]),
            forall|k: int|
                0 <= k < i ==> !((#[trigger] model[k]).access == Access::ReadExecute
                    && model[k].address <= entry < model[k].address + model[k].size),
        decreases segments@.len() - i,
    {
        let segment = &segments[i];
        assert(model[i as int] == segment@);
        assert(placed_well(model[i as int]));
        if segment.access == Access::ReadExecute && segment.address <= entry && entry
            < segment.end() {
            return true;
        }
        i += 1;
    }
    false
}

/// Checks `file` is a program RustyPI can run, and finds its segments.
pub fn parse(file: &[u8]) -> (r: Result<Program<'_>, ElfError>)
    ensures
        match r {
            Err(e) => parsed(file@) == Err::<Seq<Placement>, ElfError>(e),
            Ok(program) => {
                &&& parsed(file@) is Ok
                &&& program.entry == bytes::le64(file@, 24)
                &&& placements(program.segments@).to_multiset()
                    == parsed(file@)->Ok_0.to_multiset()
                &&& program.runnable()
            },
        },
{
    check_header(file)?;
    let entry = bytes::le64_at(file, 24);
    let table = bytes::le64_at(file, 32);
    let entry_size = bytes::le16_at(file, 54) as u64;
    let count = bytes::le16_at(file, 56);
    let mut segments: Vec<Segment<'_>> = Vec::new();
    let mut i: u16 = 0;
    proof {
        assert(placements(segments@) =~= Seq::<Placement>::empty());
    }
    while i < count
        invariant
            i <= count,
            count == bytes::le16(file@, 56),
            table == bytes::le64(file@, 32),
            entry_size == bytes::le16(file@, 54),
            header_fault(file@) is None,
            ascending(placements(segments@)),
            segments_of(file@, i as nat) is Ok,
            placements(segments@).to_multiset() == segments_of(
                file@,
                i as nat,
            )->Ok_0.to_multiset(),
        decreases count - i,
    {
        let ghost before = segments_of(file@, i as nat)->Ok_0;
        let ghost header = program_header(file@, i as int);
        assert(i * entry_size <= 0xFFFF * 0xFFFF) by (nonlinear_arith)
            requires
                0 <= i <= 0xFFFF,
                0 <= entry_size <= 0xFFFF,
        ;
        let distance: u64 = i as u64 * entry_size;
        proof {
            if segment_at(file@, header) is Err {
                assert(segments_of(file@, (i + 1) as nat) == Err::<Seq<Placement>, ElfError>(
                    segment_at(file@, header)->Err_0,
                ));
                lemma_segment_fault_is_final(file@, (i + 1) as nat, count as nat);
            }
        }
        assert(distance == i * entry_size);
        if table > u64::MAX - distance {
            assert(file.len() == file@.len());
            return Err(ElfError::Truncated);
        }
        match parse_segment(file, table + distance) {
            Err(e) => {
                return Err(e);
            },
            Ok(None) => {},
            Ok(Some(segment)) => {
                proof {
                    before.to_multiset_ensures();
                    assert(before.push(segment@).to_multiset() =~= before.to_multiset().insert(
                        segment@,
                    ));
                }
                insert_segment(&mut segments, segment);
            },
        }
        i += 1;
    }
    let ghost found = segments_of(file@, count as nat)->Ok_0;
    proof {
        lemma_segments_placed_well(file@, count as nat);
        lemma_reordered(placements(segments@), found, entry);
        if any_overlap(found) {
            lemma_overlap_reordered(found, placements(segments@));
        }
        if any_overlap(placements(segments@)) {
            lemma_overlap_reordered(placements(segments@), found);
        }
        assert forall|k: int| 0 <= k < segments@.len() implies placed_well(
            #[trigger] placements(segments@)[k],
        ) by {
            assert(found.contains(placements(segments@)[k]));
        }
    }
    if segments.len() == 0 {
        return Err(ElfError::NoSegments);
    }
    if segments_overlap(&segments) {
        return Err(ElfError::Overlapping);
    }
    if !entry_runs(&segments, entry) {
        return Err(ElfError::BadEntry);
    }
    Ok(Program { entry, segments })
}

/// Loading a valid program failed: the address space already had something in its way.
#[derive(Clone, Copy, Debug, PartialEq, Eq, Structural)]
pub enum LoadError {
    Unmappable(MapError),
    Access(AccessFault),
}

/// How many pages a segment takes.
pub open spec fn pages_of(segment: Placement) -> int {
    (segment.size + 4095) / 4096
}

/// Whether `p` is one of the segment's pages.
pub open spec fn is_page_of(segment: Placement, p: u64) -> bool {
    paging::in_range(p, segment.address, pages_of(segment))
}

/// Whether a segment is in memory: its pages may be used as it says, and hold its data and
/// then zeros.
pub open spec fn in_memory(
    segment: Placement,
    mapping: paging::Mapping,
    contents: Map<u64, Seq<u8>>,
) -> bool {
    forall|a: int|
        segment.address <= a < segment.address + segment.size ==> {
            &&& #[trigger] paging::reachable(mapping, a, false)
            &&& mapping[paging::page_of(a)].1 == segment.access
            &&& paging::byte_at(mapping, contents, a) == if a - segment.address
                < segment.data.len() {
                segment.data[a - segment.address]
            } else {
                0
            }
        }
}

proof fn lemma_pages(segment: Placement, a: int)
    requires
        placed_well(segment),
        segment.address <= a < segment.address + segment.size,
    ensures
        is_page_of(segment, paging::page_of(a)),
        paging::USER_BASE <= a < paging::USER_END,
{
}

/// A page belongs to one of two segments that are apart at most.
proof fn lemma_pages_apart(a: Placement, b: Placement, p: u64)
    requires
        placed_well(a),
        placed_well(b),
        page_ceil(a.address + a.size) <= b.address,
        is_page_of(a, p),
    ensures
        !is_page_of(b, p),
{
}

/// The level 3 tables that there are, `tables` at first, once the first `n` segments are mapped.
pub open spec fn tables_loaded(segments: Seq<Placement>, tables: Set<u64>, n: int) -> Set<u64>
    decreases n,
{
    if n <= 0 {
        tables
    } else {
        paging::tables_with(
            tables_loaded(segments, tables, n - 1),
            segments[n - 1].address,
            pages_of(segments[n - 1]),
        )
    }
}

/// How many frames the first `n` segments take: one for each page, and one for each level 3
/// table that there is none of yet.
pub open spec fn frames_loaded(segments: Seq<Placement>, tables: Set<u64>, n: int) -> nat
    decreases n,
{
    if n <= 0 {
        0
    } else {
        frames_loaded(segments, tables, n - 1) + paging::frames_for(
            tables_loaded(segments, tables, n - 1),
            segments[n - 1].address,
            pages_of(segments[n - 1]),
        )
    }
}

/// Whether segments can be loaded: none of their pages is mapped, and there are frames for them
/// all.
pub open spec fn load_fits(
    segments: Seq<Placement>,
    mapping: paging::Mapping,
    tables: Set<u64>,
    available: nat,
) -> bool {
    &&& forall|i: int, p: u64|
        0 <= i < segments.len() && #[trigger] is_page_of(segments[i], p) ==> !mapping.contains_key(
            p,
        )
    &&& frames_loaded(segments, tables, segments.len() as int) <= available
}

/// Whether the first `n` segments are in memory, the first `count` pages of the next one are
/// mapped, and nothing else is that wasn't before.
pub open spec fn loaded_so_far(
    segments: Seq<Placement>,
    before: paging::Mapping,
    after: paging::Mapping,
    contents: Map<u64, Seq<u8>>,
    n: int,
    count: int,
) -> bool {
    &&& forall|k: int| 0 <= k < n ==> in_memory(#[trigger] segments[k], after, contents)
    &&& forall|p: u64| #[trigger] before.contains_key(p) ==> after.contains_key(p) && after[p]
        == before[p]
    &&& forall|p: u64| #[trigger]
        after.contains_key(p) ==> before.contains_key(p) || (exists|k: int|
            0 <= k < n && is_page_of(#[trigger] segments[k], p)) || (n < segments.len()
            && paging::in_range(p, segments[n].address, count))
    &&& forall|k: int, p: u64|
        0 <= k < n && #[trigger] is_page_of(segments[k], p) ==> !before.contains_key(p)
    &&& n < segments.len() ==> forall|p: u64| #[trigger]
        paging::in_range(p, segments[n].address, count) ==> after.contains_key(p)
            && !before.contains_key(p)
}

/// A segment in memory still is once more is mapped.
proof fn lemma_still_in_memory(
    segment: Placement,
    m0: paging::Mapping,
    m1: paging::Mapping,
    c0: Map<u64, Seq<u8>>,
    c1: Map<u64, Seq<u8>>,
)
    requires
        in_memory(segment, m0, c0),
        forall|p: u64| #[trigger]
            m0.contains_key(p) ==> m1.contains_key(p) && m1[p] == m0[p] && c1[m0[p].0]
                == c0[m0[p].0],
    ensures
        in_memory(segment, m1, c1),
{
    assert forall|a: int| segment.address <= a < segment.address + segment.size implies {
        &&& #[trigger] paging::reachable(m1, a, false)
        &&& m1[paging::page_of(a)].1 == segment.access
        &&& paging::byte_at(m1, c1, a) == if a - segment.address < segment.data.len() {
            segment.data[a - segment.address]
        } else {
            0
        }
    } by {
        assert(paging::reachable(m0, a, false));
        assert(m0.contains_key(paging::page_of(a)));
    }
}

/// Data that is loaded into a segment's pages leaves other pages as they were.
proof fn lemma_page_left(
    segment: Placement,
    m: paging::Mapping,
    before: Map<u64, Seq<u8>>,
    after: Map<u64, Seq<u8>>,
    p: u64,
)
    requires
        placed_well(segment),
        paging::written(m, before, after, segment.address, segment.data),
        m.contains_key(p),
        p % 4096 == 0,
        paging::USER_BASE <= p < paging::USER_END,
        !is_page_of(segment, p),
        before[m[p].0].len() == PAGE_SIZE,
        after[m[p].0].len() == PAGE_SIZE,
    ensures
        after[m[p].0] == before[m[p].0],
{
    let f = m[p].0;
    assert forall|k: int| 0 <= k < 4096 implies after[f][k] == before[f][k] by {
        let a = p + k;
        assert(paging::page_of(a) == p && a % 4096 == k);
        assert(paging::reachable(m, a, false));
        assert(paging::byte_at(m, after, a) == after[f][k]);
        assert(paging::byte_at(m, before, a) == before[f][k]);
        if segment.address <= a < segment.address + segment.data.len() {
            lemma_pages(segment, a);
        }
    }
    assert(after[f] =~= before[f]);
}

/// More segments take no fewer frames.
proof fn lemma_load_grows(segments: Seq<Placement>, tables: Set<u64>, few: int, many: int)
    requires
        few <= many,
    ensures
        frames_loaded(segments, tables, few) <= frames_loaded(segments, tables, many),
    decreases many,
{
    if few < many && many > 0 {
        lemma_load_grows(segments, tables, few, many - 1);
    }
}

impl Program<'_> {
    /// Maps and fills every segment in `space`.
    #[verifier::rlimit(80)]
    #[verifier::spinoff_prover]
    pub fn load<F: FrameSource>(&self, space: &mut AddressSpace, source: &mut F) -> (r: Result<
        (),
        LoadError,
    >)
        requires
            self.runnable(),
            old(source).wf(),
            old(space).wf(old(source).contents()),
        ensures
            final(source).wf(),
            final(space).wf(final(source).contents()),
            final(space).kernel_entries() == old(space).kernel_entries(),
            final(space).root() == old(space).root(),
            final(space).mapping().dom().finite(),
            // Every frame is accounted for, and those of others keep their contents, as do the
            // pages that were mapped.
            final(source).available() + final(space).frame_count() == old(source).available()
                + old(space).frame_count(),
            forall|f: u64| #[trigger]
                old(source).contents().contains_key(f) ==> {
                    &&& final(source).contents().contains_key(f)
                    &&& final(space).owns(f) == old(space).owns(f)
                    &&& !old(space).owns(f) ==> final(source).contents()[f] == old(
                        source).contents()[f]
                },
            forall|p: u64| #[trigger]
                old(space).mapping().contains_key(p) ==> final(source).contents()[old(
                    space).mapping()[p].0] == old(source).contents()[old(space).mapping()[p].0],
            r is Ok <==> load_fits(
                placements(self.segments@),
                old(space).mapping(),
                old(space).table_set(),
                old(source).available(),
            ),
            match r {
                Ok(()) => {
                    let n = self.segments@.len() as int;
                    &&& loaded_so_far(
                        placements(self.segments@),
                        old(space).mapping(),
                        final(space).mapping(),
                        final(source).contents(),
                        n,
                        0,
                    )
                    &&& final(source).available() + frames_loaded(
                        placements(self.segments@),
                        old(space).table_set(),
                        n,
                    ) == old(source).available()
                    &&& final(space).table_set() == tables_loaded(
                        placements(self.segments@),
                        old(space).table_set(),
                        n,
                    )
                },
                Err(e) => exists|n: int, count: int|
                    {
                        let segments = placements(self.segments@);
                        &&& 0 <= n < segments.len()
                        &&& 0 <= count < pages_of(segments[n])
                        &&& #[trigger] loaded_so_far(
                            placements(self.segments@),
                            old(space).mapping(),
                            final(space).mapping(),
                            final(source).contents(),
                            n,
                            count,
                        )
                        &&& if old(space).mapping().contains_key(
                            paging::nth_page(segments[n].address, count),
                        ) {
                            e == LoadError::Unmappable(MapError::AlreadyMapped)
                        } else {
                            &&& e == LoadError::Unmappable(MapError::OutOfMemory)
                            &&& final(source).available() == 0
                            &&& old(source).available() < frames_loaded(
                                segments,
                                old(space).table_set(),
                                n,
                            ) + paging::frames_for(
                                tables_loaded(segments, old(space).table_set(), n),
                                segments[n].address,
                                count + 1,
                            )
                        }
                    },
            },
    {
        let ghost model = placements(self.segments@);
        let ghost tables = old(space).table_set();
        let mut i: usize = 0;
        proof {
            space.lemma_mapping(source.contents());
        }
        while i < self.segments.len()
            invariant
                i <= self.segments@.len(),
                model == placements(self.segments@),
                tables == old(space).table_set(),
                self.runnable(),
                source.wf(),
                space.wf(source.contents()),
                old(space).wf(old(source).contents()),
                space.kernel_entries() == old(space).kernel_entries(),
                space.root() == old(space).root(),
                space.mapping().dom().finite(),
                source.available() + space.frame_count() == old(source).available() + old(
                    space).frame_count(),
                forall|f: u64| #[trigger]
                    old(source).contents().contains_key(f) ==> {
                        &&& source.contents().contains_key(f)
                        &&& space.owns(f) == old(space).owns(f)
                        &&& !old(space).owns(f) ==> source.contents()[f] == old(
                            source).contents()[f]
                    },
                forall|p: u64| #[trigger]
                    old(space).mapping().contains_key(p) ==> source.contents()[old(
                        space).mapping()[p].0] == old(source).contents()[old(space).mapping()[p].0],
                source.available() + frames_loaded(model, tables, i as int) == old(
                    source).available(),
                space.table_set() == tables_loaded(model, tables, i as int),
                loaded_so_far(
                    model,
                    old(space).mapping(),
                    space.mapping(),
                    source.contents(),
                    i as int,
                    0,
                ),
            decreases self.segments@.len() - i,
        {
            let segment = &self.segments[i];
            let ghost placed = model[i as int];
            assert(placed == segment@);
            assert(placed_well(placed));
            let ghost m0 = space.mapping();
            let ghost c0 = source.contents();
            let ghost t0 = space.table_set();
            let ghost a0 = source.available();
            proof {
                self.lemma_next_pages(old(space).mapping(), m0, c0, i as int);
            }
            match space.map_range(source, segment.address, segment.size, segment.access) {
                Ok(()) => {},
                Err(e) => {
                    proof {
                        let total = pages_of(placed);
                        let count = choose|count: int|
                            {
                                &&& 0 <= count < total
                                &&& #[trigger] paging::range_mapped(
                                    m0,
                                    space.mapping(),
                                    placed.address,
                                    count,
                                    placed.access,
                                )
                                &&& paging::range_fits(m0, t0, a0, placed.address, count)
                                &&& match paging::map_fault(
                                    m0,
                                    paging::nth_page(placed.address, count),
                                ) {
                                    Some(fault) => e == fault,
                                    None => e == MapError::OutOfMemory && source.available() == 0
                                        && a0 < paging::frames_for(t0, placed.address, count + 1),
                                }
                            };
                        self.lemma_stopped(
                            old(space).mapping(),
                            m0,
                            space.mapping(),
                            c0,
                            source.contents(),
                            i as int,
                            count,
                        );
                        let p = paging::nth_page(placed.address, count);
                        assert(is_page_of(model[i as int], p));
                        lemma_load_grows(model, tables, i + 1, model.len() as int);
                        if !old(space).mapping().contains_key(p) {
                            paging::lemma_range_grows(t0, placed.address, count + 1, total);
                        }
                        assert forall|q: u64| #[trigger] old(
                            space).mapping().contains_key(q) implies source.contents()[old(
                            space).mapping()[q].0] == old(source).contents()[old(
                            space).mapping()[q].0] by {
                            assert(m0.contains_key(q));
                        }
                    }
                    return Err(LoadError::Unmappable(e));
                },
            }
            let ghost m1 = space.mapping();
            let ghost c1 = source.contents();
            proof {
                assert(paging::range_mapped(m0, m1, placed.address, pages_of(placed), placed.access));
                assert forall|a: int|
                    placed.address <= a < placed.address + placed.size implies #[trigger] paging::reachable(
                    m1,
                    a,
                    false,
                ) && paging::byte_at(m1, c1, a) == 0 by {
                    lemma_pages(placed, a);
                    assert(m1.contains_key(paging::page_of(a)));
                    assert(c1[m1[paging::page_of(a)].0] == bytes::zeros(4096));
                }
                space.lemma_mapping(c1);
            }
            match space.load(source, segment.address, segment.data) {
                Ok(()) => {},
                Err(e) => {
                    proof {
                        assert(paging::reachable(m1, e.address as int, false));
                    }
                    return Err(LoadError::Access(e));
                },
            }
            proof {
                let c2 = source.contents();
                let data = placed.data;
                assert(data.subrange(0, data.len() as int) =~= data);
                assert forall|a: int|
                    placed.address <= a < placed.address + placed.size implies #[trigger] paging::reachable(
                    m1,
                    a,
                    false,
                ) && m1[paging::page_of(a)].1 == placed.access && paging::byte_at(m1, c2, a)
                    == if a - placed.address < data.len() {
                    data[a - placed.address]
                } else {
                    0
                } by {
                    lemma_pages(placed, a);
                    assert(paging::reachable(m1, a, false));
                    assert(paging::byte_at(m1, c2, a) == paging::byte_at(m1, c2, a));
                }
                assert(in_memory(placed, m1, c2));
                space.lemma_mapping(c2);
                self.lemma_loaded_more(old(space).mapping(), m0, m1, c0, c1, c2, i as int);
                assert forall|p: u64| #[trigger] old(
                    space).mapping().contains_key(p) implies c2[old(space).mapping()[p].0] == old(
                    source).contents()[old(space).mapping()[p].0] by {
                    assert(m0.contains_key(p));
                    assert(m1.contains_key(p));
                    lemma_page_left(placed, m1, c1, c2, p);
                }
                assert forall|f: u64| #[trigger] old(source).contents().contains_key(f) implies {
                    &&& c2.contains_key(f)
                    &&& space.owns(f) == old(space).owns(f)
                    &&& !old(space).owns(f) ==> c2[f] == old(source).contents()[f]
                } by {
                    assert(c0.contains_key(f));
                    assert(c1.contains_key(f));
                    if !old(space).owns(f) {
                        assert forall|p: u64| #[trigger] m1.contains_key(p) implies m1[p].0 != f by {
                            assert(space.owns(m1[p].0));
                        }
                        assert(c2[f] == c1[f]);
                    }
                }
            }
            i += 1;
        }
        Ok(())
    }

    /// What is mapped already of the next segment's pages was so before.
    proof fn lemma_next_pages(
        &self,
        before: paging::Mapping,
        m0: paging::Mapping,
        c0: Map<u64, Seq<u8>>,
        i: int,
    )
        requires
            self.runnable(),
            0 <= i < self.segments@.len(),
            loaded_so_far(placements(self.segments@), before, m0, c0, i, 0),
        ensures
            forall|p: u64| #[trigger]
                is_page_of(placements(self.segments@)[i], p) ==> m0.contains_key(p)
                    == before.contains_key(p) && paging::map_fault(m0, p)
                    == if before.contains_key(p) {
                    Some(MapError::AlreadyMapped)
                } else {
                    None
                },
    {
        let model = placements(self.segments@);
        let placed = model[i];
        assert(placed_well(placed));
        assert forall|p: u64| #[trigger] is_page_of(placed, p) implies m0.contains_key(p)
            == before.contains_key(p) && paging::map_fault(m0, p) == if before.contains_key(p) {
            Some(MapError::AlreadyMapped)
        } else {
            None
        } by {
            assert(p < PROGRAM_END);
            if m0.contains_key(p) && !before.contains_key(p) {
                let k = choose|k: int| 0 <= k < i && is_page_of(#[trigger] model[k], p);
                assert(placed_well(model[k]));
                assert(page_ceil(model[k].address + model[k].size) <= model[i].address);
                lemma_pages_apart(model[k], placed, p);
            }
        }
    }

    /// What is there when a segment's pages can't all be mapped.
    proof fn lemma_stopped(
        &self,
        before: paging::Mapping,
        m0: paging::Mapping,
        m1: paging::Mapping,
        c0: Map<u64, Seq<u8>>,
        c1: Map<u64, Seq<u8>>,
        i: int,
        count: int,
    )
        requires
            self.runnable(),
            0 <= i < self.segments@.len(),
            loaded_so_far(placements(self.segments@), before, m0, c0, i, 0),
            0 <= count <= pages_of(placements(self.segments@)[i]),
            paging::range_mapped(
                m0,
                m1,
                placements(self.segments@)[i].address,
                count,
                placements(self.segments@)[i].access,
            ),
            forall|p: u64| #[trigger] m0.contains_key(p) ==> c1[m0[p].0] == c0[m0[p].0],
        ensures
            loaded_so_far(placements(self.segments@), before, m1, c1, i, count),
    {
        let model = placements(self.segments@);
        assert forall|k: int| 0 <= k < i implies in_memory(#[trigger] model[k], m1, c1) by {
            lemma_still_in_memory(model[k], m0, m1, c0, c1);
        }
        assert forall|p: u64| #[trigger] m1.contains_key(p) implies before.contains_key(p) || (
        exists|k: int| 0 <= k < i && is_page_of(#[trigger] model[k], p)) || paging::in_range(
            p,
            model[i].address,
            count,
        ) by {
            if m0.contains_key(p) && !before.contains_key(p) {
                let k = choose|k: int| 0 <= k < i && is_page_of(#[trigger] model[k], p);
                assert(is_page_of(model[k], p));
            }
        }
        assert forall|p: u64| #[trigger] before.contains_key(p) implies m1.contains_key(p)
            && m1[p] == before[p] by {
            assert(m0.contains_key(p));
        }
        assert forall|p: u64| #[trigger]
            paging::in_range(p, model[i].address, count) implies m1.contains_key(p)
            && !before.contains_key(p) by {
            if before.contains_key(p) {
                assert(m0.contains_key(p));
            }
        }
    }

    /// What is there once one more segment is loaded.
    proof fn lemma_loaded_more(
        &self,
        before: paging::Mapping,
        m0: paging::Mapping,
        m1: paging::Mapping,
        c0: Map<u64, Seq<u8>>,
        c1: Map<u64, Seq<u8>>,
        c2: Map<u64, Seq<u8>>,
        i: int,
    )
        requires
            self.runnable(),
            0 <= i < self.segments@.len(),
            loaded_so_far(placements(self.segments@), before, m0, c0, i, 0),
            ({
                let placed = placements(self.segments@)[i];
                &&& paging::range_mapped(m0, m1, placed.address, pages_of(placed), placed.access)
                &&& paging::written(m1, c1, c2, placed.address, placed.data)
                &&& in_memory(placed, m1, c2)
            }),
            forall|p: u64| #[trigger] m0.contains_key(p) ==> c1[m0[p].0] == c0[m0[p].0],
        ensures
            loaded_so_far(placements(self.segments@), before, m1, c2, i + 1, 0),
    {
        let model = placements(self.segments@);
        let total = pages_of(model[i]);
        self.lemma_stopped(before, m0, m1, c0, c1, i, total);
        assert forall|k: int| 0 <= k < i + 1 implies in_memory(#[trigger] model[k], m1, c2) by {
            if k < i {
                self.lemma_segment_kept(m0, m1, c0, c1, c2, k, i);
            }
        }
        assert forall|p: u64| #[trigger] m1.contains_key(p) implies before.contains_key(p) || (
        exists|k: int| 0 <= k < i + 1 && is_page_of(#[trigger] model[k], p)) by {
            if !before.contains_key(p) {
                if paging::in_range(p, model[i].address, total) {
                    assert(is_page_of(model[i], p));
                } else {
                    let k = choose|k: int| 0 <= k < i && is_page_of(#[trigger] model[k], p);
                    assert(is_page_of(model[k], p));
                }
            }
        }
    }

    /// A segment that was in memory still is once the next one is.
    #[verifier::spinoff_prover]
    proof fn lemma_segment_kept(
        &self,
        m0: paging::Mapping,
        m1: paging::Mapping,
        c0: Map<u64, Seq<u8>>,
        c1: Map<u64, Seq<u8>>,
        c2: Map<u64, Seq<u8>>,
        k: int,
        i: int,
    )
        requires
            self.runnable(),
            0 <= k < i < self.segments@.len(),
            in_memory(placements(self.segments@)[k], m0, c0),
            ({
                let placed = placements(self.segments@)[i];
                &&& paging::range_mapped(m0, m1, placed.address, pages_of(placed), placed.access)
                &&& paging::written(m1, c1, c2, placed.address, placed.data)
            }),
            forall|p: u64| #[trigger] m0.contains_key(p) ==> c1[m0[p].0] == c0[m0[p].0],
        ensures
            in_memory(placements(self.segments@)[k], m1, c2),
    {
        let segment = placements(self.segments@)[k];
        assert forall|a: int|
            segment.address <= a < segment.address + segment.size implies #[trigger] byte_in_place(
            segment,
            m1,
            c2,
            a,
        ) by {
            self.lemma_byte_kept(m0, m1, c0, c1, c2, k, i, a);
        }
        assert forall|a: int| segment.address <= a < segment.address + segment.size implies {
            &&& #[trigger] paging::reachable(m1, a, false)
            &&& m1[paging::page_of(a)].1 == segment.access
            &&& paging::byte_at(m1, c2, a) == if a - segment.address < segment.data.len() {
                segment.data[a - segment.address]
            } else {
                0
            }
        } by {
            assert(byte_in_place(segment, m1, c2, a));
        }
        assert(in_memory(segment, m1, c2));
    }

    #[verifier::spinoff_prover]
    proof fn lemma_byte_kept(
        &self,
        m0: paging::Mapping,
        m1: paging::Mapping,
        c0: Map<u64, Seq<u8>>,
        c1: Map<u64, Seq<u8>>,
        c2: Map<u64, Seq<u8>>,
        k: int,
        i: int,
        a: int,
    )
        requires
            self.runnable(),
            0 <= k < i < self.segments@.len(),
            in_memory(placements(self.segments@)[k], m0, c0),
            ({
                let placed = placements(self.segments@)[i];
                &&& paging::range_mapped(m0, m1, placed.address, pages_of(placed), placed.access)
                &&& paging::written(m1, c1, c2, placed.address, placed.data)
            }),
            forall|p: u64| #[trigger] m0.contains_key(p) ==> c1[m0[p].0] == c0[m0[p].0],
            ({
                let segment = placements(self.segments@)[k];
                segment.address <= a < segment.address + segment.size
            }),
        ensures
            byte_in_place(placements(self.segments@)[k], m1, c2, a),
    {
        let model = placements(self.segments@);
        let segment = model[k];
        let placed = model[i];
        assert(placed_well(segment) && placed_well(placed));
        assert(page_ceil(segment.address + segment.size) <= placed.address);
        assert(paging::reachable(m0, a, false));
        let p = paging::page_of(a);
        assert(m0.contains_key(p));
        assert(m1[p] == m0[p]);
        assert(paging::reachable(m1, a, false));
        assert(paging::byte_at(m1, c1, a) == paging::byte_at(m0, c0, a));
        assert(paging::byte_at(m1, c2, a) == paging::byte_at(m1, c1, a));
    }
}

/// Whether the byte at `a` is as a segment says.
pub open spec fn byte_in_place(
    segment: Placement,
    mapping: paging::Mapping,
    contents: Map<u64, Seq<u8>>,
    a: int,
) -> bool {
    &&& paging::reachable(mapping, a, false)
    &&& mapping[paging::page_of(a)].1 == segment.access
    &&& paging::byte_at(mapping, contents, a) == if a - segment.address < segment.data.len() {
        segment.data[a - segment.address]
    } else {
        0
    }
}

} // verus!
