//! Executables as linkers write them, field by field, and what is made of them.

use crate::bytes;
use crate::elf;
use crate::elf::{ElfError, Placement};
use crate::paging;
use crate::paging::Access;
use vstd::prelude::*;

verus! {

/// The fields of a program header that matter.
pub struct ProgramHeader {
    pub kind: u32,
    pub flags: u32,
    pub offset: u64,
    pub address: u64,
    pub file_size: u64,
    pub size: u64,
}

pub open spec fn program_header_at(file: Seq<u8>, at: int) -> ProgramHeader {
    ProgramHeader {
        kind: bytes::le32(file, at),
        flags: bytes::le32(file, at + 4),
        offset: bytes::le64(file, at + 8),
        address: bytes::le64(file, at + 16),
        file_size: bytes::le64(file, at + 32),
        size: bytes::le64(file, at + 40),
    }
}

/// Where program header number `i` is, by what the file header says of where they start (byte
/// 32) and how long each is (byte 54).
pub open spec fn header_place(file: Seq<u8>, i: int) -> int {
    bytes::le64(file, 32) + i * bytes::le16(file, 54)
}

/// The program headers that a file has, in order.
pub open spec fn program_headers(file: Seq<u8>) -> Seq<ProgramHeader> {
    Seq::new(
        bytes::le16(file, 56) as nat,
        |i: int| program_header_at(file, header_place(file, i)),
    )
}

/// A 64-bit little endian static executable for AArch64 (machine 183, type 2), with the whole of
/// its program headers.
pub open spec fn is_executable(file: Seq<u8>) -> bool {
    &&& file.len() >= 64
    &&& file.subrange(0, 4) == seq![0x7Fu8, 0x45, 0x4C, 0x46]
    &&& file[4] == 2
    &&& file[5] == 1
    &&& bytes::le16(file, 16) == 2
    &&& bytes::le16(file, 18) == 183
    &&& bytes::le16(file, 56) > 0 ==> bytes::le16(file, 54) >= 56
    &&& forall|i: int|
        0 <= i < bytes::le16(file, 56) ==> #[trigger] header_place(file, i) + 56 <= file.len()
}

/// Whether a header is for a segment to load (`PT_LOAD`, type 1).
pub open spec fn is_loadable() -> spec_fn(ProgramHeader) -> bool {
    |h: ProgramHeader| h.kind == 1
}

/// The headers of the segments to load, in order.
pub open spec fn loadable(file: Seq<u8>) -> Seq<ProgramHeader> {
    program_headers(file).filter(is_loadable())
}

impl ProgramHeader {
    /// Bit 0 of its flags.
    pub open spec fn executable(self) -> bool {
        self.flags % 2 == 1
    }

    /// Bit 1 of its flags.
    pub open spec fn writable(self) -> bool {
        self.flags / 2 % 2 == 1
    }

    /// The bytes of the file that it loads, if the file has them all.
    pub open spec fn piece(self, file: Seq<u8>) -> Option<Seq<u8>> {
        if self.offset + self.file_size <= file.len() {
            Some(file.subrange(self.offset as int, self.offset + self.file_size))
        } else {
            None
        }
    }

    /// What is wrong with it, if anything: it must start on a page, lie in the program area, be
    /// no bigger in the file than in memory, have all its bytes in the file, and not be
    /// both writable and executable.
    pub open spec fn fault(self, file: Seq<u8>) -> Option<ElfError> {
        if self.address % 4096 != 0 {
            Some(ElfError::Unaligned)
        } else if self.address < 0x8000_0000 || self.address + self.size > 0xBFFE_E000 {
            Some(ElfError::OutsideProgramArea)
        } else if self.file_size > self.size {
            Some(ElfError::BadSize)
        } else if self.offset + self.file_size > file.len() {
            Some(ElfError::Truncated)
        } else if self.writable() && self.executable() {
            Some(ElfError::WritableAndExecutable)
        } else {
            None
        }
    }

    /// Where it puts what.
    pub open spec fn placement(self, file: Seq<u8>) -> Placement {
        Placement {
            address: self.address,
            size: self.size,
            data: file.subrange(self.offset as int, self.offset + self.file_size),
            access: (if self.writable() {
                Access::ReadWrite
            } else if self.executable() {
                Access::ReadExecute
            } else {
                Access::ReadOnly
            }),
        }
    }
}

/// The segments that headers load, or what is wrong with the first bad one.
spec fn placed(file: Seq<u8>, headers: Seq<ProgramHeader>) -> Result<Seq<Placement>, ElfError>
    decreases headers.len(),
{
    if headers.len() == 0 {
        Ok(Seq::empty())
    } else {
        match placed(file, headers.drop_last()) {
            Err(e) => Err(e),
            Ok(before) => match headers.last().fault(file) {
                Some(e) => Err(e),
                None => if headers.last().size > 0 {
                    Ok(before.push(headers.last().placement(file)))
                } else {
                    Ok(before)
                },
            },
        }
    }
}

proof fn lemma_flags(flags: u32)
    ensures
        (flags & 1u32 != 0) == (flags % 2 == 1),
        (flags & 2u32 != 0) == (flags / 2 % 2 == 1),
{
    assert((flags & 1u32 != 0) == (flags % 2 == 1)) by (bit_vector);
    assert((flags & 2u32 != 0) == (flags / 2 % 2 == 1)) by (bit_vector);
}

/// What one header asks for.
proof fn lemma_one_header(file: Seq<u8>, at: int)
    requires
        at + 56 <= file.len(),
    ensures
        ({
            let h = program_header_at(file, at);
            elf::segment_at(file, at) == (if h.kind != 1 {
                Ok(None)
            } else {
                match h.fault(file) {
                    Some(e) => Err(e),
                    None => if h.size > 0 {
                        Ok(Some(h.placement(file)))
                    } else {
                        Ok(None)
                    },
                }
            })
        }),
{
    lemma_flags(bytes::le32(file, at + 4));
}

/// What the first headers load is what those of them that are to be loaded do.
proof fn lemma_headers(file: Seq<u8>, n: int)
    requires
        is_executable(file),
        0 <= n <= bytes::le16(file, 56),
    ensures
        elf::segments_of(file, n as nat) == placed(
            file,
            program_headers(file).subrange(0, n).filter(is_loadable()),
        ),
    decreases n,
{
    reveal(Seq::filter);
    let all = program_headers(file);
    let some = all.subrange(0, n);
    if n > 0 {
        lemma_headers(file, n - 1);
        assert(some.drop_last() =~= all.subrange(0, n - 1));
        let last = some.last();
        assert(elf::program_header(file, n - 1) == header_place(file, n - 1));
        lemma_one_header(file, header_place(file, n - 1));
        let before = all.subrange(0, n - 1).filter(is_loadable());
        if last.kind == 1 {
            assert(some.filter(is_loadable()) == before.push(last));
            assert(before.push(last).drop_last() =~= before);
        }
    }
}

/// What loads when nothing is wrong, and what is said of the first header with which something
/// is.
proof fn lemma_placed(file: Seq<u8>, headers: Seq<ProgramHeader>)
    ensures
        (forall|i: int| 0 <= i < headers.len() ==> (#[trigger] headers[i]).fault(file) is None)
            ==> placed(file, headers) == Ok::<Seq<Placement>, ElfError>(
            headers.filter(|h: ProgramHeader| h.size > 0).map_values(
                |h: ProgramHeader| h.placement(file),
            ),
        ),
        forall|k: int|
            0 <= k < headers.len() && (#[trigger] headers[k]).fault(file) is Some && (forall|i: int|
                0 <= i < k ==> (#[trigger] headers[i]).fault(file) is None) ==> placed(
                file,
                headers,
            ) == Err::<Seq<Placement>, ElfError>(headers[k].fault(file)->0),
    decreases headers.len(),
{
    reveal(Seq::filter);
    let keep = |h: ProgramHeader| h.size > 0;
    let place = |h: ProgramHeader| h.placement(file);
    if headers.len() == 0 {
        assert(headers.filter(keep).map_values(place) =~= Seq::empty());
    } else {
        let before = headers.drop_last();
        lemma_placed(file, before);
        assert forall|i: int| 0 <= i < before.len() implies before[i] == #[trigger] headers[i] by {}
        if forall|i: int| 0 <= i < headers.len() ==> (#[trigger] headers[i]).fault(file) is None {
            assert forall|i: int| 0 <= i < before.len() implies (#[trigger] before[i]).fault(
                file,
            ) is None by {
                assert(headers[i] == before[i]);
            }
            assert(headers[headers.len() - 1].fault(file) is None);
            if headers.last().size > 0 {
                assert(headers.filter(keep).map_values(place) =~= before.filter(keep).map_values(
                    place,
                ).push(place(headers.last())));
            }
        }
        assert forall|k: int|
            0 <= k < headers.len() && (#[trigger] headers[k]).fault(file) is Some && (forall|i: int|
                0 <= i < k ==> (#[trigger] headers[i]).fault(file) is None) implies placed(
            file,
            headers,
        ) == Err::<Seq<Placement>, ElfError>(headers[k].fault(file)->0) by {
            if k < before.len() {
                assert(before[k] == headers[k]);
                assert forall|i: int| 0 <= i < k implies (#[trigger] before[i]).fault(
                    file,
                ) is None by {
                    assert(headers[i] == before[i]);
                }
            } else {
                assert forall|i: int| 0 <= i < before.len() implies (#[trigger] before[i]).fault(
                    file,
                ) is None by {
                    assert(headers[i] == before[i]);
                }
            }
        }
    }
}

/// The same headers and the same bytes load the same.
proof fn lemma_same_pieces(a: Seq<u8>, b: Seq<u8>, headers: Seq<ProgramHeader>)
    requires
        forall|i: int|
            0 <= i < headers.len() ==> (#[trigger] headers[i]).piece(a) == headers[i].piece(b),
    ensures
        placed(a, headers) == placed(b, headers),
    decreases headers.len(),
{
    if headers.len() > 0 {
        let before = headers.drop_last();
        assert forall|i: int| 0 <= i < before.len() implies (#[trigger] before[i]).piece(a)
            == before[i].piece(b) by {
            assert(headers[i] == before[i]);
        }
        lemma_same_pieces(a, b, before);
        let last = headers[headers.len() - 1];
        assert(last.piece(a) == last.piece(b));
        assert(last.fault(a) == last.fault(b));
        if last.fault(a) is None {
            assert(last.placement(a) == last.placement(b));
        }
    }
}

/// Program headers of other types than `PT_LOAD` don't matter, whatever they say and wherever
/// they stand among the others: of two executables with the same entry point, the same headers
/// of segments to load in the same order, and the same bytes for these, both are accepted, with
/// the same segments, or both are refused, for the same reason.
pub proof fn other_headers_are_passed_over(a: Seq<u8>, b: Seq<u8>)
    requires
        is_executable(a),
        is_executable(b),
        bytes::le64(a, 24) == bytes::le64(b, 24),
        loadable(a) == loadable(b),
        forall|i: int|
            0 <= i < loadable(a).len() ==> (#[trigger] loadable(a)[i]).piece(a)
                == loadable(a)[i].piece(b),
    ensures
        elf::parsed(a) == elf::parsed(b),
{
    lemma_accepted_header(a);
    lemma_accepted_header(b);
    lemma_same_pieces(a, b, loadable(a));
}

/// The file header is fine, and the segments are those of the headers to be loaded.
proof fn lemma_accepted_header(file: Seq<u8>)
    requires
        is_executable(file),
    ensures
        elf::header_fault(file) is None,
        elf::segments_of(file, bytes::le16(file, 56) as nat) == placed(file, loadable(file)),
{
    let magic = file.subrange(0, 4);
    assert(magic[0] == file[0] && magic[1] == file[1] && magic[2] == file[2] && magic[3]
        == file[3]);
    let n = bytes::le16(file, 56) as int;
    lemma_headers(file, n);
    assert(program_headers(file).subrange(0, n) =~= program_headers(file));
}

/// The number of the page that address `x` is in.
pub open spec fn page(x: int) -> int {
    x / 4096
}

/// Whether some byte of a segment is in page number `p`.
pub open spec fn reaches(segment: Placement, p: int) -> bool {
    exists|x: int|
        segment.address <= x < segment.address + segment.size && #[trigger] page(x) == p
}

/// Whether two segments reach into one page.
pub open spec fn in_one_page(a: Placement, b: Placement) -> bool {
    exists|p: int| #[trigger] reaches(a, p) && reaches(b, p)
}

/// Two segments on page boundaries share a page when both reach into it.
proof fn lemma_in_one_page(a: Placement, b: Placement)
    requires
        a.address % 4096 == 0,
        b.address % 4096 == 0,
        a.size > 0,
        b.size > 0,
    ensures
        in_one_page(a, b) == (elf::shares_page(a, b) || elf::shares_page(b, a)),
        in_one_page(a, b) == in_one_page(b, a),
{
    let start_a = page(a.address as int);
    let start_b = page(b.address as int);
    assert(reaches(a, start_a) && reaches(b, start_b));
    if in_one_page(a, b) {
        let p = choose|p: int| #[trigger] reaches(a, p) && reaches(b, p);
        assert(reaches(b, p) && reaches(a, p));
        assert(in_one_page(b, a));
    }
    if in_one_page(b, a) {
        let p = choose|p: int| #[trigger] reaches(b, p) && reaches(a, p);
        assert(reaches(a, p) && reaches(b, p));
        assert(in_one_page(a, b));
    }
    if elf::shares_page(a, b) {
        assert(b.address < a.address + a.size);
        assert(reaches(a, start_b));
    }
    if elf::shares_page(b, a) {
        assert(a.address < b.address + b.size);
        assert(reaches(b, start_a));
    }
}

/// What an executable loads is what its headers of type `PT_LOAD` say, in order: each segment's
/// address, size, bytes and access, but for empty ones. It is refused for the first header that
/// is wrong; for having nothing to load; for segments of which two reach into one page; and
/// when execution would start outside the executable ones.
pub proof fn executables_load_what_their_headers_say(file: Seq<u8>)
    requires
        is_executable(file),
    ensures
        ({
            let headers = loadable(file);
            let entry = bytes::le64(file, 24);
            let segments = headers.filter(|h: ProgramHeader| h.size > 0).map_values(
                |h: ProgramHeader| h.placement(file),
            );
            &&& forall|k: int|
                0 <= k < headers.len() && (#[trigger] headers[k]).fault(file) is Some && (forall|
                    i: int,
                |
                    0 <= i < k ==> (#[trigger] headers[i]).fault(file) is None) ==> elf::parsed(
                    file,
                ) == Err::<Seq<Placement>, ElfError>(headers[k].fault(file)->0)
            &&& (forall|i: int| 0 <= i < headers.len() ==> (#[trigger] headers[i]).fault(file) is None)
                ==> elf::parsed(file) == (if segments.len() == 0 {
                Err(ElfError::NoSegments)
            } else if exists|i: int, j: int|
                0 <= i < j < segments.len() && #[trigger] in_one_page(segments[i], segments[j]) {
                Err(ElfError::Overlapping)
            } else if exists|i: int|
                0 <= i < segments.len() && (#[trigger] segments[i]).access == Access::ReadExecute
                    && segments[i].address <= entry < segments[i].address + segments[i].size {
                Ok(segments)
            } else {
                Err(ElfError::BadEntry)
            })
        }),
{
    let headers = loadable(file);
    let keep = |h: ProgramHeader| h.size > 0;
    let place = |h: ProgramHeader| h.placement(file);
    let segments = headers.filter(keep).map_values(place);
    lemma_accepted_header(file);
    lemma_placed(file, headers);
    if forall|i: int| 0 <= i < headers.len() ==> (#[trigger] headers[i]).fault(file) is None {
        assert forall|i: int| 0 <= i < segments.len() implies (#[trigger] segments[i]).address
            % 4096 == 0 && segments[i].size > 0 by {
            let h = headers.filter(keep)[i];
            assert(segments[i] == h.placement(file));
            headers.lemma_filter_pred(keep, i);
            assert(headers.filter(keep).contains(h));
            headers.lemma_filter_contains_rev(keep, h);
        }
        assert(elf::any_overlap(segments) == exists|i: int, j: int|
            0 <= i < j < segments.len() && #[trigger] in_one_page(segments[i], segments[j])) by {
            if elf::any_overlap(segments) {
                let (i, j) = choose|i: int, j: int|
                    0 <= i < segments.len() && 0 <= j < segments.len() && i != j
                        && #[trigger] elf::shares_page(segments[i], segments[j]);
                lemma_in_one_page(segments[i], segments[j]);
                assert(in_one_page(segments[i], segments[j]) && in_one_page(
                    segments[j],
                    segments[i],
                ));
            }
            if exists|i: int, j: int|
                0 <= i < j < segments.len() && #[trigger] in_one_page(segments[i], segments[j]) {
                let (i, j) = choose|i: int, j: int|
                    0 <= i < j < segments.len() && #[trigger] in_one_page(segments[i], segments[j]);
                lemma_in_one_page(segments[i], segments[j]);
            }
        }
    }
}

/// Files that are not executables are told apart by their headers: without the magic number they
/// are not ELF files; with it they may be too short, for another machine, word size or
/// byte order, or something else than a static executable.
pub proof fn other_files_are_refused(file: Seq<u8>)
    ensures
        (file.len() < 4 || file.subrange(0, 4) != seq![0x7Fu8, 0x45, 0x4C, 0x46]) ==> elf::parsed(
            file,
        ) == Err::<Seq<Placement>, ElfError>(ElfError::NotElf),
        file.len() >= 4 && file.subrange(0, 4) == seq![0x7Fu8, 0x45, 0x4C, 0x46] ==> {
            &&& file.len() < 64 ==> elf::parsed(file) == Err::<Seq<Placement>, ElfError>(
                ElfError::Truncated,
            )
            &&& file.len() >= 64 && (file[4] != 2 || file[5] != 1 || bytes::le16(file, 18) != 183)
                ==> elf::parsed(file) == Err::<Seq<Placement>, ElfError>(
                ElfError::WrongArchitecture,
            )
            &&& file.len() >= 64 && file[4] == 2 && file[5] == 1 && bytes::le16(file, 18) == 183
                && bytes::le16(file, 16) != 2 ==> elf::parsed(file) == Err::<
                Seq<Placement>,
                ElfError,
            >(ElfError::NotExecutable)
        },
{
    if file.len() >= 4 {
        let magic = file.subrange(0, 4);
        assert(magic[0] == file[0] && magic[1] == file[1] && magic[2] == file[2] && magic[3]
            == file[3]);
        if elf::has_magic(file) {
            assert(magic =~= seq![0x7Fu8, 0x45, 0x4C, 0x46]);
        }
    }
}

/// A loaded segment is there to use: each of its bytes can be read where its header put it, is in
/// a page with the segment's access, and is that of the file, or zero past the file's bytes.
pub proof fn loaded_segments_are_there(
    segment: Placement,
    mapping: paging::Mapping,
    contents: Map<u64, Seq<u8>>,
    i: int,
)
    requires
        elf::in_memory(segment, mapping, contents),
        0 <= i < segment.size,
    ensures
        ({
            let at = segment.address + i;
            let page = (at - at % 4096) as u64;
            &&& mapping.contains_key(page)
            &&& mapping[page].1 == segment.access
            &&& i < segment.data.len() ==> contents[mapping[page].0][at % 4096] == segment.data[i]
            &&& i >= segment.data.len() ==> contents[mapping[page].0][at % 4096] == 0
        }),
{
    let at = segment.address + i;
    assert(paging::reachable(mapping, at, false));
    assert(at / 4096 * 4096 == at - at % 4096);
}

} // verus!
