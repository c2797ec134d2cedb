use rustypi::abi::layout::{PROGRAM_END, USER_BASE};
use rustypi::elf::{parse, ElfError, LoadError};
use rustypi::paging::{Access, AddressSpace, MapError, OutOfMemory, Ram, Table};

const MAGIC: &[u8; 4] = b"\x7fELF";
const CLASS_64: u8 = 2;
const LITTLE_ENDIAN: u8 = 1;
const TYPE_EXECUTABLE: u16 = 2;
const MACHINE_AARCH64: u16 = 183;
const HEADER_SIZE: usize = 64;
const PROGRAM_HEADER_SIZE: usize = 56;
const PT_LOAD: u32 = 1;
const PF_X: u32 = 1;
const PF_W: u32 = 2;

/// A test segment: flags, address, file bytes and size in memory.
struct Spec {
    flags: u32,
    address: u64,
    data: Vec<u8>,
    size: u64,
}

fn spec(flags: u32, address: u64, data: &[u8], size: u64) -> Spec {
    Spec { flags, address, data: data.to_vec(), size }
}

const R: u32 = 4;
const RX: u32 = 4 | PF_X;
const RW: u32 = 4 | PF_W;

/// Builds an ELF file with one program header per segment, data after the headers.
fn build(entry: u64, segments: &[Spec]) -> Vec<u8> {
    let table = HEADER_SIZE;
    let mut data_at = table + segments.len() * PROGRAM_HEADER_SIZE;
    let mut out = vec![0; data_at];
    out[..4].copy_from_slice(MAGIC);
    out[4] = CLASS_64;
    out[5] = LITTLE_ENDIAN;
    out[6] = 1; // version
    out[16..18].copy_from_slice(&TYPE_EXECUTABLE.to_le_bytes());
    out[18..20].copy_from_slice(&MACHINE_AARCH64.to_le_bytes());
    out[24..32].copy_from_slice(&entry.to_le_bytes());
    out[32..40].copy_from_slice(&(table as u64).to_le_bytes());
    out[52..54].copy_from_slice(&(HEADER_SIZE as u16).to_le_bytes());
    out[54..56].copy_from_slice(&(PROGRAM_HEADER_SIZE as u16).to_le_bytes());
    out[56..58].copy_from_slice(&(segments.len() as u16).to_le_bytes());
    for (i, segment) in segments.iter().enumerate() {
        let header = table + i * PROGRAM_HEADER_SIZE;
        out[header..header + 4].copy_from_slice(&PT_LOAD.to_le_bytes());
        out[header + 4..header + 8].copy_from_slice(&segment.flags.to_le_bytes());
        out[header + 8..header + 16].copy_from_slice(&(data_at as u64).to_le_bytes());
        out[header + 16..header + 24].copy_from_slice(&segment.address.to_le_bytes());
        out[header + 24..header + 32].copy_from_slice(&segment.address.to_le_bytes());
        out[header + 32..header + 40].copy_from_slice(&(segment.data.len() as u64).to_le_bytes());
        out[header + 40..header + 48].copy_from_slice(&segment.size.to_le_bytes());
        data_at += segment.data.len();
    }
    for segment in segments {
        out.extend_from_slice(&segment.data);
    }
    out
}

const CODE: u64 = USER_BASE;
const DATA: u64 = USER_BASE + 0x1000;

/// Code, then data with a `.bss` tail.
fn typical() -> Vec<u8> {
    build(CODE + 4, &[spec(RX, CODE, b"code....", 8), spec(RW, DATA, b"data", 0x1800)])
}

#[test]
fn a_typical_program_parses() {
    let file = typical();
    let program = parse(&file).unwrap();
    assert_eq!(program.entry, CODE + 4);
    assert_eq!(program.segments.len(), 2);
    assert_eq!(program.segments[0].access, Access::ReadExecute);
    assert_eq!(program.segments[0].data, b"code....");
    assert_eq!(program.segments[1].access, Access::ReadWrite);
    assert_eq!(program.segments[1].size, 0x1800);
}

#[test]
fn loading_maps_every_segment_and_zeroes_bss() {
    let file = typical();
    let program = parse(&file).unwrap();
    let kernel = Box::new(Table([0; 512]));
    let mut frames = Ram::new(0x10_0000, 64);
    let mut space = AddressSpace::new(&kernel, &mut frames).unwrap();
    program.load(&mut space, &mut frames).unwrap();

    assert_eq!(space.pages(), 3); // one code page, two data pages
    let mut buf = [0xFF; 8];
    space.read_user(&frames, CODE, &mut buf).unwrap();
    assert_eq!(&buf, b"code....");
    space.read_user(&frames, DATA + 0x17F8, &mut buf).unwrap();
    assert_eq!(buf, [0; 8]);
    assert_eq!(space.translate(&frames, CODE).unwrap().1, Access::ReadExecute);
    assert_eq!(space.translate(&frames, DATA + 0x1000).unwrap().1, Access::ReadWrite);
    // Loading it again finds its own pages in the way.
    assert!(matches!(program.load(&mut space, &mut frames), Err(LoadError::Unmappable(MapError::AlreadyMapped))));
}

#[test]
fn segments_come_out_in_address_order() {
    let file = build(CODE, &[spec(R, DATA, b"ro", 2), spec(RX, CODE, b"x", 1)]);
    let program = parse(&file).unwrap();
    assert_eq!(program.segments[0].address, CODE);
    assert_eq!(program.segments[1].access, Access::ReadOnly);
}

#[test]
fn non_programs_are_refused() {
    assert_eq!(parse(b"hello"), Err(ElfError::NotElf));
    assert_eq!(parse(b"\x7fELF"), Err(ElfError::Truncated));
    let mut file = typical();
    file[0] = b'X';
    assert_eq!(parse(&file), Err(ElfError::NotElf));
}

#[test]
fn other_architectures_and_file_types_are_refused() {
    let patched = |at: usize, bytes: &[u8]| {
        let mut file = typical();
        file[at..at + bytes.len()].copy_from_slice(bytes);
        parse(&file).map(|_| ())
    };
    assert_eq!(patched(4, &[1]), Err(ElfError::WrongArchitecture)); // 32-bit
    assert_eq!(patched(5, &[2]), Err(ElfError::WrongArchitecture)); // big endian
    assert_eq!(patched(18, &62u16.to_le_bytes()), Err(ElfError::WrongArchitecture)); // x86-64
    assert_eq!(patched(16, &3u16.to_le_bytes()), Err(ElfError::NotExecutable)); // PIE / .so
}

#[test]
fn segments_must_be_aligned_and_inside_the_program_area() {
    let one = |segment: Spec| parse(&build(segment.address, &[segment])).map(|_| ());
    assert_eq!(one(spec(RX, CODE + 4, b"x", 1)), Err(ElfError::Unaligned));
    assert_eq!(one(spec(RX, 0x80000, b"x", 1)), Err(ElfError::OutsideProgramArea));
    // Running into the guard page below the stack.
    assert_eq!(one(spec(RX, PROGRAM_END - 0x1000, b"x", 0x1001)), Err(ElfError::OutsideProgramArea));
    assert_eq!(one(spec(RX, CODE, b"x", u64::MAX)), Err(ElfError::OutsideProgramArea));
    assert_eq!(one(spec(RX, CODE, b"xyz", 2)), Err(ElfError::BadSize));
    assert_eq!(one(spec(RX | PF_W, CODE, b"x", 1)), Err(ElfError::WritableAndExecutable));
}

#[test]
fn segments_may_not_share_a_page() {
    let file = build(CODE, &[spec(RX, CODE, b"x", 0x1001), spec(RW, DATA, b"d", 1)]);
    assert_eq!(parse(&file), Err(ElfError::Overlapping));
}

#[test]
fn the_entry_point_must_be_in_code() {
    let data_entry = build(DATA, &[spec(RX, CODE, b"x", 1), spec(RW, DATA, b"d", 1)]);
    assert_eq!(parse(&data_entry), Err(ElfError::BadEntry));
    let past_code = build(CODE + 8, &[spec(RX, CODE, b"x", 8)]);
    assert_eq!(parse(&past_code), Err(ElfError::BadEntry));
}

#[test]
fn truncated_files_are_refused() {
    let file = typical();
    // Cut inside the program headers, then inside the segment data.
    assert_eq!(parse(&file[..HEADER_SIZE + 10]), Err(ElfError::Truncated));
    assert_eq!(parse(&file[..file.len() - 2]), Err(ElfError::Truncated));
    assert_eq!(parse(&build(CODE, &[])), Err(ElfError::NoSegments));
}

#[test]
fn errors_are_described() {
    assert_eq!(ElfError::NotElf.description(), "not an ELF file");
    assert_eq!(ElfError::BadEntry.description(), "entry point not in executable code");
    assert_eq!(
        ElfError::WrongArchitecture.description(),
        "not a 64-bit little-endian AArch64 program"
    );
}

#[test]
fn programs_load_where_there_are_frames_enough() {
    let file = typical();
    let program = parse(&file).unwrap();
    let kernel = Box::new(Table([0; 512]));
    let mut loaded = 0;
    for count in 0..16 {
        let mut frames = Ram::new(0x10_0000, count);
        let Ok(mut space) = AddressSpace::new(&kernel, &mut frames) else {
            assert_eq!(loaded, 0);
            continue;
        };
        match program.load(&mut space, &mut frames) {
            Ok(()) => {
                assert_eq!(space.pages(), 3);
                loaded += 1;
            }
            Err(error) => {
                assert!(matches!(error, LoadError::Unmappable(MapError::OutOfMemory)));
                assert_eq!(loaded, 0);
            }
        }
    }
    assert!(loaded > 0);
}

#[test]
fn running_out_of_memory_is_a_map_error() {
    assert_eq!(MapError::from(OutOfMemory), MapError::OutOfMemory);
}
