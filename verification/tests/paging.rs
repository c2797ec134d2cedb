use rustypi::paging::{
    Access, AccessFault, AddressSpace, FrameSource, MapError, Ram, Table, AP_READ_ONLY, ENTRIES, PAGE_SIZE,
    USER_BASE, USER_END, USER_EXECUTE_NEVER,
};

const PAGE: u64 = PAGE_SIZE as u64;
const VALID: u64 = 1;
const TABLE_OR_PAGE: u64 = 2;
const AP_EL0: u64 = 1 << 6;
const ACCESS_FLAG: u64 = 1 << 10;
const NOT_GLOBAL: u64 = 1 << 11;
const PRIVILEGED_EXECUTE_NEVER: u64 = 1 << 53;
const ADDRESS: u64 = 0x0000_FFFF_FFFF_F000;

const KERNEL_RAM: u64 = 0x1234_0000 | VALID | TABLE_OR_PAGE;
const KERNEL_DEVICES: u64 = 0x4000_0000 | VALID;

fn kernel() -> Box<Table> {
    let mut kernel = Box::new(Table([0; ENTRIES]));
    kernel.0[0] = KERNEL_RAM;
    kernel.0[1] = KERNEL_DEVICES;
    kernel
}

fn plenty() -> Ram {
    Ram::new(0x10_0000, 64)
}

fn space(frames: &mut Ram) -> AddressSpace {
    AddressSpace::new(&kernel(), frames).unwrap()
}

#[test]
fn new_spaces_share_the_kernel_entries_and_map_nothing() {
    let mut frames = plenty();
    let space = space(&mut frames);
    assert_eq!(space.root_entry(&frames, 0), KERNEL_RAM);
    assert_eq!(space.root_entry(&frames, 1), KERNEL_DEVICES);
    assert_eq!(space.root_entry(&frames, 2) & (VALID | TABLE_OR_PAGE), VALID | TABLE_OR_PAGE);
    assert_eq!(space.translate(&frames, USER_BASE), None);
    assert_eq!(space.pages(), 0);
}

#[test]
fn mapped_pages_translate_to_distinct_frames_with_their_access() {
    let mut frames = plenty();
    let mut space = space(&mut frames);
    space.map(&mut frames, USER_BASE, Access::ReadExecute).unwrap();
    space.map(&mut frames, USER_BASE + PAGE, Access::ReadOnly).unwrap();
    // Last page of the window, which needs a level 3 table of its own.
    space.map(&mut frames, USER_END - PAGE, Access::ReadWrite).unwrap();

    let (code, access) = space.translate(&frames, USER_BASE + 0x10).unwrap();
    assert_eq!((code % PAGE, access), (0x10, Access::ReadExecute));
    let (data, access) = space.translate(&frames, USER_BASE + PAGE).unwrap();
    assert_eq!(access, Access::ReadOnly);
    let (stack, access) = space.translate(&frames, USER_END - 1).unwrap();
    assert_eq!((stack % PAGE, access), (PAGE - 1, Access::ReadWrite));
    assert!(code - 0x10 != data && data != stack - (PAGE - 1));
    assert_eq!(space.tables(), 2);
    assert_eq!(space.translate(&frames, USER_BASE + 2 * PAGE), None);
}

#[test]
fn descriptors_carry_the_permissions() {
    let mut frames = plenty();
    let mut space = space(&mut frames);
    for (i, access) in [Access::ReadOnly, Access::ReadWrite, Access::ReadExecute].into_iter().enumerate() {
        space.map(&mut frames, USER_BASE + i as u64 * PAGE, access).unwrap();
    }
    let bits = |i: u64| space.descriptor(&frames, USER_BASE + i * PAGE).unwrap() & !ADDRESS;
    for i in 0..3 {
        // Every user page: EL0 may access it, the kernel may not execute it, and it is
        // tagged with the ASID.
        let required = AP_EL0 | PRIVILEGED_EXECUTE_NEVER | NOT_GLOBAL | ACCESS_FLAG | VALID | TABLE_OR_PAGE;
        assert_eq!(bits(i) & required, required);
    }
    let (read_only, read_write, read_execute) = (bits(0), bits(1), bits(2));
    assert!(read_only & AP_READ_ONLY != 0 && read_only & USER_EXECUTE_NEVER != 0);
    assert!(read_write & AP_READ_ONLY == 0 && read_write & USER_EXECUTE_NEVER != 0);
    assert!(read_execute & AP_READ_ONLY != 0 && read_execute & USER_EXECUTE_NEVER == 0);
}

#[test]
fn bad_mappings_are_refused() {
    let mut frames = plenty();
    let mut space = space(&mut frames);
    assert_eq!(space.map(&mut frames, USER_BASE + 1, Access::ReadOnly), Err(MapError::NotAligned));
    assert_eq!(space.map(&mut frames, 0x80000, Access::ReadOnly), Err(MapError::OutsideWindow));
    assert_eq!(space.map(&mut frames, USER_END, Access::ReadOnly), Err(MapError::OutsideWindow));
    space.map(&mut frames, USER_BASE, Access::ReadOnly).unwrap();
    assert_eq!(space.map(&mut frames, USER_BASE, Access::ReadWrite), Err(MapError::AlreadyMapped));
    assert_eq!(space.map_range(&mut frames, USER_END - PAGE, 2 * PAGE, Access::ReadOnly), Err(MapError::OutsideWindow));
}

#[test]
fn ranges_cover_partial_pages() {
    let mut frames = plenty();
    let mut space = space(&mut frames);
    space.map_range(&mut frames, USER_BASE, PAGE + 1, Access::ReadWrite).unwrap();
    assert_eq!(space.pages(), 2);
    assert!(space.translate(&frames, USER_BASE + 2 * PAGE).is_none());
}

#[test]
fn copies_cross_page_boundaries() {
    let mut frames = plenty();
    let mut space = space(&mut frames);
    space.map_range(&mut frames, USER_BASE, 2 * PAGE, Access::ReadWrite).unwrap();
    let data: Vec<u8> = (0..200).collect();
    let at = USER_BASE + PAGE - 100;
    space.write_user(&mut frames, at, &data).unwrap();
    let mut back = vec![0; 200];
    space.read_user(&frames, at, &mut back).unwrap();
    assert_eq!(back, data);
    // And the bytes really are split over the two frames.
    let (second, _) = space.translate(&frames, USER_BASE + PAGE).unwrap();
    assert_eq!(frames.load(second / PAGE * PAGE, (second % PAGE) as usize, 1), [100]);
}

#[test]
fn user_copies_stop_at_unmapped_and_read_only_pages() {
    let mut frames = plenty();
    let mut space = space(&mut frames);
    space.map(&mut frames, USER_BASE, Access::ReadExecute).unwrap();
    space.map(&mut frames, USER_BASE + PAGE, Access::ReadWrite).unwrap();
    let mut buf = [0; 8];
    // Running off the end of the mapping into the unmapped third page.
    let fault = space.read_user(&frames, USER_BASE + 2 * PAGE - 4, &mut buf);
    assert_eq!(fault, Err(AccessFault { address: USER_BASE + 2 * PAGE }));
    assert_eq!(space.read_user(&frames, 0x80000, &mut buf), Err(AccessFault { address: 0x80000 }));
    // Code is readable, but only the kernel may write it.
    assert!(space.read_user(&frames, USER_BASE, &mut buf).is_ok());
    assert_eq!(space.write_user(&mut frames, USER_BASE, &buf), Err(AccessFault { address: USER_BASE }));
    assert!(space.load(&mut frames, USER_BASE, b"code").is_ok());
    // Empty copies touch nothing.
    assert!(space.read_user(&frames, 0, &mut []).is_ok());
}

#[test]
fn copies_that_wrap_the_address_space_fault() {
    let mut frames = plenty();
    let space = space(&mut frames);
    let mut buf = [0; 16];
    assert!(space.read_user(&frames, u64::MAX - 4, &mut buf).is_err());
}

#[test]
fn spaces_are_independent() {
    let mut frames = plenty();
    let mut a = space(&mut frames);
    let mut b = space(&mut frames);
    a.map(&mut frames, USER_BASE, Access::ReadWrite).unwrap();
    b.map(&mut frames, USER_BASE, Access::ReadWrite).unwrap();
    a.write_user(&mut frames, USER_BASE, b"aaaa").unwrap();
    b.write_user(&mut frames, USER_BASE, b"bbbb").unwrap();
    let mut buf = [0; 4];
    a.read_user(&frames, USER_BASE, &mut buf).unwrap();
    assert_eq!(&buf, b"aaaa");
    assert_ne!(a.translation_base(1) & ADDRESS, b.translation_base(1) & ADDRESS);
}

#[test]
fn the_translation_base_carries_the_asid() {
    let mut frames = plenty();
    let space = space(&mut frames);
    let base = space.translation_base(0xAB);
    assert_eq!(base >> 48, 0xAB);
    // The root is the first frame that was taken.
    assert_eq!(base & ADDRESS, 0x10_0000);
}

#[test]
fn new_pages_are_zeroed() {
    let mut frames = plenty();
    let mut space = space(&mut frames);
    space.map(&mut frames, USER_BASE, Access::ReadWrite).unwrap();
    let mut buf = [0xFF; PAGE_SIZE];
    space.read_user(&frames, USER_BASE, &mut buf).unwrap();
    assert!(buf.iter().all(|&b| b == 0));
}

#[test]
fn dropping_a_space_gives_back_every_frame() {
    let mut frames = plenty();
    let mut space = AddressSpace::new(&kernel(), &mut frames).unwrap();
    space.map_range(&mut frames, USER_BASE, 3 * PAGE, Access::ReadExecute).unwrap();
    space.map(&mut frames, USER_END - PAGE, Access::ReadWrite).unwrap();
    // 4 pages, the root, level 2, and two level 3 tables.
    assert_eq!(frames.live(), 8);
    space.release(&mut frames);
    assert_eq!(frames.live(), 0);
}

#[test]
fn running_out_of_frames_is_an_error_and_leaks_nothing() {
    let mut frames = Ram::new(0x10_0000, 1);
    assert!(AddressSpace::new(&kernel(), &mut frames).is_err());
    assert_eq!(frames.live(), 0);

    // The root, level 2, a level 3 table and two pages.
    let mut frames = Ram::new(0x10_0000, 5);
    let mut space = AddressSpace::new(&kernel(), &mut frames).unwrap();
    assert_eq!(space.map_range(&mut frames, USER_BASE, 3 * PAGE, Access::ReadWrite), Err(MapError::OutOfMemory));
    assert_eq!(space.pages(), 2);
    space.release(&mut frames);
    assert_eq!(frames.live(), 0);
}
