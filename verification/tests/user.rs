use rustypi::user::Region;

fn window() -> Region {
    Region::new(0x8000_0000, 0x20_0000)
}

#[test]
fn ranges_inside_the_region_are_accepted() {
    assert!(window().contains(0x8000_0000, 16));
    assert!(window().contains(0x8000_0000, 0x20_0000));
    assert!(window().contains(0x801F_FFF0, 16));
    assert!(window().contains(0x8020_0000, 0)); // empty, at the very end
}

#[test]
fn ranges_leaving_the_region_are_rejected() {
    assert!(!window().contains(0x80000, 4)); // kernel memory
    assert!(!window().contains(0x7FFF_FFFF, 2)); // starts just before
    assert!(!window().contains(0x801F_FFFE, 4)); // runs off the end
    assert!(!window().contains(0x8000_0010, u64::MAX)); // wraps around
}

#[test]
fn regions_at_the_end_of_memory_do_not_wrap() {
    let last = Region::new(u64::MAX - 15, 15);
    assert!(last.contains(u64::MAX - 15, 15));
    assert!(!last.contains(u64::MAX - 15, 16));
    assert!(!last.contains(u64::MAX, u64::MAX));
}
