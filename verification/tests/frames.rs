use rustypi::frames::{FrameError, FrameStats, Frames};
use std::collections::BTreeSet;

const PAGE_SIZE: u64 = 4096;

const BASE: u64 = 0x100_0000;

#[test]
fn only_whole_pages_inside_the_range_are_managed() {
    let frames = Frames::new(BASE + 1, BASE + 3 * PAGE_SIZE + 5);
    assert_eq!(frames.stats(), FrameStats { total: 2, free: 2 });
    assert_eq!(Frames::new(BASE, BASE).stats().total, 0);
    assert_eq!(Frames::new(BASE + PAGE_SIZE, BASE).stats().total, 0);
}

#[test]
fn every_frame_is_handed_out_once_then_none() {
    let count = 130; // two full words and a partial one
    let mut frames = Frames::new(BASE, BASE + count * PAGE_SIZE);
    let got: BTreeSet<u64> = (0..count).map(|_| frames.allocate().unwrap()).collect();
    assert_eq!(got.len(), count as usize);
    assert!(got.iter().all(|&f| f % PAGE_SIZE == 0 && (BASE..BASE + count * PAGE_SIZE).contains(&f)));
    assert_eq!(frames.allocate(), None);
    assert_eq!(frames.stats().free, 0);
}

#[test]
fn freed_frames_come_back() {
    let mut frames = Frames::new(BASE, BASE + 4 * PAGE_SIZE);
    let all: Vec<u64> = (0..4).map(|_| frames.allocate().unwrap()).collect();
    frames.free(all[2]).unwrap();
    assert_eq!(frames.stats().free, 1);
    assert_eq!(frames.allocate(), Some(all[2]));
}

#[test]
fn bad_frees_are_errors() {
    let mut frames = Frames::new(BASE, BASE + 4 * PAGE_SIZE);
    let frame = frames.allocate().unwrap();
    assert_eq!(frames.free(frame + 8), Err(FrameError::NotAFrame));
    assert_eq!(frames.free(BASE - PAGE_SIZE), Err(FrameError::NotAFrame));
    assert_eq!(frames.free(BASE + 4 * PAGE_SIZE), Err(FrameError::NotAFrame));
    assert_eq!(frames.free(BASE + PAGE_SIZE), Err(FrameError::NotAllocated));
    frames.free(frame).unwrap();
    assert_eq!(frames.free(frame), Err(FrameError::NotAllocated));
    assert_eq!(frames.stats().free, 4);
}

#[test]
fn the_search_resumes_after_the_last_frame() {
    let mut frames = Frames::new(BASE, BASE + 4 * PAGE_SIZE);
    assert_eq!(frames.allocate(), Some(BASE));
    assert_eq!(frames.allocate(), Some(BASE + PAGE_SIZE));
    frames.free(BASE).unwrap();
    assert_eq!(frames.allocate(), Some(BASE + 2 * PAGE_SIZE));
    assert_eq!(frames.allocate(), Some(BASE + 3 * PAGE_SIZE));
    assert_eq!(frames.allocate(), Some(BASE));
    assert_eq!(frames.allocate(), None);
    // Across groups of 64 frames, too.
    let mut many = Frames::new(BASE, BASE + 130 * PAGE_SIZE);
    let all: Vec<u64> = (0..100).map(|_| many.allocate().unwrap()).collect();
    assert_eq!(all[99], BASE + 99 * PAGE_SIZE);
    many.free(all[70]).unwrap();
    many.free(all[3]).unwrap();
    let rest: Vec<u64> = (0..32).map(|_| many.allocate().unwrap()).collect();
    assert_eq!(rest[0], BASE + 100 * PAGE_SIZE);
    assert_eq!(rest[29], BASE + 129 * PAGE_SIZE);
    assert_eq!(rest[30..], [all[3], all[70]]);
}
