use rustypi::abi::{DirEntry, Errno, ExitStatus, Syscall, MAX_RANDOM, MAX_WRITE};
use rustypi::heap::{Arena, Heap};
use rustypi::runtime::fs::{read_dir, read_to_string, File, ReadToEnd};
use rustypi::runtime::io::{self, write_all, Buffered};
use rustypi::runtime::memory::{allocate, grow, grown, Allocation};
use rustypi::runtime::process::{ended, pipe, spawn, spawn_with, Child, Input, Output};
use rustypi::runtime::random;
use rustypi::runtime::screen::{self, Draw, ScreenSize};
use rustypi::runtime::{args, exit, time, yield_now, Termination};

#[test]
fn main_returns_nothing_a_code_or_a_result() {
    assert_eq!(().exit_code(), 0);
    assert_eq!(7.exit_code(), 7);
    assert_eq!(Ok::<i32, Errno>(-3).exit_code(), -3);
    assert_eq!(Err::<(), Errno>(Errno::NotFound).exit_code(), 1);
    assert_eq!(Ok::<Result<(), Errno>, Errno>(Err(Errno::Io)).exit_code(), 1);
}

#[test]
fn arguments_are_text() {
    assert_eq!(args("-l /docs é".as_bytes()), "-l /docs é");
    assert_eq!(args(b""), "");
    assert_eq!(args(&[b'a', 0xFF]), "");
}

#[test]
fn plain_calls_carry_their_arguments() {
    assert_eq!(exit(-1), Syscall::Exit { code: -1 });
    assert_eq!(yield_now(), Syscall::Yield);
    assert_eq!(time::sleep(1_500), Syscall::Sleep { micros: 1_500 });
    assert_eq!(time::sleep(u128::MAX), Syscall::Sleep { micros: u64::MAX });
    assert_eq!(time::uptime(Ok(12)), 12);
    assert_eq!(time::uptime(Err(Errno::NoSys)), 0);
    assert_eq!(grow(4096), Syscall::Grow { len: 4096 });
}

#[test]
fn the_current_directory_is_text() {
    let mut buf = [0; 16];
    buf[..6].copy_from_slice("/d\u{e9}po".as_bytes());
    assert_eq!(rustypi::runtime::env::current_dir(Ok(6), &buf), Ok("/d\u{e9}po".to_string()));
    assert_eq!(rustypi::runtime::env::current_dir(Ok(3), &buf), Err(Errno::Invalid));
    assert_eq!(rustypi::runtime::env::current_dir(Err(Errno::NoSys), &buf), Err(Errno::NoSys));
    assert_eq!(rustypi::runtime::env::set_current_dir(Ok(0)), Ok(()));
    assert_eq!(rustypi::runtime::env::set_current_dir(Err(Errno::NotADirectory)), Err(Errno::NotADirectory));
}

#[test]
fn files_are_read_to_their_end() {
    assert_eq!(File::open(Ok(3)), Ok(File { handle: 3 }));
    assert_eq!(File::open(Err(Errno::IsADirectory)), Err(Errno::IsADirectory));
    let mut reader = ReadToEnd::new(b"> ".to_vec());
    assert_eq!(reader.feed(Ok(b"hello, ")), None);
    assert_eq!(reader.feed(Ok(b"world")), None);
    assert_eq!(reader.feed(Ok(b"")), Some(Ok(12)));
    assert_eq!(reader.finish(), b"> hello, world");

    let mut failing = ReadToEnd::new(Vec::new());
    assert_eq!(failing.feed(Ok(b"some")), None);
    assert_eq!(failing.feed(Err(Errno::Io)), Some(Err(Errno::Io)));
    assert_eq!(failing.finish(), b"some");
}

#[test]
fn text_files_are_utf8() {
    assert_eq!(read_to_string(Ok("é\n".as_bytes().to_vec())), Ok("é\n".to_string()));
    assert_eq!(read_to_string(Ok(vec![0xC3])), Err(Errno::Invalid));
    assert_eq!(read_to_string(Err(Errno::NotFound)), Err(Errno::NotFound));
}

#[test]
fn directories_end() {
    let dir = read_dir(Ok(5)).unwrap();
    assert_eq!(dir.handle, 5);
    assert_eq!(read_dir(Err(Errno::TooMany)).err(), Some(Errno::TooMany));
    let entry = DirEntry::new("kernel8.img", false, 70_000);
    assert_eq!(dir.next(Ok(1), entry), Some(Ok(entry)));
    assert_eq!(dir.next(Ok(0), DirEntry::empty()), None);
    assert_eq!(dir.next(Err(Errno::Io), DirEntry::empty()), Some(Err(Errno::Io)));
}

#[test]
fn short_writes_go_on_where_they_stopped() {
    assert_eq!(io::write(Ok(5)), Ok(5));
    assert_eq!(io::write(Err(Errno::Fault)), Err(Errno::Fault));
    let mut out: Vec<u8> = Vec::new();
    let mut rest = write_all(b"all of it");
    for count in [3, 0, 5, 1] {
        let piece = rest.next().unwrap();
        out.extend_from_slice(&piece[..count]);
        assert_eq!(rest.advance(Ok(count)), Ok(()));
    }
    assert_eq!(rest.next(), None);
    assert_eq!(out, b"all of it");

    let mut rest = write_all(b"lost");
    assert_eq!(rest.advance(Err(Errno::Io)), Err(Errno::Io));
    assert_eq!(rest.next(), Some(&b"lost"[..]));
}

#[test]
fn output_is_collected_into_full_buffers() {
    let mut out = Buffered::new();
    assert!(out.write_str("short").is_empty());
    let line = "x".repeat(2 * MAX_WRITE);
    let full = out.write_str(&line);
    assert_eq!(full.len(), 2);
    assert!(full.iter().all(|buffer| buffer.len() == MAX_WRITE));
    assert!(full[0].starts_with(b"shortxxx"));
    assert_eq!(out.flush(), b"xxxxx");

    // A full buffer waits for more to come.
    let mut out = Buffered::new();
    assert!(out.write_str(&"y".repeat(MAX_WRITE)).is_empty());
    assert!(out.write_str("").is_empty());
    assert_eq!(out.write_str("z"), vec![vec![b'y'; MAX_WRITE]]);
    assert_eq!(out.flush(), b"z");
}

#[test]
fn children_get_pipe_ends() {
    let ends = spawn();
    assert_eq!((ends.input, ends.output), (None, None));
    let (reader, writer) = pipe(Ok(0), [8, 9]).unwrap();
    assert_eq!((reader.handle, writer.handle), (8, 9));
    assert_eq!(pipe(Err(Errno::TooMany), [0, 0]).err(), Some(Errno::TooMany));
    let ends = spawn_with(Input::Pipe(&reader), Output::Inherit);
    assert_eq!((ends.input, ends.output), (Some(8), None));
    let ends = spawn_with(Input::Inherit, Output::Pipe(&writer));
    assert_eq!((ends.input, ends.output), (None, Some(9)));
}

#[test]
fn children_are_waited_for() {
    let child = Child::started(Ok(4)).unwrap();
    assert_eq!(child.wait(), Syscall::Wait { handle: 4 });
    assert_eq!(Child::started(Err(Errno::NotExecutable)), Err(Errno::NotExecutable));
    for status in [ExitStatus::Code(0), ExitStatus::Code(-5), ExitStatus::Crashed, ExitStatus::Killed] {
        assert_eq!(ended(Ok(status.encode())), Ok(status));
    }
    assert_eq!(ended(Ok(0x3_0000_0000)), Err(Errno::Unknown));
    assert_eq!(ended(Err(Errno::BadHandle)), Err(Errno::BadHandle));
}

#[test]
fn random_buffers_are_filled_in_pieces() {
    assert_eq!(random::fill(0), vec![]);
    assert_eq!(random::fill(MAX_RANDOM), vec![(0, MAX_RANDOM)]);
    assert_eq!(random::fill(600), vec![(0, 256), (256, 512), (512, 600)]);
    assert_eq!(random::u32([0x78, 0x56, 0x34, 0x12]), 0x1234_5678);
    assert_eq!(random::u64([8, 7, 6, 5, 4, 3, 2, 1]), 0x0102_0304_0506_0708);
}

#[test]
fn random_ranges_are_fair() {
    assert_eq!(random::range(10, 16, 0), Some(10));
    assert_eq!(random::range(10, 16, 17), Some(15));
    // u64::MAX is 15 more than a multiple of 16, and a draw of u64::MAX - 15 starts the rest.
    assert_eq!(random::range(0, 16, u64::MAX - 16), Some(15));
    assert_eq!(random::range(0, 16, u64::MAX - 15), None);
    assert_eq!(random::range(0, 16, u64::MAX), None);
    assert_eq!(random::range(0, u64::MAX, u64::MAX - 1), Some(u64::MAX - 1));
    assert_eq!(random::range(0, u64::MAX, u64::MAX), None);
}

#[test]
fn screens_are_drawn_on() {
    assert_eq!(screen::rgb(0x12, 0x34, 0x56), 0x0012_3456);
    assert_eq!(screen::open(Err(Errno::NoSys), ScreenSize { width: 0, height: 0 }).err(), Some(Errno::NoSys));
    let screen = screen::open(Ok(2), ScreenSize { width: 3, height: 2 }).unwrap();
    assert_eq!((screen.width(), screen.height()), (3, 2));
    assert_eq!(screen.draw(1, 1, 0, &[0; 4]), None);
    assert_eq!(
        screen.draw(1, 1, 2, &[0; 5]),
        Some(Draw { handle: 2, x: 1, y: 1, width: 2, height: 2 })
    );
    let (row, draws) = screen.clear(0xFF);
    assert_eq!(row, vec![0xFF; 3]);
    assert_eq!(draws, vec![
        Draw { handle: 2, x: 0, y: 0, width: 3, height: 1 },
        Draw { handle: 2, x: 0, y: 1, width: 3, height: 1 },
    ]);
    let (row, draws) = screen.fill(5, 6, 0, 9, 0);
    assert!(row.is_empty() && draws.is_empty());
}

#[test]
fn the_heap_grows_until_a_block_fits() {
    const START: usize = 0x10_0000;
    let mut memory = Arena::new(START, 0x4000);
    let mut heap = Heap::empty();
    let mut end = START;
    let mut seen = Vec::new();
    for (size, align) in [(100, 8), (100_000, 16), (20_000, 8192), (1, 1)] {
        match allocate(&mut heap, &mut memory, size, align) {
            Allocation::Block(block) => seen.push(block),
            Allocation::Grow(len) => {
                assert_eq!(len % 4096, 0);
                assert!(len >= 64 * 1024 && len >= size + align);
                let block = grown(&mut heap, &mut memory, Ok(end as u64), size, align).unwrap();
                assert_eq!(block % align, 0);
                seen.push(block);
                end += len;
            }
        }
    }
    assert_eq!(seen.len(), 4);
    assert_eq!(heap.stats(&memory).total, end - START);
    assert!(matches!(allocate(&mut heap, &mut memory, 1_000_000, 16), Allocation::Grow(1_003_520)));
    assert_eq!(grown(&mut heap, &mut memory, Err(Errno::NoMemory), 1_000_000, 16), None);
}
