use rustypi::heap::{Header, Heap, Memory, Stats};

const SIZE: usize = 1 << 20;

/// Plain bytes from `start` on, in which the heap keeps its headers.
struct Bytes {
    start: usize,
    bytes: Vec<u8>,
}

impl Memory for Bytes {
    fn read(&self, address: usize) -> Header {
        let at = address - self.start;
        let word = |i: usize| usize::from_le_bytes(self.bytes[i..i + 8].try_into().unwrap());
        Header { size: word(at), next: word(at + 8) }
    }

    fn write(&mut self, address: usize, header: Header) {
        let at = address - self.start;
        self.bytes[at..at + 8].copy_from_slice(&header.size.to_le_bytes());
        self.bytes[at + 8..at + 16].copy_from_slice(&header.next.to_le_bytes());
    }
}

fn memory(len: usize) -> Bytes {
    Bytes { start: 0x4000_0000, bytes: vec![0; len] }
}

/// A heap over memory whose start is deliberately misaligned.
fn heap() -> (Heap, Bytes, usize) {
    let mut memory = memory(SIZE + 64);
    let start = memory.start + 3;
    let mut heap = Heap::empty();
    heap.init(&mut memory, start, start + SIZE);
    (heap, memory, start)
}

#[test]
fn starts_as_one_free_block() {
    let (heap, memory, _) = heap();
    let stats = heap.stats(&memory);
    assert_eq!(stats.used, 0);
    assert_eq!(stats.largest_free, stats.total);
    assert!(stats.total > SIZE - 32);
}

#[test]
fn extending_with_adjacent_memory_makes_one_bigger_block() {
    let mut memory = memory(3 * SIZE);
    let start = memory.start;
    let mut heap = Heap::empty();
    heap.init(&mut memory, start, start + SIZE);
    let big = SIZE + SIZE / 2;
    assert!(heap.allocate(&mut memory, big, 16).is_none());

    heap.extend(&mut memory, start + SIZE, start + 2 * SIZE);
    assert_eq!(heap.stats(&memory).total, 2 * SIZE);
    assert_eq!(heap.stats(&memory).largest_free, 2 * SIZE);
    let block = heap.allocate(&mut memory, big, 16).unwrap();
    assert_eq!(block, start);
    heap.dealloc(&mut memory, block, big);
    assert_eq!(heap.stats(&memory).used, 0);
}

#[test]
fn respects_alignment_and_merges_freed_neighbours() {
    let (mut heap, mut memory, _) = heap();
    let total = heap.stats(&memory).total;
    let a = heap.allocate(&mut memory, 10, 1);
    let b = heap.allocate(&mut memory, 100, 256);
    let c = heap.allocate(&mut memory, 3000, 8);
    assert_eq!(b.unwrap() % 256, 0);
    assert!(a.is_some() && c.is_some());
    heap.dealloc(&mut memory, b.unwrap(), 100);
    heap.dealloc(&mut memory, a.unwrap(), 10);
    heap.dealloc(&mut memory, c.unwrap(), 3000);
    assert_eq!(heap.stats(&memory), Stats { total, used: 0, largest_free: total });
}

#[test]
fn returns_null_when_full() {
    let (mut heap, mut memory, _) = heap();
    assert!(heap.allocate(&mut memory, SIZE * 2, 16).is_none());
}

struct Rng(u64);

impl Rng {
    fn next(&mut self) -> u64 {
        self.0 ^= self.0 << 13;
        self.0 ^= self.0 >> 7;
        self.0 ^= self.0 << 17;
        self.0
    }
}

/// Random allocations and frees: blocks never overlap, stay aligned and keep their
/// contents, and the heap is one block again once everything is freed.
#[test]
fn random_stress() {
    let (mut heap, mut memory, start) = heap();
    let initial = heap.stats(&memory);
    let mut rng = Rng(0x1234_5678_9abc_def1);
    let mut live: Vec<(usize, usize, u8)> = Vec::new();

    for round in 0..50_000u32 {
        if live.is_empty() || rng.next() % 100 < 55 {
            let size = 1 + (rng.next() % 4096) as usize;
            let align = 1usize << (rng.next() % 9);
            let Some(p) = heap.allocate(&mut memory, size, align) else {
                continue; // full
            };
            assert_eq!(p % align, 0);
            assert!(p >= start && p + size <= start + SIZE);
            for &(q, q_size, _) in &live {
                assert!(p + size <= q || q + q_size <= p, "overlap in round {}", round);
            }
            let tag = (round % 251) as u8;
            let at = p - memory.start;
            memory.bytes[at..at + size].fill(tag);
            live.push((p, size, tag));
        } else {
            let i = rng.next() as usize % live.len();
            let (p, size, tag) = live.swap_remove(i);
            let at = p - memory.start;
            assert!(memory.bytes[at..at + size].iter().all(|&b| b == tag), "contents changed");
            heap.dealloc(&mut memory, p, size);
        }
    }
    for (p, size, _) in live {
        heap.dealloc(&mut memory, p, size);
    }
    assert_eq!(heap.stats(&memory), initial);
}

#[test]
fn freeing_in_any_order_gives_one_block_again() {
    for order in [[0, 1, 2], [0, 2, 1], [1, 0, 2], [1, 2, 0], [2, 0, 1], [2, 1, 0]] {
        let (mut heap, mut memory, _) = heap();
        let initial = heap.stats(&memory);
        let sizes = [40, 1000, 17];
        let blocks = sizes.map(|size| heap.allocate(&mut memory, size, 64).unwrap());
        for i in order {
            heap.dealloc(&mut memory, blocks[i], sizes[i]);
        }
        assert_eq!(heap.stats(&memory), initial);
    }
}
