use chopin::early_heap::{AllocatorVariant, EarlyKernelAllocator, KernelAllocator};

const START: usize = 0x8000_0000;
const END: usize = 0x8001_0000;

fn byte(heap: &EarlyKernelAllocator, addr: usize) -> u8 {
    heap.heap[addr - heap.heap_start]
}

#[test]
fn new_heap_is_zero() {
    let heap = EarlyKernelAllocator::new(START, END);
    assert_eq!(heap.heap_start, START);
    assert_eq!(heap.heap_end, END);
    assert_eq!(heap.heap.len(), 0x1_0000);
    assert!(heap.heap.iter().all(|b| *b == 0));
}

#[test]
fn heap_a_scenario() {
    let mut heap = EarlyKernelAllocator::new(START, END);
    let a = heap.allocate(16, 8).unwrap();
    let b = heap.allocate(64, 64).unwrap();
    let c = heap.allocate(7, 1).unwrap();
    assert_eq!(a % 8, 0);
    assert_eq!(b % 64, 0);
    assert_eq!(a, START + 8);
    assert_eq!(b, START + 64);
    assert!(c >= START + 4 && c + 7 <= END);
    heap.dealloc(a, 16);
    let again = heap.allocate(16, 8).unwrap();
    assert_eq!(again, a);
}

#[test]
fn header_holds_size_little_endian() {
    let mut heap = EarlyKernelAllocator::new(START, END);
    let p = heap.allocate(0x0102, 4).unwrap();
    assert_eq!(p, START + 4);
    assert_eq!(byte(&heap, START), 0x02);
    assert_eq!(byte(&heap, START + 1), 0x01);
    assert_eq!(byte(&heap, START + 2), 0x00);
    assert_eq!(byte(&heap, START + 3), 0x00);
}

#[test]
fn padding_holds_sentinel() {
    let mut heap = EarlyKernelAllocator::new(START, END);
    let p = heap.allocate(16, 32).unwrap();
    assert_eq!(p, START + 32);
    assert_eq!(byte(&heap, START), 16);
    for addr in START + 4..START + 32 {
        assert_eq!(byte(&heap, addr), 0xFF);
    }
    assert_eq!(byte(&heap, START + 32), 0);
}

#[test]
fn second_block_follows_first() {
    let mut heap = EarlyKernelAllocator::new(START, END);
    let a = heap.allocate(12, 4).unwrap();
    let b = heap.allocate(12, 4).unwrap();
    assert_eq!(a, START + 4);
    assert_eq!(b, START + 20);
}

#[test]
fn release_restores_every_byte() {
    let mut heap = EarlyKernelAllocator::new(START, END);
    let a = heap.allocate(100, 16).unwrap();
    let b = heap.allocate(33, 2).unwrap();
    heap.dealloc(b, 33);
    heap.dealloc(a, 100);
    assert!(heap.heap.iter().all(|b| *b == 0));
}

#[test]
fn request_larger_than_heap_fails() {
    let mut heap = EarlyKernelAllocator::new(START, START + 64);
    assert_eq!(heap.allocate(61, 1), None);
    assert!(heap.heap.iter().all(|b| *b == 0));
    assert_eq!(heap.allocate(60, 1), Some(START + 4));
    assert_eq!(heap.allocate(1, 1), None);
}

#[test]
fn unaligned_heap_start_rounds_header_up() {
    let mut heap = EarlyKernelAllocator::new(0x1001, 0x2001);
    let p = heap.allocate(8, 1).unwrap();
    assert_eq!(p, 0x1008);
    assert_eq!(byte(&heap, 0x1004), 8);
}

#[test]
fn kernel_allocator_forwards_to_early_heap() {
    let mut kernel = KernelAllocator::new();
    assert!(!kernel.is_installed());
    assert!(matches!(kernel.allocator, AllocatorVariant::Uninitialized));
    kernel.install(EarlyKernelAllocator::new(START, END));
    assert!(kernel.is_installed());
    let p = kernel.allocate(16, 8).unwrap();
    assert_eq!(p, START + 8);
    kernel.dealloc(p, 16);
    assert_eq!(kernel.allocate(16, 8), Some(START + 8));
}

#[test]
fn payload_is_writable_and_survives_other_allocations() {
    let mut heap = EarlyKernelAllocator::new(START, END);
    let a = heap.allocate(5, 1).unwrap();
    for i in 0..5 {
        heap.store(a + i, 0xA0 + i as u8);
    }
    let b = heap.allocate(9, 2).unwrap();
    assert!(b >= a + 5 + 4);
    for i in 0..5 {
        assert_eq!(heap.load(a + i), 0xA0 + i as u8);
    }
    assert_eq!(heap.load(a - 4), 5);
    heap.dealloc(a, 5);
    for addr in a - 4..a + 5 {
        assert_eq!(heap.load(addr), 0);
    }
    assert_eq!(heap.load(b - 4), 9);
}

#[test]
fn scan_visits_every_live_header() {
    let mut heap = EarlyKernelAllocator::new(START, START + 4096);
    let sizes = [5usize, 17, 3, 40, 9];
    let mut live: Vec<(usize, usize)> = Vec::new();
    for size in sizes {
        let p = heap.allocate(size, 4).unwrap();
        for i in 0..size {
            heap.store(p + i, 0xEE);
        }
        live.push((p, size));
    }
    let (p, size) = live.remove(1);
    heap.dealloc(p, size);
    let mut seen: Vec<(usize, usize)> = Vec::new();
    let mut cursor = START;
    while cursor + 4 <= START + 4096 {
        if heap.load(cursor) == 0 {
            cursor += 4;
        } else {
            let len = u32::from_le_bytes([
                heap.load(cursor),
                heap.load(cursor + 1),
                heap.load(cursor + 2),
                heap.load(cursor + 3),
            ]) as usize;
            seen.push((cursor + 4, len));
            cursor = (cursor + 4 + len + 3) / 4 * 4;
        }
    }
    assert_eq!(seen, live);
    for (p, size) in live {
        heap.dealloc(p, size);
    }
    assert!(heap.heap.iter().all(|b| *b == 0));
}

#[test]
fn live_allocations_never_overlap() {
    let mut heap = EarlyKernelAllocator::new(START, START + 2048);
    let mut live: Vec<(usize, usize)> = Vec::new();
    let mut seed: u64 = 3;
    let mut next = |bound: usize| {
        seed = seed.wrapping_mul(6364136223846793005).wrapping_add(1442695040888963407);
        ((seed >> 33) as usize) % bound
    };
    for _ in 0..4000 {
        if next(3) == 0 && !live.is_empty() {
            let (p, size) = live.remove(next(live.len()));
            heap.dealloc(p, size);
            continue;
        }
        let size = 1 + next(90);
        let align = 1 << next(3);
        if let Some(p) = heap.allocate(size, align) {
            assert_eq!(p % align, 0);
            assert!(p >= START + 4 && p + size <= START + 2048);
            for (q, other) in live.iter() {
                assert!(p + size <= *q - 4 || *q + *other <= p - 4);
            }
            for i in 0..size {
                heap.store(p + i, next(256) as u8);
            }
            live.push((p, size));
        }
    }
    for (p, size) in live {
        heap.dealloc(p, size);
    }
    assert!(heap.heap.iter().all(|b| *b == 0));
}
