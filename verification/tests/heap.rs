use kernel_memory::memory::heap_allocator::{align_down, align_up, is_power_of_two, BumpAllocator};
use kernel_memory::memory::MemoryError;
use kernel_memory::{HEAP_SIZE, HEAP_START};

#[test]
fn heap_constants() {
    assert_eq!(HEAP_START, 0x4000_0000);
    assert_eq!(HEAP_SIZE, 100 * 1024);
}

#[test]
fn powers_of_two() {
    for k in 0..64 {
        assert!(is_power_of_two(1 << k));
    }
    for n in [0u64, 3, 5, 6, 7, 12, 0x1001, u64::MAX] {
        assert!(!is_power_of_two(n));
    }
}

#[test]
fn align_down_rounds_down_to_a_multiple() {
    assert_eq!(align_down(0x1234, 0x1000), 0x1000);
    assert_eq!(align_down(0x1000, 0x1000), 0x1000);
    assert_eq!(align_down(0xfff, 0x1000), 0);
    assert_eq!(align_down(17, 8), 16);
    assert_eq!(align_down(17, 1), 17);
    assert_eq!(align_down(u64::MAX, 1 << 63), 1 << 63);
}

#[test]
fn align_down_with_no_alignment_keeps_the_address() {
    assert_eq!(align_down(0x1234, 0), 0x1234);
}

#[test]
fn align_up_rounds_up_to_a_multiple() {
    assert_eq!(align_up(0x1234, 0x1000), 0x2000);
    assert_eq!(align_up(0x1000, 0x1000), 0x1000);
    assert_eq!(align_up(0x1001, 0x1000), 0x2000);
    assert_eq!(align_up(0, 0x1000), 0);
    assert_eq!(align_up(17, 8), 24);
    assert_eq!(align_up(17, 1), 17);
}

#[test]
fn blocks_are_placed_at_the_aligned_cursor() {
    let heap = BumpAllocator::new(0x1000, 0x2000);
    assert_eq!(heap.place(0x1000, 0x10, 8), Some((0x1000, 0x1010)));
    assert_eq!(heap.place(0x1001, 0x10, 8), Some((0x1008, 0x1018)));
    assert_eq!(heap.place(0x1001, 0x10, 0x100), Some((0x1100, 0x1110)));
    assert_eq!(heap.place(0x1000, 0x1000, 1), Some((0x1000, 0x2000)));
    assert_eq!(heap.place(0x1000, 0x1001, 1), None);
    assert_eq!(heap.place(0x1ff9, 8, 8), None);
    assert_eq!(heap.place(0x2000, 0, 1), Some((0x2000, 0x2000)));
    assert_eq!(heap.place(0x2000, 1, 1), None);
}

#[test]
fn placement_fails_where_the_addresses_run_out() {
    let heap = BumpAllocator::new(0, u64::MAX);
    assert_eq!(heap.place(u64::MAX, 1, 2), None);
    assert_eq!(heap.place(u64::MAX - 8, 16, 1), None);
    assert_eq!(heap.place(u64::MAX - 8, 8, 1), Some((u64::MAX - 8, u64::MAX)));
}

#[test]
fn allocations_follow_each_other() {
    let heap = BumpAllocator::new(0x1000, 0x2000);
    assert_eq!(heap.next(), 0x1000);
    assert_eq!(heap.allocate(0x10, 8), Ok(0x1000));
    assert_eq!(heap.allocate(1, 1), Ok(0x1010));
    assert_eq!(heap.allocate(4, 4), Ok(0x1014));
    assert_eq!(heap.allocate(0x100, 0x100), Ok(0x1100));
    assert_eq!(heap.next(), 0x1200);
}

#[test]
fn exhaustion_carries_the_request_and_leaves_the_cursor() {
    let heap = BumpAllocator::new(0x1000, 0x2000);
    assert_eq!(heap.allocate(0xff0, 1), Ok(0x1000));
    assert_eq!(
        heap.allocate(0x20, 8),
        Err(MemoryError::HeapExhausted { size: 0x20, align: 8 })
    );
    assert_eq!(heap.next(), 0x1ff0);
    // A smaller request still fits.
    assert_eq!(heap.allocate(0x10, 8), Ok(0x1ff0));
    assert_eq!(heap.next(), 0x2000);
    assert_eq!(
        heap.allocate(1, 1),
        Err(MemoryError::HeapExhausted { size: 1, align: 1 })
    );
    assert_eq!(heap.next(), 0x2000);
}

#[test]
fn deallocation_gives_nothing_back() {
    let heap = BumpAllocator::new(0x1000, 0x2000);
    let block = heap.allocate(0x800, 8).unwrap();
    heap.deallocate(block, 0x800, 8);
    assert_eq!(heap.next(), 0x1800);
    assert_eq!(heap.allocate(0x800, 8), Ok(0x1800));
    assert_eq!(
        heap.allocate(0x800, 8),
        Err(MemoryError::HeapExhausted { size: 0x800, align: 8 })
    );
}

#[test]
fn a_lost_race_for_the_cursor_changes_nothing() {
    let heap = BumpAllocator::new(0x1000, 0x2000);
    // Two requests read the cursor at the same time.
    let seen_by_first = heap.next();
    let seen_by_second = heap.next();
    let (first_start, first_end) = heap.place(seen_by_first, 0x20, 8).unwrap();
    let (second_start, second_end) = heap.place(seen_by_second, 0x30, 16).unwrap();
    assert_eq!(first_start, second_start);
    // The second one moves the cursor first.
    assert!(heap.claim(seen_by_second, second_end));
    // The first one loses the race and has to start over.
    assert!(!heap.claim(seen_by_first, first_end));
    assert_eq!(heap.next(), second_end);
    let retried = heap.next();
    let (first_start, first_end) = heap.place(retried, 0x20, 8).unwrap();
    assert!(heap.claim(retried, first_end));
    assert!(second_start + 0x30 <= first_start);
    assert_eq!(heap.next(), first_end);
}

#[test]
fn interleaved_requests_get_disjoint_aligned_blocks() {
    let heap = BumpAllocator::new(HEAP_START, HEAP_START + HEAP_SIZE);
    let requests: [(u64, u64); 8] =
        [(24, 8), (1, 1), (4096, 4096), (100, 4), (7, 2), (512, 64), (3, 1), (2048, 16)];
    // Every request reads the cursor before any of them moves it; each one
    // whose claim fails reads the cursor again.
    let mut observed: Vec<u64> = requests.iter().map(|_| heap.next()).collect();
    let mut blocks: Vec<Option<u64>> = vec![None; requests.len()];
    let mut open = requests.len();
    while open > 0 {
        for k in (0..requests.len()).rev() {
            if blocks[k].is_some() {
                continue;
            }
            let (size, align) = requests[k];
            let (start, end) = heap.place(observed[k], size, align).unwrap();
            if heap.claim(observed[k], end) {
                blocks[k] = Some(start);
                open -= 1;
            } else {
                observed[k] = heap.next();
            }
        }
    }
    let mut ranges: Vec<(u64, u64)> = Vec::new();
    for (k, (size, align)) in requests.iter().enumerate() {
        let start = blocks[k].unwrap();
        assert_eq!(start % align, 0);
        assert!(start >= HEAP_START);
        assert!(start + size <= HEAP_START + HEAP_SIZE);
        ranges.push((start, start + size));
    }
    for i in 0..ranges.len() {
        for j in 0..ranges.len() {
            if i != j {
                assert!(ranges[i].1 <= ranges[j].0 || ranges[j].1 <= ranges[i].0);
            }
        }
    }
    let total: u64 = requests.iter().map(|r| r.0).sum();
    assert!(heap.next() - HEAP_START >= total);
    assert!(heap.next() <= HEAP_START + HEAP_SIZE);
}

#[test]
fn a_request_beyond_the_heap_fails_between_others() {
    let heap = BumpAllocator::new(HEAP_START, HEAP_START + HEAP_SIZE);
    assert_eq!(heap.allocate(HEAP_SIZE - 16, 1), Ok(HEAP_START));
    let cursor = heap.next();
    assert_eq!(
        heap.allocate(17, 1),
        Err(MemoryError::HeapExhausted { size: 17, align: 1 })
    );
    assert_eq!(heap.next(), cursor);
    assert_eq!(heap.allocate(16, 16), Ok(HEAP_START + HEAP_SIZE - 16));
    assert_eq!(heap.next(), HEAP_START + HEAP_SIZE);
}
