use kernel_memory::memory::area_frame_allocator::AreaFrameAllocator;
use kernel_memory::memory::boot_info::MemoryArea;
use kernel_memory::memory::{Frame, FrameAllocator};

fn area(base_addr: u64, length: u64) -> MemoryArea {
    MemoryArea::new(base_addr, length).unwrap()
}

fn take(allocator: &mut AreaFrameAllocator, count: usize) -> Vec<u64> {
    let mut frames = Vec::new();
    for _ in 0..count {
        match allocator.allocate_frame() {
            Some(frame) => frames.push(frame.number),
            None => break,
        }
    }
    frames
}

#[test]
fn memory_area_new_rejects_empty_and_overflowing_areas() {
    assert_eq!(MemoryArea::new(0x1000, 0), None);
    assert_eq!(MemoryArea::new(u64::MAX, 2), None);
    assert_eq!(
        MemoryArea::new(u64::MAX, 1),
        Some(MemoryArea { base_addr: u64::MAX, length: 1 })
    );
    assert_eq!(
        MemoryArea::new(0x1000, 0x2000),
        Some(MemoryArea { base_addr: 0x1000, length: 0x2000 })
    );
}

#[test]
fn frames_come_in_rising_order_from_the_start_of_the_area() {
    // Kernel and boot information lie outside the area.
    let mut allocator =
        AreaFrameAllocator::new(0x100000, 0x1fffff, 0x200000, 0x200fff, vec![area(0x10000, 0x5000)]);
    assert_eq!(take(&mut allocator, 10), vec![0x10, 0x11, 0x12, 0x13, 0x14]);
}

#[test]
fn kernel_and_boot_information_are_skipped() {
    // Area: frames 0 to 15. Kernel: frames 2 to 4. Boot information: frames 7 to 8.
    let mut allocator =
        AreaFrameAllocator::new(0x2000, 0x4fff, 0x7000, 0x8fff, vec![area(0, 0x10000)]);
    assert_eq!(
        take(&mut allocator, 100),
        vec![0, 1, 5, 6, 9, 10, 11, 12, 13, 14, 15]
    );
}

#[test]
fn the_frame_of_the_end_address_is_reserved_too() {
    // The kernel ends at the first byte of frame 5: frame 5 is skipped.
    let mut allocator =
        AreaFrameAllocator::new(0x2000, 0x5000, 0x20000, 0x20000, vec![area(0, 0x8000)]);
    assert_eq!(take(&mut allocator, 100), vec![0, 1, 6, 7]);
}

#[test]
fn returned_frames_rise_strictly_and_avoid_the_reserved_ranges() {
    let mut allocator = AreaFrameAllocator::new(
        0x100000,
        0x2fffff,
        0x9000,
        0x9fff,
        vec![area(0, 0x9fc00), area(0x100000, 0xf00000)],
    );
    let mut last: Option<u64> = None;
    let mut count = 0;
    while let Some(frame) = allocator.allocate_frame() {
        if let Some(previous) = last {
            assert!(frame.number > previous);
        }
        assert!(!(0x100..=0x2ff).contains(&frame.number));
        assert!(frame.number != 9);
        last = Some(frame.number);
        count += 1;
    }
    // Frames 0 to 0x9f, less frame 9; frames 0x300 to 0xfff.
    assert_eq!(count, 0xa0 - 1 + 0xd00);
    assert_eq!(last, Some(0xfff));
}

#[test]
fn areas_are_taken_by_rising_base_address() {
    let areas = vec![area(0x30000, 0x2000), area(0x10000, 0x2000), area(0x20000, 0x1000)];
    let mut allocator = AreaFrameAllocator::new(0, 0, 0, 0, areas);
    assert_eq!(take(&mut allocator, 100), vec![0x10, 0x11, 0x20, 0x30, 0x31]);
}

#[test]
fn overlapping_areas_hand_out_each_frame_once() {
    let areas = vec![area(0x10000, 0x4000), area(0x12000, 0x4000)];
    let mut allocator = AreaFrameAllocator::new(0, 0, 0, 0, areas);
    assert_eq!(take(&mut allocator, 100), vec![0x10, 0x11, 0x12, 0x13, 0x14, 0x15]);
}

#[test]
fn an_area_that_ends_within_a_frame_gives_that_frame() {
    let mut allocator = AreaFrameAllocator::new(0, 0, 0, 0, vec![area(0x10800, 0x1000)]);
    assert_eq!(take(&mut allocator, 100), vec![0x10, 0x11]);
}

#[test]
fn exhaustion_is_final() {
    let mut allocator = AreaFrameAllocator::new(0, 0, 0, 0, vec![area(0x10000, 0x2000)]);
    assert_eq!(allocator.allocate_frame(), Some(Frame { number: 0x10 }));
    assert_eq!(allocator.allocate_frame(), Some(Frame { number: 0x11 }));
    for _ in 0..10 {
        assert_eq!(allocator.allocate_frame(), None);
    }
}

#[test]
fn no_areas_means_no_frames() {
    let mut allocator = AreaFrameAllocator::new(0, 0, 0, 0, Vec::new());
    assert_eq!(allocator.allocate_frame(), None);
    assert_eq!(allocator.allocate_frame(), None);
}

#[test]
fn an_area_inside_the_kernel_gives_nothing() {
    let mut allocator =
        AreaFrameAllocator::new(0x10000, 0x1ffff, 0, 0, vec![area(0x12000, 0x3000)]);
    assert_eq!(allocator.allocate_frame(), None);
}

#[test]
fn deallocated_frames_are_not_handed_out_again() {
    let mut allocator = AreaFrameAllocator::new(0, 0, 0, 0, vec![area(0x10000, 0x2000)]);
    let first = allocator.allocate_frame().unwrap();
    allocator.deallocate_frame(first);
    assert_eq!(allocator.allocate_frame(), Some(Frame { number: 0x11 }));
    assert_eq!(allocator.allocate_frame(), None);
}
