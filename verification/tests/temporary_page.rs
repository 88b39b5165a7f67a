use kernel_memory::memory::area_frame_allocator::AreaFrameAllocator;
use kernel_memory::memory::boot_info::MemoryArea;
use kernel_memory::memory::paging::entry::{PRESENT, WRITABLE};
use kernel_memory::memory::paging::mapper::InactivePageTable;
use kernel_memory::memory::paging::temporary_page::{TemporaryPage, TinyAllocator};
use kernel_memory::memory::paging::{ActivePageTable, Page};
use kernel_memory::memory::{Frame, FrameAllocator, MemoryError};

fn allocator(frames: u64) -> AreaFrameAllocator {
    let areas = match MemoryArea::new(0x1000 * 4096, frames * 4096) {
        Some(area) => vec![area],
        None => Vec::new(),
    };
    AreaFrameAllocator::new(0, 0, 0, 0, areas)
}

fn boot() -> ActivePageTable {
    ActivePageTable::boot(Frame { number: 0x2f0 }, Frame { number: 0x2f1 }, Frame { number: 0x2f2 })
        .unwrap()
}

const SCRATCH: Page = Page { number: 0xcafebabe };

#[test]
fn tiny_allocator_takes_three_frames() {
    let mut frames = allocator(16);
    let pool = TinyAllocator::new(&mut frames);
    assert_eq!(
        pool.0,
        [
            Some(Frame { number: 0x1000 }),
            Some(Frame { number: 0x1001 }),
            Some(Frame { number: 0x1002 })
        ]
    );
    assert_eq!(frames.allocate_frame(), Some(Frame { number: 0x1003 }));
}

#[test]
fn tiny_allocator_takes_what_there_is() {
    let mut frames = allocator(2);
    let pool = TinyAllocator::new(&mut frames);
    assert_eq!(pool.0, [Some(Frame { number: 0x1000 }), Some(Frame { number: 0x1001 }), None]);
    assert_eq!(frames.allocate_frame(), None);
}

#[test]
fn tiny_allocator_hands_out_the_first_frame_it_holds() {
    let mut frames = allocator(16);
    let mut pool = TinyAllocator::new(&mut frames);
    assert_eq!(pool.allocate_frame(), Some(Frame { number: 0x1000 }));
    assert_eq!(pool.0, [None, Some(Frame { number: 0x1001 }), Some(Frame { number: 0x1002 })]);
    assert_eq!(pool.allocate_frame(), Some(Frame { number: 0x1001 }));
    assert_eq!(pool.allocate_frame(), Some(Frame { number: 0x1002 }));
    assert_eq!(pool.allocate_frame(), None);
    assert_eq!(pool.allocate_frame(), None);
}

#[test]
fn tiny_allocator_takes_frames_back_into_the_first_empty_slot() {
    let mut frames = allocator(16);
    let mut pool = TinyAllocator::new(&mut frames);
    let first = pool.allocate_frame().unwrap();
    let second = pool.allocate_frame().unwrap();
    assert_eq!(pool.try_deallocate_frame(second), Ok(()));
    assert_eq!(pool.0, [Some(second), None, Some(Frame { number: 0x1002 })]);
    assert_eq!(pool.try_deallocate_frame(first), Ok(()));
    assert_eq!(pool.0, [Some(second), Some(first), Some(Frame { number: 0x1002 })]);
}

#[test]
fn tiny_allocator_holds_three_frames_at_most() {
    let mut frames = allocator(16);
    let mut pool = TinyAllocator::new(&mut frames);
    let before = pool.0;
    assert_eq!(
        pool.try_deallocate_frame(Frame { number: 0x2000 }),
        Err(MemoryError::BootstrapPoolExhausted)
    );
    assert_eq!(pool.0, before);
}

#[test]
fn temporary_page_maps_a_frame_at_the_scratch_page() {
    let mut active = boot();
    let mut frames = allocator(16);
    let mut scratch = TemporaryPage::new(SCRATCH, &mut frames);
    assert_eq!(scratch.try_map(Frame { number: 0x500 }, &mut active), Ok(0xcafebabe000));
    assert_eq!(active.mapper.try_translate(0xcafebabe123), Ok(Some(0x500123)));
    assert_eq!(
        active.mapper.page_entry(SCRATCH).unwrap().0,
        (0x500 << 12) | PRESENT | WRITABLE
    );
    // The three tables came from the pool, not from the allocator.
    assert_eq!(frames.allocate_frame(), Some(Frame { number: 0x1003 }));
    assert_eq!(scratch.try_unmap(&mut active), Ok(()));
    assert_eq!(active.mapper.try_translate(0xcafebabe123), Ok(None));
}

#[test]
fn temporary_page_cannot_be_mapped_twice() {
    let mut active = boot();
    let mut frames = allocator(16);
    let mut scratch = TemporaryPage::new(SCRATCH, &mut frames);
    assert_eq!(scratch.try_map(Frame { number: 0x500 }, &mut active), Ok(0xcafebabe000));
    assert_eq!(scratch.try_map(Frame { number: 0x501 }, &mut active), Err(MemoryError::DoubleMapping));
    assert_eq!(active.mapper.try_translate(0xcafebabe000), Ok(Some(0x500000)));
}

#[test]
fn temporary_page_can_be_mapped_again_after_unmap() {
    let mut active = boot();
    let mut frames = allocator(16);
    let mut scratch = TemporaryPage::new(SCRATCH, &mut frames);
    assert_eq!(scratch.try_map(Frame { number: 0x500 }, &mut active), Ok(0xcafebabe000));
    assert_eq!(scratch.try_unmap(&mut active), Ok(()));
    // The tables are still there: the empty pool is enough.
    assert_eq!(scratch.try_map(Frame { number: 0x501 }, &mut active), Ok(0xcafebabe000));
    assert_eq!(active.mapper.try_translate(0xcafebabe000), Ok(Some(0x501000)));
}

#[test]
fn temporary_page_unmap_needs_a_mapping() {
    let mut active = boot();
    let mut frames = allocator(16);
    let mut scratch = TemporaryPage::new(SCRATCH, &mut frames);
    assert_eq!(scratch.try_unmap(&mut active), Err(MemoryError::UnmappedUnmap));
}

#[test]
fn temporary_page_fails_with_an_empty_pool() {
    let mut active = boot();
    let mut frames = allocator(0);
    let mut scratch = TemporaryPage::new(SCRATCH, &mut frames);
    assert_eq!(
        scratch.try_map(Frame { number: 0x500 }, &mut active),
        Err(MemoryError::FramesExhausted)
    );
}

#[test]
fn map_table_frame_shows_the_frame_as_a_table() {
    let mut active = boot();
    let mut frames = allocator(16);
    let mut scratch = TemporaryPage::new(SCRATCH, &mut frames);
    // The boot root table, seen through the scratch page.
    let table = scratch.try_map_table_frame(Frame { number: 0x2f0 }, &mut active).unwrap();
    assert_eq!(table.start_address(), 0xcafebabe000);
    let machine = active.mapper.machine();
    assert_eq!(table.entry(machine, 0).0, (0x2f1 << 12) | 3);
    assert_eq!(table.entry(machine, 511).0, (0x2f0 << 12) | 3);
    assert!(table.entry(machine, 1).is_unused());
}

#[test]
fn inactive_table_is_empty_but_for_the_recursive_entry() {
    let mut active = boot();
    let mut frames = allocator(16);
    let mut scratch = TemporaryPage::new(SCRATCH, &mut frames);
    let frame = frames.allocate_frame().unwrap();
    assert_eq!(frame, Frame { number: 0x1003 });
    let table = InactivePageTable::try_new(frame, &mut active, &mut scratch).unwrap();
    assert_eq!(table.p4_frame(), frame);
    let machine = active.mapper.machine();
    for index in 0..511u64 {
        assert_eq!(machine.read_physical(0x1003 * 4096 + index * 8), Some(0));
    }
    assert_eq!(machine.read_physical(0x1003 * 4096 + 511 * 8), Some((0x1003 << 12) | 3));
    // The scratch page is free again.
    assert_eq!(active.mapper.try_translate(0xcafebabe000), Ok(None));
}

#[test]
fn with_works_on_the_table_at_rest() {
    let mut active = boot();
    let mut frames = allocator(32);
    let mut scratch = TemporaryPage::new(SCRATCH, &mut frames);
    let frame = frames.allocate_frame().unwrap();
    let table = InactivePageTable::try_new(frame, &mut active, &mut scratch).unwrap();
    let parked = active.try_with_begin(table, &mut scratch).unwrap();
    // The mapper now edits the new hierarchy; the processor still uses
    // the old one.
    assert_eq!(active.mapper.try_translate(0xb8000), Ok(None));
    assert_eq!(active.mapper.machine().translate_page(Page { number: 0xb8 }), Some(Frame { number: 0xb8 }));
    assert_eq!(
        active.mapper.try_identity_map(
            Frame { number: 0xb8 },
            kernel_memory::memory::paging::entry::EntryFlags::writable(),
            &mut frames
        ),
        Ok(())
    );
    assert_eq!(active.mapper.try_translate(0xb8000), Ok(Some(0xb8000)));
    assert_eq!(active.mapper.page_entry(Page { number: 0xb8 }).unwrap().0, 0xb8003);
    let table = active.with_end(parked, &mut scratch);
    // Back on the old hierarchy: the frame is mapped by a huge page.
    assert_eq!(active.mapper.page_entry(Page { number: 0xb8 }), None);
    assert_eq!(active.mapper.try_translate(0xb8000), Ok(Some(0xb8000)));
    assert_eq!(active.mapper.try_translate(0x5000), Ok(Some(0x5000)));
    assert_eq!(active.mapper.try_translate(0xcafebabe000), Ok(None));
    // After the switch the new hierarchy is in use.
    let old = active.switch(table);
    assert_eq!(old.p4_frame(), Frame { number: 0x2f0 });
    assert_eq!(active.mapper.machine().cr3(), frame);
    assert_eq!(active.mapper.try_translate(0xb8000), Ok(Some(0xb8000)));
    assert_eq!(active.mapper.page_entry(Page { number: 0xb8 }).unwrap().0, 0xb8003);
    assert_eq!(active.mapper.try_translate(0x5000), Ok(None));
    assert_eq!(active.mapper.machine().translate_page(Page { number: 5 }), None);
    // And back again.
    let new = active.switch(old);
    assert_eq!(new.p4_frame(), frame);
    assert_eq!(active.mapper.try_translate(0x5000), Ok(Some(0x5000)));
}

#[test]
fn map_and_unmap_on_a_free_scratch_page() {
    let mut active = boot();
    let mut frames = allocator(16);
    let mut scratch = TemporaryPage::new(SCRATCH, &mut frames);
    assert_eq!(scratch.map(Frame { number: 0x500 }, &mut active), 0xcafebabe000);
    assert_eq!(active.mapper.translate_page(SCRATCH), Some(Frame { number: 0x500 }));
    scratch.unmap(&mut active);
    assert_eq!(active.mapper.translate_page(SCRATCH), None);
    // The tables of the first mapping serve the second.
    let table = scratch.map_table_frame(Frame { number: 0x501 }, &mut active);
    assert_eq!(table.start_address(), 0xcafebabe000);
    assert_eq!(active.mapper.translate(0xcafebabe008), Some(0x501008));
}

#[test]
fn tiny_allocator_takes_a_frame_back_where_it_has_room() {
    let mut frames = allocator(16);
    let mut pool = TinyAllocator::new(&mut frames);
    let first = pool.allocate_frame().unwrap();
    pool.deallocate_frame(first);
    assert_eq!(
        pool.0,
        [
            Some(Frame { number: 0x1000 }),
            Some(Frame { number: 0x1001 }),
            Some(Frame { number: 0x1002 })
        ]
    );
}

#[test]
fn new_and_with_begin_on_a_free_scratch_page() {
    let mut active = boot();
    let mut frames = allocator(16);
    let mut scratch = TemporaryPage::new(SCRATCH, &mut frames);
    let frame = frames.allocate_frame().unwrap();
    let table = InactivePageTable::new(frame, &mut active, &mut scratch);
    assert_eq!(table.p4_frame(), frame);
    let parked = active.with_begin(table, &mut scratch);
    let table = active.with_end(parked, &mut scratch);
    assert_eq!(table.p4_frame(), frame);
    assert_eq!(active.mapper.translate_page(SCRATCH), None);
}
