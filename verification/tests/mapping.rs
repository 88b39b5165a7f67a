use kernel_memory::memory::area_frame_allocator::AreaFrameAllocator;
use kernel_memory::memory::boot_info::MemoryArea;
use kernel_memory::memory::machine::Machine;
use kernel_memory::memory::paging::entry::{
    EntryFlags, FRAME_NUMBER_LIMIT, NO_EXECUTE, PRESENT, WRITABLE,
};
use kernel_memory::memory::paging::mapper::Mapper;
use kernel_memory::memory::paging::table::P4;
use kernel_memory::memory::paging::Page;
use kernel_memory::memory::{Frame, FrameAllocator, MemoryError};

const ROOT: u64 = 0x300;

/// A machine whose root table, in frame `ROOT`, holds the recursive entry
/// and nothing else.
fn bare_machine() -> Machine {
    let mut machine = Machine::new(Frame { number: ROOT });
    for index in 0..512 {
        machine.write_physical(ROOT * 4096 + index * 8, 0);
    }
    machine.write_physical(ROOT * 4096 + 511 * 8, (ROOT << 12) | 3);
    machine
}

/// Frames 0x1000 to 0x1000 + `frames` - 1.
fn allocator(frames: u64) -> AreaFrameAllocator {
    let areas = match MemoryArea::new(0x1000 * 4096, frames * 4096) {
        Some(area) => vec![area],
        None => Vec::new(),
    };
    AreaFrameAllocator::new(0, 0, 0, 0, areas)
}

fn page(p4: u64, p3: u64, p2: u64, p1: u64) -> Page {
    Page { number: (p4 << 27) | (p3 << 18) | (p2 << 9) | p1 }
}

#[test]
fn new_takes_a_root_table_with_the_recursive_entry_only() {
    let mapper = Mapper::new(bare_machine()).unwrap();
    assert_eq!(mapper.machine().cr3(), Frame { number: ROOT });
    assert_eq!(mapper.try_translate(0), Ok(None));
    assert_eq!(mapper.try_translate_page(Page { number: 0xcafebabe }), Ok(None));
}

#[test]
fn new_rejects_other_root_tables() {
    // Nothing written at all.
    assert!(Mapper::new(Machine::new(Frame { number: ROOT })).is_none());
    // No recursive entry.
    let mut machine = bare_machine();
    machine.write_physical(ROOT * 4096 + 511 * 8, 0);
    assert!(Mapper::new(machine).is_none());
    // The last entry names another frame.
    let mut machine = bare_machine();
    machine.write_physical(ROOT * 4096 + 511 * 8, ((ROOT + 1) << 12) | 3);
    assert!(Mapper::new(machine).is_none());
    // The last entry is a huge page.
    let mut machine = bare_machine();
    machine.write_physical(ROOT * 4096 + 511 * 8, (ROOT << 12) | 0x83);
    assert!(Mapper::new(machine).is_none());
    // Another entry is in use.
    let mut machine = bare_machine();
    machine.write_physical(ROOT * 4096 + 3 * 8, 0x5003);
    assert!(Mapper::new(machine).is_none());
    // One slot was never written.
    let mut machine = Machine::new(Frame { number: ROOT });
    for index in 1..512 {
        machine.write_physical(ROOT * 4096 + index * 8, 0);
    }
    machine.write_physical(ROOT * 4096 + 511 * 8, (ROOT << 12) | 3);
    assert!(Mapper::new(machine).is_none());
    // The root register names a frame that no entry can hold.
    assert!(Mapper::new(Machine::new(Frame { number: FRAME_NUMBER_LIMIT })).is_none());
}

#[test]
fn map_to_then_translate_round_trip() {
    let mut mapper = Mapper::new(bare_machine()).unwrap();
    let mut frames = allocator(16);
    let page = Page { number: 0x12345 };
    let frame = Frame { number: 0x777 };
    assert_eq!(mapper.try_map_to(page, frame, EntryFlags::present(), &mut frames), Ok(()));
    assert_eq!(mapper.try_translate_page(page), Ok(Some(frame)));
    for k in [0u64, 1, 8, 0x123, 4095] {
        assert_eq!(
            mapper.try_translate(page.start_address() + k),
            Ok(Some(frame.start_address() + k))
        );
    }
    // The pages next to it are not mapped.
    assert_eq!(mapper.try_translate(page.start_address() - 1), Ok(None));
    assert_eq!(mapper.try_translate(page.start_address() + 4096), Ok(None));
}

#[test]
fn map_to_adds_the_present_flag() {
    let mut mapper = Mapper::new(bare_machine()).unwrap();
    let mut frames = allocator(16);
    let page = Page { number: 0x12345 };
    let flags = EntryFlags::writable().union(EntryFlags::no_execute());
    assert_eq!(mapper.try_map_to(page, Frame { number: 0x777 }, flags, &mut frames), Ok(()));
    let entry = mapper.page_entry(page).unwrap();
    assert_eq!(entry.0, (0x777 << 12) | PRESENT | WRITABLE | NO_EXECUTE);
    assert_eq!(entry.flags().bits(), PRESENT | WRITABLE | NO_EXECUTE);
    assert_eq!(mapper.page_entry(Page { number: 0x12346 }), None);
}

#[test]
fn map_to_makes_three_tables_for_the_first_page() {
    let mut mapper = Mapper::new(bare_machine()).unwrap();
    let mut frames = allocator(16);
    assert_eq!(
        mapper.try_map_to(page(1, 2, 3, 4), Frame { number: 0x50 }, EntryFlags::present(), &mut frames),
        Ok(())
    );
    // The tables took frames 0x1000 to 0x1002.
    assert_eq!(frames.allocate_frame(), Some(Frame { number: 0x1003 }));
    // A page under the same table of the first level takes none.
    assert_eq!(
        mapper.try_map_to(page(1, 2, 3, 5), Frame { number: 0x51 }, EntryFlags::present(), &mut frames),
        Ok(())
    );
    assert_eq!(frames.allocate_frame(), Some(Frame { number: 0x1004 }));
    // A page under another table of the second level takes one.
    assert_eq!(
        mapper.try_map_to(page(1, 2, 4, 5), Frame { number: 0x52 }, EntryFlags::present(), &mut frames),
        Ok(())
    );
    assert_eq!(frames.allocate_frame(), Some(Frame { number: 0x1006 }));
    assert_eq!(mapper.try_translate_page(page(1, 2, 3, 4)), Ok(Some(Frame { number: 0x50 })));
    assert_eq!(mapper.try_translate_page(page(1, 2, 3, 5)), Ok(Some(Frame { number: 0x51 })));
    assert_eq!(mapper.try_translate_page(page(1, 2, 4, 5)), Ok(Some(Frame { number: 0x52 })));
}

#[test]
fn new_tables_are_cleared() {
    let mut machine = bare_machine();
    // Rubbish in the frames that will become tables.
    for frame in 0x1000..0x1003u64 {
        for index in 0..512 {
            machine.write_physical(frame * 4096 + index * 8, u64::MAX);
        }
    }
    let mut mapper = Mapper::new(machine).unwrap();
    let mut frames = allocator(16);
    assert_eq!(
        mapper.try_map_to(page(0, 0, 0, 7), Frame { number: 0x50 }, EntryFlags::present(), &mut frames),
        Ok(())
    );
    assert_eq!(mapper.try_translate_page(page(0, 0, 0, 7)), Ok(Some(Frame { number: 0x50 })));
    for other in [page(0, 0, 0, 6), page(0, 0, 1, 7), page(0, 1, 0, 7), page(0, 0, 0, 8)] {
        assert_eq!(mapper.try_translate_page(other), Ok(None));
    }
}

#[test]
fn pages_that_differ_above_the_low_36_bits_share_a_slot() {
    let mut mapper = Mapper::new(bare_machine()).unwrap();
    let mut frames = allocator(16);
    let low = Page { number: 0x12345 };
    let high = Page { number: 0x12345 + (1 << 36) };
    assert_eq!(mapper.try_map_to(low, Frame { number: 9 }, EntryFlags::present(), &mut frames), Ok(()));
    assert_eq!(mapper.try_translate_page(high), Ok(Some(Frame { number: 9 })));
    assert_eq!(
        mapper.try_map_to(high, Frame { number: 10 }, EntryFlags::present(), &mut frames),
        Err(MemoryError::DoubleMapping)
    );
}

#[test]
fn mapping_a_page_twice_is_rejected() {
    let mut mapper = Mapper::new(bare_machine()).unwrap();
    let mut frames = allocator(16);
    let page = Page { number: 0x12345 };
    assert_eq!(mapper.try_map_to(page, Frame { number: 1 }, EntryFlags::present(), &mut frames), Ok(()));
    assert_eq!(
        mapper.try_map_to(page, Frame { number: 2 }, EntryFlags::present(), &mut frames),
        Err(MemoryError::DoubleMapping)
    );
    // The first mapping stands.
    assert_eq!(mapper.try_translate_page(page), Ok(Some(Frame { number: 1 })));
    // After an unmap the page can be mapped again.
    assert_eq!(mapper.try_unmap(page, &mut frames), Ok(()));
    assert_eq!(mapper.try_map_to(page, Frame { number: 2 }, EntryFlags::present(), &mut frames), Ok(()));
    assert_eq!(mapper.try_translate_page(page), Ok(Some(Frame { number: 2 })));
}

#[test]
fn map_to_rejects_a_frame_that_no_entry_can_hold() {
    let mut mapper = Mapper::new(bare_machine()).unwrap();
    let mut frames = allocator(16);
    let page = Page { number: 0x12345 };
    assert_eq!(
        mapper.try_map_to(page, Frame { number: FRAME_NUMBER_LIMIT }, EntryFlags::present(), &mut frames),
        Err(MemoryError::MisalignedFrame)
    );
    assert_eq!(mapper.try_translate_page(page), Ok(None));
}

#[test]
fn map_to_fails_when_the_allocator_is_exhausted() {
    let mut mapper = Mapper::new(bare_machine()).unwrap();
    let mut frames = allocator(2);
    let page = Page { number: 0x12345 };
    assert_eq!(
        mapper.try_map_to(page, Frame { number: 1 }, EntryFlags::present(), &mut frames),
        Err(MemoryError::FramesExhausted)
    );
    assert_eq!(mapper.try_translate_page(page), Ok(None));
    assert_eq!(frames.allocate_frame(), None);
}

#[test]
fn map_takes_the_frame_from_the_allocator() {
    let mut mapper = Mapper::new(bare_machine()).unwrap();
    let mut frames = allocator(16);
    let first = Page { number: 0x40000 };
    let second = Page { number: 0x40001 };
    assert_eq!(mapper.try_map(first, EntryFlags::writable(), &mut frames), Ok(()));
    assert_eq!(mapper.try_map(second, EntryFlags::writable(), &mut frames), Ok(()));
    // The frame of the page comes first, then the three tables.
    assert_eq!(mapper.try_translate_page(first), Ok(Some(Frame { number: 0x1000 })));
    assert_eq!(mapper.try_translate_page(second), Ok(Some(Frame { number: 0x1004 })));
    assert_eq!(mapper.page_entry(first).unwrap().flags().bits(), PRESENT | WRITABLE);
}

#[test]
fn map_fails_without_frames() {
    let mut mapper = Mapper::new(bare_machine()).unwrap();
    let mut frames = allocator(0);
    assert_eq!(
        mapper.try_map(Page { number: 1 }, EntryFlags::writable(), &mut frames),
        Err(MemoryError::FramesExhausted)
    );
}

#[test]
fn identity_map_maps_a_frame_to_its_own_address() {
    let mut mapper = Mapper::new(bare_machine()).unwrap();
    let mut frames = allocator(16);
    let frame = Frame { number: 0xb8 };
    assert_eq!(mapper.try_identity_map(frame, EntryFlags::writable(), &mut frames), Ok(()));
    assert_eq!(mapper.try_translate(0xb8000), Ok(Some(0xb8000)));
    assert_eq!(mapper.try_translate(0xb8fff), Ok(Some(0xb8fff)));
    assert_eq!(mapper.try_translate(0xb9000), Ok(None));
}

#[test]
fn identity_map_rejects_a_frame_without_an_address() {
    let mut mapper = Mapper::new(bare_machine()).unwrap();
    let mut frames = allocator(16);
    assert_eq!(
        mapper.try_identity_map(Frame { number: 1 << 52 }, EntryFlags::present(), &mut frames),
        Err(MemoryError::MisalignedFrame)
    );
    // Nothing was taken from the allocator.
    assert_eq!(frames.allocate_frame(), Some(Frame { number: 0x1000 }));
}

#[test]
fn unmap_clears_the_mapping() {
    let mut mapper = Mapper::new(bare_machine()).unwrap();
    let mut frames = allocator(16);
    let page = Page { number: 0x12345 };
    let other = Page { number: 0x12346 };
    assert_eq!(mapper.try_map_to(page, Frame { number: 1 }, EntryFlags::present(), &mut frames), Ok(()));
    assert_eq!(mapper.try_map_to(other, Frame { number: 2 }, EntryFlags::present(), &mut frames), Ok(()));
    assert_eq!(mapper.try_unmap(page, &mut frames), Ok(()));
    assert_eq!(mapper.try_translate(page.start_address()), Ok(None));
    assert_eq!(mapper.page_entry(page), None);
    assert_eq!(mapper.try_translate_page(other), Ok(Some(Frame { number: 2 })));
}

#[test]
fn unmap_drops_the_cached_translation() {
    let mut mapper = Mapper::new(bare_machine()).unwrap();
    let mut frames = allocator(16);
    let page = Page { number: 0x12345 };
    let other = Page { number: 0x12346 };
    assert_eq!(mapper.try_map_to(page, Frame { number: 1 }, EntryFlags::present(), &mut frames), Ok(()));
    assert_eq!(mapper.try_map_to(other, Frame { number: 2 }, EntryFlags::present(), &mut frames), Ok(()));
    // Both pages are used, and so cached.
    assert_eq!(mapper.access(page.start_address() + 5), Some(0x1005));
    assert_eq!(mapper.access(other.start_address() + 5), Some(0x2005));
    assert_eq!(mapper.try_unmap(page, &mut frames), Ok(()));
    assert_eq!(mapper.access(page.start_address() + 5), None);
    assert_eq!(mapper.access(other.start_address() + 5), Some(0x2005));
}

#[test]
fn unmap_keeps_the_tables_and_the_frames() {
    let mut mapper = Mapper::new(bare_machine()).unwrap();
    let mut frames = allocator(16);
    let page = Page { number: 0x12345 };
    assert_eq!(mapper.try_map_to(page, Frame { number: 1 }, EntryFlags::present(), &mut frames), Ok(()));
    assert_eq!(mapper.try_unmap(page, &mut frames), Ok(()));
    // Mapping the page again needs no table.
    let mut none = allocator(0);
    assert_eq!(mapper.try_map_to(page, Frame { number: 2 }, EntryFlags::present(), &mut none), Ok(()));
    // Nothing went back to the allocator.
    assert_eq!(frames.allocate_frame(), Some(Frame { number: 0x1003 }));
}

#[test]
fn unmapping_a_page_that_is_not_mapped_is_rejected() {
    let mut mapper = Mapper::new(bare_machine()).unwrap();
    let mut frames = allocator(16);
    let page = Page { number: 0x12345 };
    assert_eq!(mapper.try_unmap(page, &mut frames), Err(MemoryError::UnmappedUnmap));
    assert_eq!(mapper.try_map_to(page, Frame { number: 1 }, EntryFlags::present(), &mut frames), Ok(()));
    assert_eq!(mapper.try_unmap(page, &mut frames), Ok(()));
    assert_eq!(mapper.try_unmap(page, &mut frames), Err(MemoryError::UnmappedUnmap));
    // A neighbour under the same tables.
    assert_eq!(
        mapper.try_unmap(Page { number: 0x12346 }, &mut frames),
        Err(MemoryError::UnmappedUnmap)
    );
}

#[test]
fn child_table_address_follows_the_recursive_formula() {
    let mut mapper = Mapper::new(bare_machine()).unwrap();
    let mut frames = allocator(64);
    // Make the entries 0, 1 and 510 of the root table name tables.
    for p4 in [0u64, 1, 510] {
        assert_eq!(
            mapper.try_map_to(page(p4, 0, 0, 0), Frame { number: p4 }, EntryFlags::present(), &mut frames),
            Ok(())
        );
    }
    let root = mapper.p4();
    assert_eq!(root.start_address(), 0xffff_ffff_ffff_f000);
    assert_eq!(root.start_address(), P4);
    for index in [0usize, 1, 510, 511] {
        let expected = (P4 << 9) | ((index as u64) << 12);
        assert_eq!(root.next_table_address(mapper.machine(), index), Some(expected));
    }
    assert_eq!(root.next_table_address(mapper.machine(), 0), Some(0xffff_ffff_ffe0_0000));
    assert_eq!(root.next_table_address(mapper.machine(), 1), Some(0xffff_ffff_ffe0_1000));
    assert_eq!(root.next_table_address(mapper.machine(), 510), Some(0xffff_ffff_ffff_e000));
    assert_eq!(root.next_table_address(mapper.machine(), 511), Some(0xffff_ffff_ffff_f000));
    // An entry that names no table has no child address.
    assert_eq!(root.next_table_address(mapper.machine(), 2), None);
}

#[test]
fn tables_are_reached_through_the_recursive_mapping() {
    let mut mapper = Mapper::new(bare_machine()).unwrap();
    let mut frames = allocator(16);
    let page = page(5, 6, 7, 8);
    assert_eq!(mapper.try_map_to(page, Frame { number: 0x99 }, EntryFlags::present(), &mut frames), Ok(()));
    let machine = mapper.machine();
    let p4 = mapper.p4();
    let p3 = p4.next_table(machine, 5).unwrap();
    let p2 = p3.next_table(machine, 6).unwrap();
    let p1 = p2.next_table(machine, 7).unwrap();
    assert_eq!(p3.start_address(), 0xffff_ffff_ffe0_5000);
    assert_eq!(p2.start_address(), 0xffff_ffff_c0a0_6000);
    assert_eq!(p1.start_address(), 0xffff_ff81_40c0_7000);
    // The tables are the frames that the allocator handed out, in order.
    assert_eq!(p4.entry(machine, 5).pointed_frame(), Some(Frame { number: 0x1000 }));
    assert_eq!(p3.entry(machine, 6).pointed_frame(), Some(Frame { number: 0x1001 }));
    assert_eq!(p2.entry(machine, 7).pointed_frame(), Some(Frame { number: 0x1002 }));
    assert_eq!(p1.entry(machine, 8).pointed_frame(), Some(Frame { number: 0x99 }));
    assert!(p1.entry(machine, 9).is_unused());
    assert!(p4.next_table(machine, 6).is_none());
    // The hardware reaches the same words at those addresses.
    assert_eq!(machine.read(p1.start_address() + 8 * 8), Some((0x99 << 12) | PRESENT));
    assert_eq!(machine.read(p4.start_address() + 511 * 8), Some((ROOT << 12) | 3));
}

#[test]
fn software_and_hardware_translation_agree() {
    let mut mapper = Mapper::new(bare_machine()).unwrap();
    let mut frames = allocator(64);
    let pages = [page(0, 0, 0, 1), page(0, 0, 1, 0), page(3, 2, 1, 0), page(510, 511, 511, 511)];
    for (k, p) in pages.iter().enumerate() {
        let frame = Frame { number: 0x500 + k as u64 };
        assert_eq!(mapper.try_map_to(*p, frame, EntryFlags::writable(), &mut frames), Ok(()));
    }
    let probes = [
        page(0, 0, 0, 0),
        page(0, 0, 0, 1),
        page(0, 0, 1, 0),
        page(0, 0, 1, 1),
        page(3, 2, 1, 0),
        page(3, 2, 1, 1),
        page(4, 0, 0, 0),
        page(510, 511, 511, 511),
    ];
    for p in probes {
        assert_eq!(mapper.try_translate_page(p), Ok(mapper.machine().translate_page(p)));
    }
}

#[test]
fn into_machine_gives_back_the_memory() {
    let mut mapper = Mapper::new(bare_machine()).unwrap();
    let mut frames = allocator(16);
    let page = Page { number: 7 };
    assert_eq!(mapper.try_map_to(page, Frame { number: 0x99 }, EntryFlags::present(), &mut frames), Ok(()));
    let machine = mapper.into_machine();
    assert_eq!(machine.translate_page(page), Some(Frame { number: 0x99 }));
    assert_eq!(machine.read_physical(0x1002 * 4096 + 7 * 8), Some((0x99 << 12) | PRESENT));
}

#[test]
fn map_to_on_a_free_page_makes_three_tables_and_the_mapping() {
    let mut mapper = Mapper::new(bare_machine()).unwrap();
    let mut frames = allocator(3);
    let target = page(1, 2, 3, 4);
    mapper.map_to(target, Frame { number: 0x77 }, EntryFlags::writable(), &mut frames);
    assert_eq!(mapper.translate_page(target), Some(Frame { number: 0x77 }));
    assert_eq!(mapper.translate(target.number * 4096 + 0x123), Some(0x77123));
    assert_eq!(mapper.translate_page(page(1, 2, 3, 5)), None);
    // Exactly the three tables came from the allocator.
    assert_eq!(frames.allocate_frame(), None);
    assert_eq!(mapper.machine().read_physical(ROOT * 4096 + 8), Some((0x1000 << 12) | 3));
    assert_eq!(mapper.machine().read_physical(0x1000 * 4096 + 2 * 8), Some((0x1001 << 12) | 3));
    assert_eq!(mapper.machine().read_physical(0x1001 * 4096 + 3 * 8), Some((0x1002 << 12) | 3));
    assert_eq!(mapper.machine().read_physical(0x1002 * 4096 + 4 * 8), Some((0x77 << 12) | 3));
}

#[test]
fn map_to_with_the_tables_in_place_takes_no_frame() {
    let mut mapper = Mapper::new(bare_machine()).unwrap();
    let mut frames = allocator(4);
    mapper.map_to(page(0, 0, 0, 1), Frame { number: 0x50 }, EntryFlags::present(), &mut frames);
    mapper.map_to(page(0, 0, 0, 2), Frame { number: 0x51 }, EntryFlags::present(), &mut frames);
    assert_eq!(frames.allocate_frame(), Some(Frame { number: 0x1003 }));
    assert_eq!(mapper.translate_page(page(0, 0, 0, 1)), Some(Frame { number: 0x50 }));
    assert_eq!(mapper.translate_page(page(0, 0, 0, 2)), Some(Frame { number: 0x51 }));
}

#[test]
fn map_takes_the_data_frame_first_and_then_the_tables() {
    let mut mapper = Mapper::new(bare_machine()).unwrap();
    let mut frames = allocator(4);
    mapper.map(page(0, 0, 0, 9), EntryFlags::writable(), &mut frames);
    assert_eq!(mapper.translate_page(page(0, 0, 0, 9)), Some(Frame { number: 0x1000 }));
    assert_eq!(frames.allocate_frame(), None);
}

#[test]
fn identity_map_and_unmap_on_pages_that_allow_them() {
    let mut mapper = Mapper::new(bare_machine()).unwrap();
    let mut frames = allocator(8);
    mapper.identity_map(Frame { number: 0xb8 }, EntryFlags::writable(), &mut frames);
    assert_eq!(mapper.translate(0xb8000), Some(0xb8000));
    mapper.unmap(Page { number: 0xb8 }, &mut frames);
    assert_eq!(mapper.translate_page(Page { number: 0xb8 }), None);
    // The tables stay, and the slot is free again.
    assert_eq!(frames.allocate_frame(), Some(Frame { number: 0x1003 }));
    mapper.map_to(Page { number: 0xb8 }, Frame { number: 0x99 }, EntryFlags::present(), &mut frames);
    assert_eq!(mapper.translate_page(Page { number: 0xb8 }), Some(Frame { number: 0x99 }));
    assert_eq!(frames.allocate_frame(), Some(Frame { number: 0x1004 }));
}

#[test]
fn next_table_create_makes_a_table_once() {
    let mapper = Mapper::new(bare_machine()).unwrap();
    let mut frames = allocator(2);
    let p4 = mapper.p4();
    let mut machine = mapper.into_machine();
    let made = p4.next_table_create(&mut machine, 5, &mut frames);
    assert_eq!(machine.read_physical(ROOT * 4096 + 5 * 8), Some((0x1000 << 12) | 3));
    let again = p4.next_table_create(&mut machine, 5, &mut frames);
    assert_eq!(made.start_address(), again.start_address());
    assert_eq!(frames.allocate_frame(), Some(Frame { number: 0x1001 }));
}
