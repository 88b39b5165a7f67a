use kernel_memory::memory::area_frame_allocator::AreaFrameAllocator;
use kernel_memory::memory::boot_info::MemoryArea;
use kernel_memory::memory::machine::Machine;
use kernel_memory::memory::paging::entry::{EntryFlags, FRAME_NUMBER_LIMIT};
use kernel_memory::memory::paging::mapper::Mapper;
use kernel_memory::memory::paging::{ActivePageTable, Page};
use kernel_memory::memory::{Frame, FrameAllocator, MemoryError};

fn boot() -> Mapper {
    Mapper::boot(Frame { number: 0x2f0 }, Frame { number: 0x2f1 }, Frame { number: 0x2f2 }).unwrap()
}

fn allocator() -> AreaFrameAllocator {
    AreaFrameAllocator::new(0, 0, 0, 0, vec![MemoryArea::new(0x1000 * 4096, 64 * 4096).unwrap()])
}

#[test]
fn boot_needs_three_different_frames_that_fit_an_entry() {
    let f = |n: u64| Frame { number: n };
    assert!(Mapper::boot(f(1), f(2), f(3)).is_some());
    assert!(Mapper::boot(f(1), f(1), f(3)).is_none());
    assert!(Mapper::boot(f(1), f(2), f(1)).is_none());
    assert!(Mapper::boot(f(1), f(2), f(2)).is_none());
    assert!(Mapper::boot(f(FRAME_NUMBER_LIMIT), f(2), f(3)).is_none());
    assert!(Mapper::boot(f(1), f(FRAME_NUMBER_LIMIT), f(3)).is_none());
    assert!(Mapper::boot(f(1), f(2), f(FRAME_NUMBER_LIMIT)).is_none());
    assert!(ActivePageTable::boot(f(1), f(2), f(3)).is_some());
    assert!(ActivePageTable::boot(f(1), f(2), f(2)).is_none());
}

#[test]
fn boot_maps_the_first_gibibyte_to_itself() {
    let mapper = boot();
    assert_eq!(mapper.machine().cr3(), Frame { number: 0x2f0 });
    for address in [0u64, 0xfff, 0x1000, 0xb8000, 0x2f0000, 0x20_0000, 0x3fff_ffff] {
        assert_eq!(mapper.try_translate(address), Ok(Some(address)));
        assert_eq!(
            mapper.machine().translate_page(Page::containing_address(address)),
            Some(Frame::containing_address(address))
        );
    }
    assert_eq!(mapper.try_translate(0x4000_0000), Ok(None));
    assert_eq!(mapper.try_translate(0xcafebabe000), Ok(None));
    assert_eq!(mapper.try_translate(1 << 39), Ok(None));
}

#[test]
fn boot_maps_with_huge_pages_only() {
    let mapper = boot();
    assert_eq!(mapper.page_entry(Page { number: 0 }), None);
    assert_eq!(mapper.page_entry(Page { number: 0xb8 }), None);
    let machine = mapper.machine();
    // Entry 3 of the table in frame 0x2f2 maps the 2 MiB page at 6 MiB.
    assert_eq!(machine.read_physical(0x2f2 * 4096 + 3 * 8), Some((3 * 512 << 12) | 0x83));
    assert_eq!(machine.read_physical(0x2f0 * 4096), Some((0x2f1 << 12) | 3));
    assert_eq!(machine.read_physical(0x2f1 * 4096), Some((0x2f2 << 12) | 3));
    assert_eq!(machine.read_physical(0x2f0 * 4096 + 511 * 8), Some((0x2f0 << 12) | 3));
    assert_eq!(machine.read_physical(0x2f0 * 4096 + 8), Some(0));
}

#[test]
fn mapping_into_a_huge_page_is_rejected() {
    let mut mapper = boot();
    let mut frames = allocator();
    let page = Page { number: 0x300 };
    assert_eq!(
        mapper.try_map_to(page, Frame { number: 5 }, EntryFlags::present(), &mut frames),
        Err(MemoryError::UnsupportedHugePage)
    );
    assert_eq!(mapper.try_translate_page(page), Ok(Some(Frame { number: 0x300 })));
    // Nothing was taken from the allocator.
    assert_eq!(frames.allocate_frame(), Some(Frame { number: 0x1000 }));
}

#[test]
fn unmapping_a_page_of_a_huge_page_is_rejected() {
    let mut mapper = boot();
    let mut frames = allocator();
    let page = Page { number: 0x300 };
    assert_eq!(mapper.try_unmap(page, &mut frames), Err(MemoryError::UnsupportedHugePage));
    assert_eq!(mapper.try_translate_page(page), Ok(Some(Frame { number: 0x300 })));
}

#[test]
fn pages_beyond_the_first_gibibyte_can_be_mapped() {
    let mut mapper = boot();
    let mut frames = allocator();
    // Same root entry and same table of the third level as the huge pages.
    let page = Page { number: 0x40000 };
    assert_eq!(mapper.try_map_to(page, Frame { number: 5 }, EntryFlags::present(), &mut frames), Ok(()));
    assert_eq!(mapper.try_translate_page(page), Ok(Some(Frame { number: 5 })));
    assert_eq!(mapper.try_translate(0x1234), Ok(Some(0x1234)));
    // Two tables were needed: of the second and of the first level.
    assert_eq!(frames.allocate_frame(), Some(Frame { number: 0x1002 }));
}

#[test]
fn a_misaligned_huge_page_fails_translation() {
    // Built by hand: entry 1 of the table of the second level names frame
    // 0x401 as a 2 MiB page.
    let mapper = boot();
    let mut machine = mapper.into_machine();
    machine.write_physical(0x2f2 * 4096 + 8, (0x401 << 12) | 0x83);
    // The hardware drops the low bits of the frame number.
    assert_eq!(machine.translate_page(Page { number: 512 + 7 }), Some(Frame { number: 0x407 }));
}

#[test]
fn active_table_new_takes_a_root_table_with_the_recursive_entry_only() {
    let root = 0x300u64;
    let bare = || {
        let mut machine = Machine::new(Frame { number: root });
        for index in 0..512 {
            machine.write_physical(root * 4096 + index * 8, 0);
        }
        machine.write_physical(root * 4096 + 511 * 8, (root << 12) | 3);
        machine
    };
    let table = ActivePageTable::new(bare()).unwrap();
    assert_eq!(table.mapper.machine().cr3(), Frame { number: root });
    assert_eq!(table.mapper.try_translate(0x1000), Ok(None));
    // Nothing written.
    assert!(ActivePageTable::new(Machine::new(Frame { number: root })).is_none());
    // The last entry names another frame.
    let mut machine = bare();
    machine.write_physical(root * 4096 + 511 * 8, ((root + 1) << 12) | 3);
    assert!(ActivePageTable::new(machine).is_none());
    // An entry besides the last one is in use.
    let mut machine = bare();
    machine.write_physical(root * 4096 + 8, 0x5003);
    assert!(ActivePageTable::new(machine).is_none());
}

#[test]
fn is_ready_takes_a_boot_information_that_can_be_remapped_from() {
    let info = kernel_memory::memory::boot_info::BootInformation {
        start_address: 0x9000,
        end_address: 0xa000,
        memory_areas: vec![kernel_memory::memory::boot_info::MemoryArea::new(0, 0x100_0000).unwrap()],
        elf_sections: vec![
            kernel_memory::memory::boot_info::ElfSection { addr: 0, size: 0, flags: 0 },
            kernel_memory::memory::boot_info::ElfSection { addr: 0x10_0000, size: 0x2000, flags: 2 },
        ],
    };
    assert!(info.is_ready());
    assert!(info.in_kernel(Frame { number: 0x100 }));
    assert!(info.in_kernel(Frame { number: 0x101 }));
    assert!(!info.in_kernel(Frame { number: 0x102 }));
    assert!(!info.in_kernel(Frame { number: 0xff }));
    // The section that occupies no memory holds no frame.
    assert!(!info.in_kernel(Frame { number: 0 }));
}

#[test]
fn is_ready_refuses_what_cannot_be_remapped_from() {
    let section = |addr: u64, size: u64, flags: u64| kernel_memory::memory::boot_info::ElfSection {
        addr,
        size,
        flags,
    };
    let make = |start: u64, end: u64, sections: Vec<kernel_memory::memory::boot_info::ElfSection>| {
        kernel_memory::memory::boot_info::BootInformation {
            start_address: start,
            end_address: end,
            memory_areas: Vec::new(),
            elf_sections: sections,
        }
    };
    // Empty boot information.
    assert!(!make(0x9000, 0x9000, vec![section(0x1000, 0x1000, 2)]).is_ready());
    // No section occupies memory.
    assert!(!make(0x9000, 0xa000, vec![section(0x1000, 0x1000, 1)]).is_ready());
    // A section that wraps around the address space.
    assert!(!make(0x9000, 0xa000, vec![section(u64::MAX, 2, 2)]).is_ready());
    // A section in the range of the recursive mapping.
    assert!(!make(0x9000, 0xa000, vec![section(0x0000_ff80_0000_0000, 1, 2)]).is_ready());
    // Boot information in the range of the recursive mapping.
    assert!(!make(0x9000, 0x0000_ff80_0000_0001, vec![section(0x1000, 0x1000, 2)]).is_ready());
    // An empty section that occupies memory at address 0.
    assert!(!make(0x9000, 0xa000, vec![section(0, 0, 2)]).is_ready());
    // The highest end that is still below the recursive mapping.
    assert!(make(0x9000, 0x0000_ff80_0000_0000, vec![section(0x1000, 0x1000, 2)]).is_ready());
}
