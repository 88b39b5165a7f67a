use kernel_memory::memory::area_frame_allocator::AreaFrameAllocator;
use kernel_memory::memory::boot_info::{
    BootInformation, ElfSection, MemoryArea, ELF_SECTION_ALLOCATED, ELF_SECTION_EXECUTABLE,
    ELF_SECTION_WRITABLE,
};
use kernel_memory::memory::machine::Machine;
use kernel_memory::memory::paging::entry::{NO_EXECUTE, PRESENT, WRITABLE};
use kernel_memory::memory::paging::{
    remap_the_kernel, try_remap_the_kernel, ActivePageTable, Page,
};
use kernel_memory::memory::{init, try_init, Frame, FrameAllocator, MemoryError};
use kernel_memory::{HEAP_SIZE, HEAP_START};

const MIB: u64 = 1 << 20;
const OLD_P4: u64 = 0x2f0;

/// 16 MiB of memory; a kernel image of 2 MiB from 1 MiB on; boot
/// information of 4 KiB in frame 9.
fn boot_info() -> BootInformation {
    let alloc = ELF_SECTION_ALLOCATED;
    BootInformation {
        start_address: 0x9000,
        end_address: 0xa000,
        memory_areas: vec![MemoryArea::new(0, 16 * MIB).unwrap()],
        elf_sections: vec![
            ElfSection { addr: 0, size: 0x1000, flags: 0 },
            ElfSection { addr: 0x10_0000, size: 0x8_0000, flags: alloc | ELF_SECTION_EXECUTABLE },
            ElfSection { addr: 0x18_0000, size: 0x4_0000, flags: alloc },
            ElfSection { addr: 0x1c_0000, size: 0x4_0000, flags: alloc | ELF_SECTION_WRITABLE },
            ElfSection { addr: 0x20_0000, size: 0x10_0000, flags: alloc | ELF_SECTION_WRITABLE },
        ],
    }
}

/// The boot tables lie in the last section of the kernel image.
fn boot_table() -> ActivePageTable {
    ActivePageTable::boot(
        Frame { number: OLD_P4 },
        Frame { number: OLD_P4 + 1 },
        Frame { number: OLD_P4 + 2 },
    )
    .unwrap()
}

fn flags_of(table: &ActivePageTable, frame: u64) -> u64 {
    let entry = table.mapper.page_entry(Page { number: frame }).unwrap();
    assert_eq!(entry.pointed_frame(), Some(Frame { number: frame }));
    entry.flags().bits()
}

#[test]
fn remap_end_to_end() {
    let info = boot_info();
    assert!(info.is_ready());
    let (table, mut allocator) = init(&info, boot_table());

    // The new root table is the first frame after the three of the pool.
    assert_eq!(table.mapper.machine().cr3(), Frame { number: 3 });

    // Executable section: present, executable, read-only; every byte.
    for frame in 0x100..0x180u64 {
        assert_eq!(flags_of(&table, frame), PRESENT);
        for offset in [0u64, 1, 0x7ff, 0xfff] {
            let address = frame * 4096 + offset;
            assert_eq!(table.mapper.try_translate(address), Ok(Some(address)));
        }
    }
    // Read-only data: present, not executable.
    for frame in 0x180..0x1c0u64 {
        assert_eq!(flags_of(&table, frame), PRESENT | NO_EXECUTE);
    }
    // Writable sections: writable and not executable.
    for frame in 0x1c0..0x300u64 {
        if frame == OLD_P4 {
            continue;
        }
        assert_eq!(flags_of(&table, frame), PRESENT | WRITABLE | NO_EXECUTE);
        assert_eq!(table.mapper.try_translate(frame * 4096 + 8), Ok(Some(frame * 4096 + 8)));
    }
    // The page of the old root table is the guard page.
    assert_eq!(table.mapper.try_translate(OLD_P4 * 4096), Ok(None));
    assert_eq!(table.mapper.try_translate(OLD_P4 * 4096 + 0xfff), Ok(None));
    assert_eq!(table.mapper.page_entry(Page { number: OLD_P4 }), None);
    assert_eq!(table.mapper.machine().translate_page(Page { number: OLD_P4 }), None);
    // Its neighbours, the other boot tables, are ordinary kernel memory.
    assert_eq!(table.mapper.try_translate((OLD_P4 + 1) * 4096), Ok(Some((OLD_P4 + 1) * 4096)));

    // The text buffer of the console and the boot information.
    assert_eq!(flags_of(&table, 0xb8), PRESENT | WRITABLE);
    assert_eq!(flags_of(&table, 9), PRESENT);

    // What was not named is not mapped.
    for frame in [0u64, 8, 0xa, 0xb7, 0xb9, 0xff, 0x300, 0xfff] {
        assert_eq!(table.mapper.try_translate(frame * 4096), Ok(None));
    }
    assert_eq!(table.mapper.try_translate(0xcafebabe000), Ok(None));

    // The heap: every page mapped writable, each to a frame of its own in
    // usable memory outside the kernel and the boot information.
    let first = HEAP_START / 4096;
    let last = (HEAP_START + HEAP_SIZE - 1) / 4096;
    assert_eq!(last - first + 1, 25);
    let mut backing: Vec<u64> = Vec::new();
    for page in first..=last {
        let frame = table.mapper.try_translate_page(Page { number: page }).unwrap().unwrap();
        assert!(!backing.contains(&frame.number));
        assert!(frame.number < 0x1000);
        assert!(!(0x100..0x300).contains(&frame.number));
        assert!(frame.number != 9);
        backing.push(frame.number);
        let entry = table.mapper.page_entry(Page { number: page }).unwrap();
        assert_eq!(entry.flags().bits(), PRESENT | WRITABLE);
        assert_eq!(
            table.mapper.try_translate(page * 4096 + 0x10),
            Ok(Some(frame.number * 4096 + 0x10))
        );
    }
    assert_eq!(table.mapper.try_translate(HEAP_START - 1), Ok(None));
    assert_eq!(table.mapper.try_translate(HEAP_START + HEAP_SIZE + 0xfff), Ok(None));

    // The allocator goes on above what was used, and hands out nothing
    // that backs the heap.
    let next = allocator.allocate_frame().unwrap();
    assert!(backing.iter().all(|frame| *frame < next.number));
}

#[test]
fn hardware_and_mapper_agree_after_the_remap() {
    let info = boot_info();
    let (table, _) = try_init(&info, boot_table()).unwrap();
    for page in [0u64, 9, 0xb8, 0x100, 0x17f, 0x180, 0x2ef, OLD_P4, 0x2f1, 0x300, 0x40000, 0x40018, 0x40019] {
        let page = Page { number: page };
        assert_eq!(
            table.mapper.try_translate_page(page),
            Ok(table.mapper.machine().translate_page(page))
        );
    }
}

#[test]
fn remap_leaves_the_old_hierarchy_in_memory() {
    let info = boot_info();
    let (table, _) = try_init(&info, boot_table()).unwrap();
    let machine = table.mapper.machine();
    assert_eq!(machine.read_physical(OLD_P4 * 4096 + 511 * 8), Some((OLD_P4 << 12) | 3));
    assert_eq!(machine.read_physical(OLD_P4 * 4096), Some(((OLD_P4 + 1) << 12) | 3));
    // The new root table names itself.
    assert_eq!(machine.read_physical(3 * 4096 + 511 * 8), Some((3 << 12) | 3));
}

#[test]
fn remap_without_the_heap() {
    let info = boot_info();
    let mut allocator = AreaFrameAllocator::new(
        0x10_0000,
        0x30_0000,
        0x9000,
        0xa000,
        vec![MemoryArea::new(0, 16 * MIB).unwrap()],
    );
    let table = try_remap_the_kernel(boot_table(), &mut allocator, &info).unwrap();
    assert_eq!(table.mapper.try_translate(0x10_0000), Ok(Some(0x10_0000)));
    assert_eq!(table.mapper.try_translate(OLD_P4 * 4096), Ok(None));
    assert_eq!(table.mapper.try_translate(HEAP_START), Ok(None));
}

#[test]
fn remap_from_a_root_table_without_mappings() {
    // The boot state can be as small as a root table with its recursive
    // entry, as long as the table lies in the kernel image.
    let mut machine = Machine::new(Frame { number: OLD_P4 });
    for index in 0..512 {
        machine.write_physical(OLD_P4 * 4096 + index * 8, 0);
    }
    machine.write_physical(OLD_P4 * 4096 + 511 * 8, (OLD_P4 << 12) | 3);
    let active = ActivePageTable::new(machine).unwrap();
    let info = boot_info();
    let (table, _) = try_init(&info, active).unwrap();
    assert_eq!(table.mapper.try_translate(0x10_0000), Ok(Some(0x10_0000)));
    assert_eq!(table.mapper.try_translate(OLD_P4 * 4096), Ok(None));
    assert!(table.mapper.try_translate(HEAP_START).unwrap().is_some());
}

#[test]
fn remap_fails_when_memory_runs_out() {
    let mut info = boot_info();
    // Usable memory: eight frames below the kernel.
    info.memory_areas = vec![MemoryArea::new(0, 0x8000).unwrap()];
    assert_eq!(try_init(&info, boot_table()).err(), Some(MemoryError::FramesExhausted));
}

#[test]
fn remap_fails_on_sections_that_share_a_frame() {
    let mut info = boot_info();
    info.elf_sections.push(ElfSection { addr: 0x2f_f800, size: 0x1000, flags: ELF_SECTION_ALLOCATED });
    assert_eq!(try_init(&info, boot_table()).err(), Some(MemoryError::DoubleMapping));
}

#[test]
fn remap_fails_when_the_old_root_table_is_not_in_the_kernel() {
    let info = boot_info();
    let active = ActivePageTable::boot(
        Frame { number: 0x400 },
        Frame { number: 0x401 },
        Frame { number: 0x402 },
    )
    .unwrap();
    // An allocator that keeps clear of the boot tables, as it must.
    let mut allocator = AreaFrameAllocator::new(
        0x10_0000,
        0x30_0000,
        0x9000,
        0xa000,
        vec![MemoryArea::new(0, 0x40_0000).unwrap()],
    );
    assert_eq!(
        try_remap_the_kernel(active, &mut allocator, &info).err(),
        Some(MemoryError::UnmappedUnmap)
    );
}

#[test]
fn heap_is_not_mapped_over_the_kernel() {
    let mut info = boot_info();
    // A section that lies where the heap is to go.
    info.elf_sections.push(ElfSection {
        addr: HEAP_START + 0x2000,
        size: 0x1000,
        flags: ELF_SECTION_ALLOCATED,
    });
    assert_eq!(try_init(&info, boot_table()).err(), Some(MemoryError::DoubleMapping));
}

#[test]
fn remap_the_kernel_takes_no_more_frames_than_its_budget() {
    let info = boot_info();
    let mut allocator =
        AreaFrameAllocator::new(0x10_0000, 0x30_0000, 0x9000, 0xa000, info.memory_areas.clone());
    let table = remap_the_kernel(boot_table(), &mut allocator, &info);
    assert_eq!(table.mapper.machine().cr3(), Frame { number: 3 });
    assert_eq!(table.mapper.translate(0x10_0123), Some(0x10_0123));
    assert_eq!(table.mapper.translate(0xb8000), Some(0xb8000));
    assert_eq!(table.mapper.translate(0x9abc), Some(0x9abc));
    // 0x200 frames of sections, the text buffer and one frame of boot
    // information: 514 mappings, and a budget of 4 + 3 * 514 frames.
    let next = allocator.allocate_frame().unwrap();
    assert!(next.number < 4 + 3 * 514 + 0x201 + 2 + 9);
}

#[test]
fn try_init_and_init_agree() {
    let info = boot_info();
    let (strict, _) = init(&info, boot_table());
    let (checked, _) = try_init(&info, boot_table()).unwrap();
    assert_eq!(strict.mapper.machine().cr3(), checked.mapper.machine().cr3());
    for address in [0x10_0000u64, 0x2f_ffff, 0xb8000, 0x9000, HEAP_START, HEAP_START + HEAP_SIZE - 1] {
        assert_eq!(strict.mapper.translate(address), checked.mapper.try_translate(address).unwrap());
    }
}
