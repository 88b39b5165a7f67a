use kernel_memory::memory::boot_info::{
    ElfSection, ELF_SECTION_ALLOCATED, ELF_SECTION_EXECUTABLE, ELF_SECTION_WRITABLE,
};
use kernel_memory::memory::paging::entry::{
    Entry, EntryFlags, ACCESSED, ADDRESS_MASK, ALL_FLAGS, DIRTY, FRAME_NUMBER_LIMIT, GLOBAL,
    HUGE_PAGE, NO_CACHE, NO_EXECUTE, PRESENT, USER_ACCESSIBLE, WRITABLE, WRITE_THROUGH,
};
use kernel_memory::memory::{Frame, MemoryError};

#[test]
fn flag_constants_have_their_hardware_bits() {
    assert_eq!(PRESENT, 1 << 0);
    assert_eq!(WRITABLE, 1 << 1);
    assert_eq!(USER_ACCESSIBLE, 1 << 2);
    assert_eq!(WRITE_THROUGH, 1 << 3);
    assert_eq!(NO_CACHE, 1 << 4);
    assert_eq!(ACCESSED, 1 << 5);
    assert_eq!(DIRTY, 1 << 6);
    assert_eq!(HUGE_PAGE, 1 << 7);
    assert_eq!(GLOBAL, 1 << 8);
    assert_eq!(NO_EXECUTE, 1 << 63);
    assert_eq!(
        ALL_FLAGS,
        PRESENT | WRITABLE | USER_ACCESSIBLE | WRITE_THROUGH | NO_CACHE | ACCESSED | DIRTY
            | HUGE_PAGE | GLOBAL | NO_EXECUTE
    );
    assert_eq!(ADDRESS_MASK, 0x000f_ffff_ffff_f000);
}

#[test]
fn named_flag_sets_hold_one_flag_each() {
    assert_eq!(EntryFlags::empty().bits(), 0);
    assert_eq!(EntryFlags::present().bits(), PRESENT);
    assert_eq!(EntryFlags::writable().bits(), WRITABLE);
    assert_eq!(EntryFlags::user_accessible().bits(), USER_ACCESSIBLE);
    assert_eq!(EntryFlags::write_through().bits(), WRITE_THROUGH);
    assert_eq!(EntryFlags::no_cache().bits(), NO_CACHE);
    assert_eq!(EntryFlags::accessed().bits(), ACCESSED);
    assert_eq!(EntryFlags::dirty().bits(), DIRTY);
    assert_eq!(EntryFlags::huge_page().bits(), HUGE_PAGE);
    assert_eq!(EntryFlags::global().bits(), GLOBAL);
    assert_eq!(EntryFlags::no_execute().bits(), NO_EXECUTE);
}

#[test]
fn from_bits_truncate_drops_what_is_no_flag() {
    assert_eq!(EntryFlags::from_bits_truncate(u64::MAX).bits(), ALL_FLAGS);
    assert_eq!(EntryFlags::from_bits_truncate(0x1003).bits(), 0x3);
    assert_eq!(EntryFlags::from_bits_truncate(ADDRESS_MASK).bits(), 0);
}

#[test]
fn union_and_contains() {
    let flags = EntryFlags::present().union(EntryFlags::writable());
    assert_eq!(flags.bits(), 3);
    assert!(flags.contains(EntryFlags::present()));
    assert!(flags.contains(EntryFlags::writable()));
    assert!(flags.contains(EntryFlags::empty()));
    assert!(!flags.contains(EntryFlags::no_execute()));
    assert!(!EntryFlags::present().contains(flags));
}

fn section(flags: u64) -> ElfSection {
    ElfSection { addr: 0x100000, size: 0x1000, flags }
}

#[test]
fn elf_section_flags_become_page_flags() {
    let text = section(ELF_SECTION_ALLOCATED | ELF_SECTION_EXECUTABLE);
    assert_eq!(EntryFlags::from_elf_section_flags(&text).bits(), PRESENT);
    let rodata = section(ELF_SECTION_ALLOCATED);
    assert_eq!(EntryFlags::from_elf_section_flags(&rodata).bits(), PRESENT | NO_EXECUTE);
    let data = section(ELF_SECTION_ALLOCATED | ELF_SECTION_WRITABLE);
    assert_eq!(
        EntryFlags::from_elf_section_flags(&data).bits(),
        PRESENT | WRITABLE | NO_EXECUTE
    );
    let all = section(ELF_SECTION_ALLOCATED | ELF_SECTION_WRITABLE | ELF_SECTION_EXECUTABLE);
    assert_eq!(EntryFlags::from_elf_section_flags(&all).bits(), PRESENT | WRITABLE);
    let unloaded = section(0);
    assert_eq!(EntryFlags::from_elf_section_flags(&unloaded).bits(), NO_EXECUTE);
    let unloaded_code = section(ELF_SECTION_EXECUTABLE);
    assert_eq!(EntryFlags::from_elf_section_flags(&unloaded_code).bits(), 0);
    // Bits that are no section flag change nothing.
    let noisy = section(0xf0 | ELF_SECTION_ALLOCATED);
    assert_eq!(EntryFlags::from_elf_section_flags(&noisy).bits(), PRESENT | NO_EXECUTE);
}

#[test]
fn elf_section_accessors() {
    let s = ElfSection { addr: 0x100000, size: 0x2345, flags: ELF_SECTION_ALLOCATED };
    assert!(s.is_allocated());
    assert_eq!(s.start_address(), 0x100000);
    assert_eq!(s.end_address(), 0x102345);
    assert!(!section(ELF_SECTION_WRITABLE).is_allocated());
}

#[test]
fn fresh_entry_is_unused() {
    let entry = Entry(0);
    assert!(entry.is_unused());
    assert_eq!(entry.flags().bits(), 0);
    assert_eq!(entry.pointed_frame(), None);
}

#[test]
fn set_packs_frame_and_flags() {
    let mut entry = Entry(0);
    let flags = EntryFlags::present().union(EntryFlags::writable());
    entry.set(Frame { number: 0xb8 }, flags);
    assert_eq!(entry.0, 0xb8003);
    assert!(!entry.is_unused());
    assert_eq!(entry.flags().bits(), 3);
    assert_eq!(entry.pointed_frame(), Some(Frame { number: 0xb8 }));
}

#[test]
fn set_keeps_the_highest_flag_and_the_highest_frame() {
    let mut entry = Entry(0);
    let flags = EntryFlags::present().union(EntryFlags::no_execute());
    let frame = Frame { number: FRAME_NUMBER_LIMIT - 1 };
    entry.set(frame, flags);
    assert_eq!(entry.0, 0x800f_ffff_ffff_f001);
    assert_eq!(entry.pointed_frame(), Some(frame));
    assert_eq!(entry.flags().bits(), PRESENT | NO_EXECUTE);
}

#[test]
fn set_overwrites_what_was_there() {
    let mut entry = Entry(u64::MAX);
    entry.set(Frame { number: 1 }, EntryFlags::present());
    assert_eq!(entry.0, 0x1001);
}

#[test]
fn set_rejects_a_frame_beyond_the_address_bits() {
    let mut entry = Entry(0x5003);
    let result = entry.try_set(Frame { number: FRAME_NUMBER_LIMIT }, EntryFlags::present());
    assert_eq!(result, Err(MemoryError::MisalignedFrame));
    assert_eq!(entry.0, 0x5003);
    let result = entry.try_set(Frame { number: u64::MAX }, EntryFlags::present());
    assert_eq!(result, Err(MemoryError::MisalignedFrame));
    assert_eq!(entry.0, 0x5003);
}

#[test]
fn pointed_frame_needs_the_present_flag() {
    assert_eq!(Entry(0x5002).pointed_frame(), None);
    assert_eq!(Entry(0x5001).pointed_frame(), Some(Frame { number: 5 }));
    // Flag bits and the bits above the address do not leak into the frame.
    assert_eq!(Entry(0xfff0_0000_0000_5fff).pointed_frame(), Some(Frame { number: 5 }));
}

#[test]
fn set_unused_clears_everything() {
    let mut entry = Entry(0xb8003);
    entry.set_unused();
    assert!(entry.is_unused());
    assert_eq!(entry.0, 0);
}

#[test]
fn section_flag_constants_are_those_of_the_boot_protocol() {
    assert_eq!(multiboot2::ElfSectionFlags::WRITABLE.bits(), ELF_SECTION_WRITABLE);
    assert_eq!(multiboot2::ElfSectionFlags::ALLOCATED.bits(), ELF_SECTION_ALLOCATED);
    assert_eq!(multiboot2::ElfSectionFlags::EXECUTABLE.bits(), ELF_SECTION_EXECUTABLE);
}

#[test]
fn has_flag_asks_for_every_bit() {
    let both = section(ELF_SECTION_ALLOCATED | ELF_SECTION_WRITABLE);
    assert!(both.has_flag(ELF_SECTION_ALLOCATED));
    assert!(both.has_flag(ELF_SECTION_WRITABLE));
    assert!(both.has_flag(ELF_SECTION_ALLOCATED | ELF_SECTION_WRITABLE));
    assert!(both.has_flag(0));
    assert!(!both.has_flag(ELF_SECTION_EXECUTABLE));
    assert!(!both.has_flag(ELF_SECTION_ALLOCATED | ELF_SECTION_EXECUTABLE));
    // Bits that are no named flag count like the others.
    assert!(section(0xf000_0000_0000_0002).has_flag(0x8000_0000_0000_0002));
    assert!(!section(0x2).has_flag(0x8000_0000_0000_0002));
}

#[test]
fn try_set_agrees_with_set_on_a_frame_that_fits() {
    let mut checked = Entry(0x77);
    let mut plain = Entry(0x77);
    let flags = EntryFlags::present().union(EntryFlags::writable());
    assert_eq!(checked.try_set(Frame { number: 0x1234 }, flags), Ok(()));
    plain.set(Frame { number: 0x1234 }, flags);
    assert_eq!(checked.0, 0x1234003);
    assert_eq!(plain.0, checked.0);
}
