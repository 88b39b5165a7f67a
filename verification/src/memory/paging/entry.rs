//! One 64-bit slot of a page table: a frame number packed with flags.
use vstd::prelude::*;
use crate::memory::boot_info::{
    ElfSection, ELF_SECTION_ALLOCATED, ELF_SECTION_EXECUTABLE, ELF_SECTION_WRITABLE,
};
use crate::memory::{Frame, MemoryError, PAGE_SIZE};

verus! {

/// The page is in memory.
pub const PRESENT: u64 = 0x1;

/// The page may be written.
pub const WRITABLE: u64 = 0x2;

/// The page may be reached from user mode.
pub const USER_ACCESSIBLE: u64 = 0x4;

/// Writes go straight to memory.
pub const WRITE_THROUGH: u64 = 0x8;

/// The page is not cached.
pub const NO_CACHE: u64 = 0x10;

/// The processor sets this when the page is used.
pub const ACCESSED: u64 = 0x20;

/// The processor sets this when the page is written.
pub const DIRTY: u64 = 0x40;

/// The entry maps a huge page instead of naming a table.
pub const HUGE_PAGE: u64 = 0x80;

/// The translation survives a switch of address space.
pub const GLOBAL: u64 = 0x100;

/// No instruction may be fetched from the page.
pub const NO_EXECUTE: u64 = 0x8000_0000_0000_0000;

/// Every bit that is a flag.
pub const ALL_FLAGS: u64 = 0x8000_0000_0000_01ff;

/// Bits 12 to 51 of an entry: the physical address of the frame.
pub const ADDRESS_MASK: u64 = 0x000f_ffff_ffff_f000;

/// Frame numbers below this bound fit the address bits of an entry.
pub const FRAME_NUMBER_LIMIT: u64 = 0x100_0000_0000;

/// A set of entry flags. It never holds a bit that is not a flag.
#[derive(Debug, Clone, Copy)]
pub struct EntryFlags {
    bits: u64,
}

impl View for EntryFlags {
    type V = u64;

    closed spec fn view(&self) -> u64 {
        self.bits
    }
}

/// The value of an entry that names frame `number` with flag bits `flags`.
pub open spec fn entry_value(number: u64, flags: u64) -> u64 {
    ((number * 4096) as u64) | flags
}

/// Unions and truncations keep a flag set within the flag bits.
proof fn lemma_flag_bits(a: u64, b: u64)
    by (bit_vector)
    ensures
        (a & 0x8000_0000_0000_01ff) & !0x8000_0000_0000_01ffu64 == 0,
        a & !0x8000_0000_0000_01ffu64 == 0 && b & !0x8000_0000_0000_01ffu64 == 0 ==> (a | b)
            & !0x8000_0000_0000_01ffu64 == 0,
        a & !0x8000_0000_0000_01ffu64 == 0 ==> a & 0x8000_0000_0000_01ff == a,
        (a & 0x8000_0000_0000_01ff) & 0x1 == a & 0x1,
        (a & 0x8000_0000_0000_01ff) & 0x80 == a & 0x80,
{
}

/// What an entry built from a frame number and flags decodes to.
pub proof fn lemma_entry_value(number: u64, flags: u64)
    by (bit_vector)
    requires
        number < 0x100_0000_0000,
        flags & !0x8000_0000_0000_01ffu64 == 0,
    ensures
        ((((number * 4096) as u64) | flags) & 0x000f_ffff_ffff_f000) / 4096 == number,
        (((number * 4096) as u64) | flags) & 0x8000_0000_0000_01ff == flags,
        (((number * 4096) as u64) | flags) & 0x1 == flags & 0x1,
        (((number * 4096) as u64) | flags) & 0x80 == flags & 0x80,
{
}

/// An entry built with `PRESENT | WRITABLE` links to the frame it names.
pub proof fn lemma_link_entry(number: u64)
    by (bit_vector)
    requires
        number < 0x100_0000_0000,
    ensures
        ((((number * 4096) as u64) | (0x1u64 | 0x2u64)) & 0x000f_ffff_ffff_f000) / 4096 == number,
        (((number * 4096) as u64) | (0x1u64 | 0x2u64)) & 0x1 != 0,
        (((number * 4096) as u64) | (0x1u64 | 0x2u64)) & 0x80 == 0,
        0x2u64 | 0x1u64 == 0x1u64 | 0x2u64,
{
}

/// An entry built with `PRESENT | WRITABLE | HUGE_PAGE` is a present huge
/// page of the frame it names.
pub proof fn lemma_huge_entry(number: u64)
    by (bit_vector)
    requires
        number < 0x100_0000_0000,
    ensures
        ((((number * 4096) as u64) | ((0x1u64 | 0x2u64) | 0x80u64)) & 0x000f_ffff_ffff_f000) / 4096
            == number,
        (((number * 4096) as u64) | ((0x1u64 | 0x2u64) | 0x80u64)) & 0x1 != 0,
        (((number * 4096) as u64) | ((0x1u64 | 0x2u64) | 0x80u64)) & 0x80 != 0,
{
}

/// An entry with the `PRESENT` flag added is present and keeps its frame.
pub proof fn lemma_present_entry(number: u64, flags: u64)
    by (bit_vector)
    requires
        number < 0x100_0000_0000,
        flags & !0x8000_0000_0000_01ffu64 == 0,
    ensures
        ((((number * 4096) as u64) | (flags | 0x1u64)) & 0x000f_ffff_ffff_f000) / 4096 == number,
        (((number * 4096) as u64) | (flags | 0x1u64)) & 0x1 != 0,
        (((number * 4096) as u64) | (flags | 0x1u64)) != 0,
        (((number * 4096) as u64) | (flags | 0x1u64)) & 0x8000_0000_0000_01ff == flags | 0x1,
{
}

/// The frame number that an entry holds is below the limit.
pub proof fn lemma_frame_number_bound(value: u64)
    by (bit_vector)
    ensures
        (value & 0x000f_ffff_ffff_f000) / 4096 < 0x100_0000_0000,
{
}

/// Each named flag is a flag bit.
proof fn lemma_flag_constants()
    by (bit_vector)
    ensures
        0x1u64 & !0x8000_0000_0000_01ffu64 == 0,
        0x2u64 & !0x8000_0000_0000_01ffu64 == 0,
        0x4u64 & !0x8000_0000_0000_01ffu64 == 0,
        0x8u64 & !0x8000_0000_0000_01ffu64 == 0,
        0x10u64 & !0x8000_0000_0000_01ffu64 == 0,
        0x20u64 & !0x8000_0000_0000_01ffu64 == 0,
        0x40u64 & !0x8000_0000_0000_01ffu64 == 0,
        0x80u64 & !0x8000_0000_0000_01ffu64 == 0,
        0x100u64 & !0x8000_0000_0000_01ffu64 == 0,
        0x8000_0000_0000_0000u64 & !0x8000_0000_0000_01ffu64 == 0,
{
}

impl EntryFlags {
    #[verifier::type_invariant]
    spec fn only_flag_bits(self) -> bool {
        self.bits & !ALL_FLAGS == 0
    }

    /// The set that holds `PRESENT` alone.
    pub fn present() -> (flags: EntryFlags)
        ensures
            flags@ == PRESENT,
    {
        proof {
            lemma_flag_constants();
        }
        EntryFlags { bits: PRESENT }
    }

    /// The set that holds `WRITABLE` alone.
    pub fn writable() -> (flags: EntryFlags)
        ensures
            flags@ == WRITABLE,
    {
        proof {
            lemma_flag_constants();
        }
        EntryFlags { bits: WRITABLE }
    }

    /// The set that holds `USER_ACCESSIBLE` alone.
    pub fn user_accessible() -> (flags: EntryFlags)
        ensures
            flags@ == USER_ACCESSIBLE,
    {
        proof {
            lemma_flag_constants();
        }
        EntryFlags { bits: USER_ACCESSIBLE }
    }

    /// The set that holds `WRITE_THROUGH` alone.
    pub fn write_through() -> (flags: EntryFlags)
        ensures
            flags@ == WRITE_THROUGH,
    {
        proof {
            lemma_flag_constants();
        }
        EntryFlags { bits: WRITE_THROUGH }
    }

    /// The set that holds `NO_CACHE` alone.
    pub fn no_cache() -> (flags: EntryFlags)
        ensures
            flags@ == NO_CACHE,
    {
        proof {
            lemma_flag_constants();
        }
        EntryFlags { bits: NO_CACHE }
    }

    /// The set that holds `ACCESSED` alone.
    pub fn accessed() -> (flags: EntryFlags)
        ensures
            flags@ == ACCESSED,
    {
        proof {
            lemma_flag_constants();
        }
        EntryFlags { bits: ACCESSED }
    }

    /// The set that holds `DIRTY` alone.
    pub fn dirty() -> (flags: EntryFlags)
        ensures
            flags@ == DIRTY,
    {
        proof {
            lemma_flag_constants();
        }
        EntryFlags { bits: DIRTY }
    }

    /// The set that holds `HUGE_PAGE` alone.
    pub fn huge_page() -> (flags: EntryFlags)
        ensures
            flags@ == HUGE_PAGE,
    {
        proof {
            lemma_flag_constants();
        }
        EntryFlags { bits: HUGE_PAGE }
    }

    /// The set that holds `GLOBAL` alone.
    pub fn global() -> (flags: EntryFlags)
        ensures
            flags@ == GLOBAL,
    {
        proof {
            lemma_flag_constants();
        }
        EntryFlags { bits: GLOBAL }
    }

    /// The set that holds `NO_EXECUTE` alone.
    pub fn no_execute() -> (flags: EntryFlags)
        ensures
            flags@ == NO_EXECUTE,
    {
        proof {
            lemma_flag_constants();
        }
        EntryFlags { bits: NO_EXECUTE }
    }

    /// The flag set holds every bit of `mask`.
    pub open spec fn has(&self, mask: u64) -> bool {
        self@ & mask == mask
    }

    /// The empty set.
    pub fn empty() -> (flags: EntryFlags)
        ensures
            flags@ == 0,
    {
        assert(0u64 & !0x8000_0000_0000_01ffu64 == 0) by (bit_vector);
        EntryFlags { bits: 0 }
    }

    /// The flags among `bits`; bits that are no flag are dropped.
    pub fn from_bits_truncate(bits: u64) -> (flags: EntryFlags)
        ensures
            flags@ == bits & ALL_FLAGS,
    {
        proof {
            lemma_flag_bits(bits, 0);
        }
        EntryFlags { bits: bits & ALL_FLAGS }
    }

    /// The set as a bit pattern.
    pub fn bits(&self) -> (bits: u64)
        ensures
            bits == self@,
            bits & !ALL_FLAGS == 0,
    {
        proof {
            use_type_invariant(self);
        }
        self.bits
    }

    /// Whether every flag of `other` is in the set.
    pub fn contains(&self, other: EntryFlags) -> (contained: bool)
        ensures
            contained == self.has(other@),
    {
        self.bits & other.bits == other.bits
    }

    /// The flags of both sets.
    pub fn union(self, other: EntryFlags) -> (flags: EntryFlags)
        ensures
            flags@ == self@ | other@,
    {
        proof {
            use_type_invariant(self);
            use_type_invariant(other);
            lemma_flag_bits(self.bits, other.bits);
        }
        EntryFlags { bits: self.bits | other.bits }
    }

    /// The flag bits that a section of the kernel image asks for.
    pub open spec fn elf_section_bits(section_flags: u64) -> u64 {
        (if section_flags & ELF_SECTION_ALLOCATED == ELF_SECTION_ALLOCATED {
            PRESENT
        } else {
            0u64
        }) | (if section_flags & ELF_SECTION_WRITABLE == ELF_SECTION_WRITABLE {
            WRITABLE
        } else {
            0u64
        }) | (if section_flags & ELF_SECTION_EXECUTABLE != ELF_SECTION_EXECUTABLE {
            NO_EXECUTE
        } else {
            0u64
        })
    }

    /// The page flags for a section of the kernel image: present if the
    /// section is loaded, writable if the section is, and closed to
    /// instruction fetches unless the section is executable.
    pub fn from_elf_section_flags(section: &ElfSection) -> (flags: EntryFlags)
        ensures
            flags@ == Self::elf_section_bits(section.flags),
    {
        let mut flags = EntryFlags::empty();
        if section.has_flag(ELF_SECTION_ALLOCATED) {
            // section is loaded to memory
            flags = flags.union(EntryFlags::present());
        }
        if section.has_flag(ELF_SECTION_WRITABLE) {
            flags = flags.union(EntryFlags::writable());
        }
        if !section.has_flag(ELF_SECTION_EXECUTABLE) {
            flags = flags.union(EntryFlags::no_execute());
        }
        proof {
            assert(0u64 | 0x1 == 0x1 && 0u64 | 0u64 == 0 && 0u64 | 0x2 == 0x2 && 0x1u64 | 0u64
                == 0x1 && 0u64 | 0x8000_0000_0000_0000 == 0x8000_0000_0000_0000 && 0x1u64 | 0x2
                == 0x3 && 0x2u64 | 0u64 == 0x2 && 0x3u64 | 0u64 == 0x3 && 0x1u64
                | 0x8000_0000_0000_0000 == 0x8000_0000_0000_0001 && 0x2u64 | 0x8000_0000_0000_0000
                == 0x8000_0000_0000_0002 && 0x3u64 | 0x8000_0000_0000_0000
                == 0x8000_0000_0000_0003) by (bit_vector);
        }
        flags
    }
}

/// One slot of a page table.
#[derive(Debug, Clone, Copy, PartialEq, Eq, Structural)]
pub struct Entry(pub u64);

impl Entry {
    /// The entry is in use as a mapping or as a link to a table.
    pub open spec fn present(&self) -> bool {
        self.0 & PRESENT != 0
    }

    /// The entry maps a huge page.
    pub open spec fn huge(&self) -> bool {
        self.0 & HUGE_PAGE != 0
    }

    /// The entry names a table of the next level.
    pub open spec fn links(&self) -> bool {
        self.present() && !self.huge()
    }

    /// The frame number in the address bits.
    pub open spec fn frame_number(&self) -> u64 {
        (self.0 & ADDRESS_MASK) / 4096
    }

    /// The flag bits.
    pub open spec fn flag_bits(&self) -> u64 {
        self.0 & ALL_FLAGS
    }

    /// Whether the entry is all zero.
    pub fn is_unused(&self) -> (unused: bool)
        ensures
            unused == (self.0 == 0),
    {
        self.0 == 0
    }

    /// Clears the entry.
    pub fn set_unused(&mut self)
        ensures
            final(self).0 == 0,
    {
        self.0 = 0;
    }

    /// The flags of the entry.
    pub fn flags(&self) -> (flags: EntryFlags)
        ensures
            flags@ == self.flag_bits(),
            flags.has(PRESENT) == self.present(),
            flags.has(HUGE_PAGE) == self.huge(),
    {
        proof {
            lemma_flag_bits(self.0, 0);
            let v = self.0;
            assert((v & 0x1 == 0x1) == (v & 0x1 != 0) && (v & 0x80 == 0x80) == (v & 0x80 != 0))
                by (bit_vector);
        }
        EntryFlags::from_bits_truncate(self.0)
    }

    /// The frame that the entry names, if the entry is present.
    pub fn pointed_frame(&self) -> (frame: Option<Frame>)
        ensures
            frame == if self.present() {
                Some(Frame { number: self.frame_number() })
            } else {
                None::<Frame>
            },
            frame matches Some(f) ==> f.number < FRAME_NUMBER_LIMIT,
    {
        proof {
            lemma_frame_number_bound(self.0);
        }
        if self.flags().contains(EntryFlags::present()) {
            Some(Frame::containing_address(self.0 & ADDRESS_MASK))
        } else {
            None
        }
    }

    /// Points the entry at `frame` with `flags`. The number of the frame
    /// must fit the address bits of an entry.
    pub fn set(&mut self, frame: Frame, flags: EntryFlags)
        requires
            frame.number < FRAME_NUMBER_LIMIT,
        ensures
            final(self).0 == entry_value(frame.number, flags@),
            final(self).frame_number() == frame.number,
            final(self).flag_bits() == flags@,
    {
        let bits = flags.bits();
        proof {
            lemma_entry_value(frame.number, bits);
        }
        self.0 = frame.start_address() | bits;
    }

    /// Like [`Entry::set`], for any frame: fails with `MisalignedFrame`,
    /// and leaves the entry as it is, where the number of the frame does
    /// not fit in an entry.
    pub fn try_set(&mut self, frame: Frame, flags: EntryFlags) -> (result: Result<(), MemoryError>)
        ensures
            match result {
                Ok(()) => {
                    &&& frame.number < FRAME_NUMBER_LIMIT
                    &&& final(self).0 == entry_value(frame.number, flags@)
                    &&& final(self).frame_number() == frame.number
                    &&& final(self).flag_bits() == flags@
                },
                Err(e) => {
                    &&& e == MemoryError::MisalignedFrame
                    &&& frame.number >= FRAME_NUMBER_LIMIT
                    &&& *final(self) == *old(self)
                },
            },
    {
        if frame.number >= FRAME_NUMBER_LIMIT {
            return Err(MemoryError::MisalignedFrame);
        }
        self.set(frame, flags);
        Ok(())
    }
}

} // verus!
