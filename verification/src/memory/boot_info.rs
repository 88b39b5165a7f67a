//! What the boot loader reports: the usable memory areas, the sections of
//! the kernel image and the place of the boot information itself.
use vstd::prelude::*;

verus! {

/// Section flag: the section is writable at run time.
pub const ELF_SECTION_WRITABLE: u64 = 0x1;

/// Section flag: the section occupies memory at run time.
pub const ELF_SECTION_ALLOCATED: u64 = 0x2;

/// Section flag: the section holds executable instructions.
pub const ELF_SECTION_EXECUTABLE: u64 = 0x4;

/// Whether every bit of `flag` is set in the section flags `bits`.
///
/// This is `contains` of `multiboot2::ElfSectionFlags`, on flag sets that
/// `from_bits_retain` makes of the two bit patterns as they are. The
/// contract takes from that crate that `contains` holds exactly when
/// `bits & flag == flag`.
#[verifier::external_body]
pub(crate) fn section_flags_contain(bits: u64, flag: u64) -> (contained: bool)
    ensures
        contained == (bits & flag == flag),
{
    let flags = multiboot2::ElfSectionFlags::from_bits_retain(bits);
    flags.contains(multiboot2::ElfSectionFlags::from_bits_retain(flag))
}

/// A range of usable physical memory.
#[derive(Debug, Clone, Copy, PartialEq, Eq, Structural)]
pub struct MemoryArea {
    pub base_addr: u64,
    pub length: u64,
}

impl MemoryArea {
    /// The area is not empty and ends within the address space.
    pub open spec fn wf(&self) -> bool {
        self.length >= 1 && self.base_addr + self.length - 1 <= u64::MAX
    }

    /// Number of the first frame that the area touches.
    pub open spec fn first_frame(&self) -> u64 {
        self.base_addr / 4096
    }

    /// Number of the last frame that the area touches.
    pub open spec fn last_frame(&self) -> u64 {
        ((self.base_addr + self.length - 1) / 4096) as u64
    }

    /// An area of `length` bytes from `base_addr` on, or `None` where the
    /// area would be empty or would pass the end of the address space.
    pub fn new(base_addr: u64, length: u64) -> (area: Option<MemoryArea>)
        ensures
            area == if length >= 1 && base_addr + length - 1 <= u64::MAX {
                Some(MemoryArea { base_addr, length })
            } else {
                None::<MemoryArea>
            },
            area matches Some(a) ==> a.wf(),
    {
        if length >= 1 && base_addr <= u64::MAX - (length - 1) {
            Some(MemoryArea { base_addr, length })
        } else {
            None
        }
    }
}

/// One section of the kernel image.
#[derive(Debug, Clone, Copy, PartialEq, Eq, Structural)]
pub struct ElfSection {
    pub addr: u64,
    pub size: u64,
    pub flags: u64,
}

impl ElfSection {
    /// The section ends within the address space.
    pub open spec fn wf(&self) -> bool {
        self.addr + self.size <= u64::MAX
    }

    pub open spec fn spec_is_allocated(&self) -> bool {
        self.flags & ELF_SECTION_ALLOCATED == ELF_SECTION_ALLOCATED
    }

    /// Whether the section occupies memory at run time.
    #[verifier::when_used_as_spec(spec_is_allocated)]
    pub fn is_allocated(&self) -> (allocated: bool)
        ensures
            allocated == self.spec_is_allocated(),
    {
        section_flags_contain(self.flags, ELF_SECTION_ALLOCATED)
    }

    /// Whether the section has every flag of `flag`.
    pub fn has_flag(&self, flag: u64) -> (contained: bool)
        ensures
            contained == (self.flags & flag == flag),
    {
        section_flags_contain(self.flags, flag)
    }

    /// The first address of the section.
    pub fn start_address(&self) -> (address: u64)
        ensures
            address == self.addr,
    {
        self.addr
    }

    /// The address just past the section.
    pub fn end_address(&self) -> (address: u64)
        requires
            self.wf(),
        ensures
            address == self.addr + self.size,
    {
        self.addr + self.size
    }
}

/// The boot information: where it lies, and what it says of memory and of
/// the kernel image.
pub struct BootInformation {
    pub start_address: u64,
    pub end_address: u64,
    pub memory_areas: Vec<MemoryArea>,
    pub elf_sections: Vec<ElfSection>,
}

impl BootInformation {
    /// Every area and section is well formed, and the structure itself is
    /// not empty.
    pub open spec fn wf(&self) -> bool {
        &&& self.start_address < self.end_address
        &&& forall|i: int| 0 <= i < self.memory_areas@.len() ==> (#[trigger] self.memory_areas@[i]).wf()
        &&& forall|i: int| 0 <= i < self.elf_sections@.len() ==> (#[trigger] self.elf_sections@[i]).wf()
    }
}

} // verus!
