//! Frames, the frame-allocator interface and the errors of the subsystem.
use vstd::prelude::*;
use crate::memory::area_frame_allocator::AreaFrameAllocator;
use crate::memory::boot_info::{BootInformation, MemoryArea};
use crate::memory::paging::entry::{
    entry_value, Entry, EntryFlags, FRAME_NUMBER_LIMIT, PRESENT, WRITABLE,
};
use crate::memory::paging::mapper::{
    at_most, Mapper, lemma_at_most_one_more, lemma_at_most_steps, lemma_fewer_at_most, lemma_fewer_rises,
};
use crate::memory::paging::{
    in_section, lemma_slot_number, range_frames, try_remap_the_kernel, ActivePageTable, Page,
    RECURSIVE_FIRST_PAGE, SCRATCH_PAGE, VGA_BUFFER,
};
use crate::{HEAP_SIZE, HEAP_START};

pub mod area_frame_allocator;
pub mod boot_info;
pub mod heap_allocator;
pub mod machine;
pub mod paging;

verus! {

/// Size of a physical frame and of a virtual page, in bytes.
pub const PAGE_SIZE: u64 = 4096;

/// Largest frame number whose start address fits in 64 bits.
pub const MAX_FRAME_NUMBER: u64 = 0x000f_ffff_ffff_ffff;

/// A physical address.
pub type PhysicalAddress = u64;

/// The anomalies of the subsystem. All but `HeapExhausted` are fatal to a
/// kernel: no caller is expected to recover from them.
#[derive(Debug, Clone, Copy, PartialEq, Eq, Structural)]
pub enum MemoryError {
    /// The frame allocator has no frame left.
    FramesExhausted,
    /// The page is already mapped.
    DoubleMapping,
    /// The page to unmap is not mapped.
    UnmappedUnmap,
    /// A huge-page entry stands where a table or a 4 KiB mapping is needed.
    UnsupportedHugePage,
    /// A frame's address does not fit an entry, or a huge page's frame is
    /// not aligned to its size.
    MisalignedFrame,
    /// The bootstrap pool already holds three frames.
    BootstrapPoolExhausted,
    /// The heap cannot serve a request of this size and alignment.
    HeapExhausted { size: u64, align: u64 },
}

/// A 4 KiB unit of physical memory, identified by its index.
#[derive(Debug, Clone, Copy, PartialEq, Eq, PartialOrd, Ord, Structural)]
pub struct Frame {
    pub number: u64,
}

impl Frame {
    /// The frame that holds the physical address.
    pub fn containing_address(address: PhysicalAddress) -> (frame: Frame)
        ensures
            frame.number == address / PAGE_SIZE,
            frame.number <= MAX_FRAME_NUMBER,
    {
        Frame { number: address / PAGE_SIZE }
    }

    /// The first physical address of the frame.
    pub fn start_address(&self) -> (address: PhysicalAddress)
        requires
            self.number <= MAX_FRAME_NUMBER,
        ensures
            address == self.number * PAGE_SIZE,
    {
        self.number * PAGE_SIZE
    }

    /// The frames from `start` to `end`, both included, in rising order.
    pub fn range_inclusive(start: Frame, end: Frame) -> (iter: FrameIter)
        ensures
            iter.start == start,
            iter.end == end,
    {
        FrameIter { start, end }
    }
}

/// A walk over a range of frames: `start` is the next frame to hand out and
/// `end` the last one.
pub struct FrameIter {
    pub start: Frame,
    pub end: Frame,
}

impl FrameIter {
    /// The frame numbers still to come.
    pub open spec fn remaining(&self) -> Seq<u64> {
        if self.start.number <= self.end.number {
            Seq::new(
                (self.end.number - self.start.number + 1) as nat,
                |i: int| (self.start.number + i) as u64,
            )
        } else {
            Seq::empty()
        }
    }

    /// Hands out the next frame of the range, or `None` once the range is
    /// used up.
    pub fn next(&mut self) -> (frame: Option<Frame>)
        requires
            old(self).end.number < u64::MAX,
        ensures
            final(self).end == old(self).end,
            match frame {
                Some(f) => {
                    &&& old(self).start.number <= old(self).end.number
                    &&& f == old(self).start
                    &&& final(self).start.number == old(self).start.number + 1
                    &&& old(self).remaining() =~= seq![f.number] + final(self).remaining()
                },
                None => {
                    &&& old(self).start.number > old(self).end.number
                    &&& final(self).start == old(self).start
                    &&& old(self).remaining() =~= Seq::<u64>::empty()
                },
            },
    {
        if self.start.number <= self.end.number {
            let frame = self.start;
            self.start.number += 1;
            Some(frame)
        } else {
            None
        }
    }
}

/// A source of unused physical frames.
///
/// `available` is the set of frame numbers that the allocator may still hand
/// out. Each frame is handed out at most once, and exhaustion shows as
/// `None` exactly when nothing is left.
pub trait FrameAllocator {
    /// Validity of the allocator's state.
    spec fn wf(&self) -> bool;

    /// The numbers of the frames that can still be handed out.
    spec fn available(&self) -> Set<u64>;

    /// Hands out an unused frame, or `None` when none is left.
    fn allocate_frame(&mut self) -> (frame: Option<Frame>)
        requires
            old(self).wf(),
        ensures
            final(self).wf(),
            frame is None <==> old(self).available() =~= Set::<u64>::empty(),
            frame is None ==> final(self).available() == old(self).available(),
            frame matches Some(f) ==> {
                &&& old(self).available().contains(f.number)
                &&& final(self).available() == old(self).available().remove(f.number)
                &&& old(self).upcoming() == Some(f.number)
            },
            frame is None ==> old(self).upcoming() is None,
    ;

    /// The number of the frame that the next call of `allocate_frame`
    /// hands out, `None` where it hands out none.
    spec fn upcoming(&self) -> Option<u64>;

    /// The allocator can take a frame back.
    spec fn has_room(&self) -> bool;

    /// Takes a frame back. The allocator stays sound where it was sound and
    /// the frame is not one that it still holds.
    fn deallocate_frame(&mut self, frame: Frame)
        requires
            old(self).has_room(),
        ensures
            old(self).available().subset_of(final(self).available()),
            final(self).available().subset_of(old(self).available().insert(frame.number)),
            old(self).wf() && !old(self).available().contains(frame.number) ==> final(self).wf(),
    ;
}

/// The most frames that [`init`] can take: what the remapping can take, and
/// a frame and three tables for each page of the heap.
pub open spec fn init_budget(boot_info: &BootInformation) -> nat {
    boot_info.remap_budget() + 4 * range_frames(
        (HEAP_START / 4096) as u64,
        ((HEAP_START + HEAP_SIZE - 1) / 4096) as u64,
    )
}

/// The page is one of the pages of the kernel heap.
pub open spec fn heap_page(p: u64) -> bool {
    HEAP_START / 4096 <= p <= (HEAP_START + HEAP_SIZE - 1) / 4096
}

/// The lowest address of a section that occupies memory, and the highest
/// address just past one: the extent of the kernel image.
fn kernel_extent(boot_info: &BootInformation) -> (extent: (u64, u64))
    requires
        boot_info.mappable(),
        exists|i: int|
            0 <= i < boot_info.elf_sections@.len() && (
            #[trigger] boot_info.elf_sections@[i]).spec_is_allocated(),
    ensures
        forall|i: int|
            0 <= i < boot_info.elf_sections@.len() && (
            #[trigger] boot_info.elf_sections@[i]).spec_is_allocated() ==> extent.0
                <= boot_info.elf_sections@[i].addr && boot_info.elf_sections@[i].addr
                + boot_info.elf_sections@[i].size <= extent.1,
        exists|i: int|
            0 <= i < boot_info.elf_sections@.len() && (
            #[trigger] boot_info.elf_sections@[i]).spec_is_allocated() && extent.0
                == boot_info.elf_sections@[i].addr,
        exists|i: int|
            0 <= i < boot_info.elf_sections@.len() && (
            #[trigger] boot_info.elf_sections@[i]).spec_is_allocated() && extent.1
                == boot_info.elf_sections@[i].addr + boot_info.elf_sections@[i].size,
{
    let mut start: u64 = 0;
    let mut end: u64 = 0;
    let mut found = false;
    let mut index: usize = 0;
    while index < boot_info.elf_sections.len()
        invariant
            0 <= index <= boot_info.elf_sections@.len(),
            boot_info.mappable(),
            !found ==> forall|i: int|
                0 <= i < index ==> !(#[trigger] boot_info.elf_sections@[i]).spec_is_allocated(),
            found ==> {
                &&& forall|i: int|
                    0 <= i < index && (
                    #[trigger] boot_info.elf_sections@[i]).spec_is_allocated() ==> start
                        <= boot_info.elf_sections@[i].addr && boot_info.elf_sections@[i].addr
                        + boot_info.elf_sections@[i].size <= end
                &&& exists|i: int|
                    0 <= i < index && (
                    #[trigger] boot_info.elf_sections@[i]).spec_is_allocated() && start
                        == boot_info.elf_sections@[i].addr
                &&& exists|i: int|
                    0 <= i < index && (
                    #[trigger] boot_info.elf_sections@[i]).spec_is_allocated() && end
                        == boot_info.elf_sections@[i].addr + boot_info.elf_sections@[i].size
            },
        decreases boot_info.elf_sections@.len() - index,
    {
        let section = boot_info.elf_sections[index];
        if section.is_allocated() {
            let section_end = section.addr + section.size;
            if !found {
                start = section.addr;
                end = section_end;
                found = true;
            } else {
                let ghost low = choose|i: int|
                    0 <= i < index && (
                    #[trigger] boot_info.elf_sections@[i]).spec_is_allocated() && start
                        == boot_info.elf_sections@[i].addr;
                let ghost high = choose|i: int|
                    0 <= i < index && (
                    #[trigger] boot_info.elf_sections@[i]).spec_is_allocated() && end
                        == boot_info.elf_sections@[i].addr + boot_info.elf_sections@[i].size;
                if section.addr < start {
                    start = section.addr;
                } else {
                    assert(boot_info.elf_sections@[low].spec_is_allocated());
                }
                if section_end > end {
                    end = section_end;
                } else {
                    assert(boot_info.elf_sections@[high].spec_is_allocated());
                }
            }
            assert(boot_info.elf_sections@[index as int].spec_is_allocated());
        } else if found {
            let ghost low = choose|i: int|
                0 <= i < index && (
                #[trigger] boot_info.elf_sections@[i]).spec_is_allocated() && start
                    == boot_info.elf_sections@[i].addr;
            let ghost high = choose|i: int|
                0 <= i < index && (
                #[trigger] boot_info.elf_sections@[i]).spec_is_allocated() && end
                    == boot_info.elf_sections@[i].addr + boot_info.elf_sections@[i].size;
            assert(boot_info.elf_sections@[low].spec_is_allocated());
            assert(boot_info.elf_sections@[high].spec_is_allocated());
        }
        index += 1;
    }
    (start, end)
}

/// A copy of the memory areas of the boot information.
fn memory_areas(boot_info: &BootInformation) -> (areas: Vec<MemoryArea>)
    ensures
        areas@ == boot_info.memory_areas@,
{
    let mut areas: Vec<MemoryArea> = Vec::new();
    let mut index: usize = 0;
    while index < boot_info.memory_areas.len()
        invariant
            0 <= index <= boot_info.memory_areas@.len(),
            areas@ == boot_info.memory_areas@.take(index as int),
        decreases boot_info.memory_areas@.len() - index,
    {
        areas.push(boot_info.memory_areas[index]);
        proof {
            assert(boot_info.memory_areas@.take(index + 1) =~= boot_info.memory_areas@.take(
                index as int,
            ).push(boot_info.memory_areas@[index as int]));
        }
        index += 1;
    }
    proof {
        assert(boot_info.memory_areas@.take(boot_info.memory_areas@.len() as int)
            =~= boot_info.memory_areas@);
    }
    areas
}

/// Sets up the memory of the kernel: a frame allocator over the memory
/// areas of the boot information, the kernel remapped into a hierarchy of
/// its own, and the pages of the kernel heap mapped writable to fresh
/// frames, each page to a frame of its own.
///
/// The tables of the hierarchy in use must lie in sections of the kernel
/// image, so that the allocator does not hand out their frames, and the
/// call must be one that cannot fail: see [`init_succeeds`].
pub fn init(boot_info: &BootInformation, active_table: ActivePageTable) -> (outcome: (
    ActivePageTable,
    AreaFrameAllocator,
))
    requires
        boot_info.ready(),
        active_table.wf(),
        forall|f: u64| #[trigger]
            active_table.mapper.is_table(f) ==> boot_info.in_sections(
                f,
                boot_info.elf_sections@.len() as int,
            ),
        init_succeeds(&active_table.mapper, boot_info),
    ensures
        ({
            let table = outcome.0;
            let allocator = outcome.1;
            let guard = active_table.mapper@.cr3;
            &&& table.wf()
            &&& allocator.wf()
            &&& forall|n: u64| #[trigger]
                allocator.available().contains(n) ==> !table.mapper.is_table(n) && n
                    != table.mapper@.cr3
            &&& !heap_page(guard) ==> table.mapper.translation(Page { number: guard }) == Ok::<
                Option<u64>,
                MemoryError,
            >(None)
            &&& forall|n: u64, bits: u64|
                n != guard && #[trigger] boot_info.plans(n, bits) ==> {
                    &&& table.mapper.mapping(Page { number: n }) == Some(
                        Entry(entry_value(n, bits)),
                    )
                    &&& table.mapper.translation(Page { number: n }) == Ok::<
                        Option<u64>,
                        MemoryError,
                    >(Some(n))
                }
            &&& forall|p: u64| #[trigger]
                heap_page(p) ==> {
                    &&& table.mapper.translation(Page { number: p }) matches Ok(Some(f))
                    &&& table.mapper.mapping(Page { number: p }) == Some(
                        Entry(entry_value(f, WRITABLE | PRESENT)),
                    )
                    &&& boot_info.in_memory_area(f)
                    &&& !boot_info.occupied(f)
                    &&& !boot_info.in_sections(f, boot_info.elf_sections@.len() as int)
                    &&& !boot_info.holds(f)
                    &&& !allocator.available().contains(f)
                    &&& !table.mapper.is_table(f)
                }
            &&& forall|p: u64, q: u64|
                heap_page(p) && heap_page(q) && p != q ==> #[trigger] table.mapper.translation(
                    Page { number: p },
                ) != #[trigger] table.mapper.translation(Page { number: q })
        }),
{
    match try_init(boot_info, active_table) {
        Ok(outcome) => outcome,
        Err(_) => vstd::pervasive::unreached(),
    }
}

/// The conditions under which [`init`] cannot fail, sufficient and not all
/// of them necessary: the scratch page is free in the active hierarchy,
/// the frame of the active root table fits in an entry, no frame is to be
/// mapped twice, no page of the heap but the guard page is one of the
/// frames that are mapped to themselves, and the memory areas hold more
/// usable frames than `init`
/// can take, none of them with a number that no entry can hold.
pub open spec fn init_succeeds(active: &Mapper, boot_info: &BootInformation) -> bool {
    let scratch = Page { number: SCRATCH_PAGE };
    &&& active.translation(scratch) == Ok::<Option<u64>, MemoryError>(None)
    &&& active.slot(scratch).0 == 0
    &&& !active.huge_in_way(scratch)
    &&& active@.cr3 < FRAME_NUMBER_LIMIT
    &&& !boot_info.overlapping()
    &&& forall|p: u64| #[trigger] heap_page(p) ==> !boot_info.claims(p) || p == active@.cr3
    &&& !at_most(boot_info.usable_frames(), init_budget(boot_info))
    &&& forall|n: u64|
        boot_info.in_memory_area(n) && !#[trigger] boot_info.occupied(n) ==> n < FRAME_NUMBER_LIMIT
}

/// Sets up the memory of the kernel: a frame allocator over the memory
/// areas of the boot information, the kernel remapped into a hierarchy of
/// its own, and the pages of the kernel heap mapped writable to fresh
/// frames, each page to a frame of its own.
///
/// The tables of the hierarchy in use must lie in sections of the kernel
/// image, so that the allocator does not hand out their frames.
///
/// Fails as [`try_remap_the_kernel`] does, with `DoubleMapping` also where
/// a page of the heap other than the guard page is one of the frames that
/// are mapped to themselves, and with `FramesExhausted` only where the
/// memory areas hold no more usable frames than [`init_budget`] says.
/// Nothing is left of a call that failed.
pub fn try_init(boot_info: &BootInformation, active_table: ActivePageTable) -> (result: Result<
    (ActivePageTable, AreaFrameAllocator),
    MemoryError,
>)
    requires
        boot_info.ready(),
        active_table.wf(),
        forall|f: u64| #[trigger]
            active_table.mapper.is_table(f) ==> boot_info.in_sections(
                f,
                boot_info.elf_sections@.len() as int,
            ),
    ensures
        init_succeeds(&active_table.mapper, boot_info) ==> result is Ok,
        result matches Err(e) ==> match e {
            MemoryError::FramesExhausted => at_most(boot_info.usable_frames(), init_budget(boot_info)),
            MemoryError::MisalignedFrame => {
                ||| active_table.mapper.translation(Page { number: SCRATCH_PAGE }) is Err
                ||| active_table.mapper@.cr3 >= FRAME_NUMBER_LIMIT
                ||| exists|n: u64|
                    n >= FRAME_NUMBER_LIMIT && #[trigger] boot_info.in_memory_area(n)
                        && !boot_info.occupied(n)
            },
            MemoryError::DoubleMapping => {
                ||| active_table.mapper.translation(Page { number: SCRATCH_PAGE }) matches Ok(
                    Some(_),
                )
                ||| active_table.mapper.slot(Page { number: SCRATCH_PAGE }).0 != 0
                ||| boot_info.overlapping()
                ||| exists|p: u64|
                    #[trigger] heap_page(p) && boot_info.claims(p) && p != active_table.mapper@.cr3
            },
            MemoryError::UnsupportedHugePage => active_table.mapper.huge_in_way(
                Page { number: SCRATCH_PAGE },
            ),
            _ => false,
        },
        result matches Ok((table, allocator)) ==> {
            let guard = active_table.mapper@.cr3;
            &&& table.wf()
            &&& allocator.wf()
            &&& forall|n: u64| #[trigger]
                allocator.available().contains(n) ==> !table.mapper.is_table(n) && n
                    != table.mapper@.cr3
            &&& !heap_page(guard) ==> table.mapper.translation(Page { number: guard }) == Ok::<
                Option<u64>,
                MemoryError,
            >(None)
            &&& forall|n: u64, bits: u64|
                n != guard && #[trigger] boot_info.plans(n, bits) ==> {
                    &&& table.mapper.mapping(Page { number: n }) == Some(
                        Entry(entry_value(n, bits)),
                    )
                    &&& table.mapper.translation(Page { number: n }) == Ok::<
                        Option<u64>,
                        MemoryError,
                    >(Some(n))
                }
            &&& forall|p: u64| #[trigger]
                heap_page(p) ==> {
                    &&& table.mapper.translation(Page { number: p }) matches Ok(Some(f))
                    &&& table.mapper.mapping(Page { number: p }) == Some(
                        Entry(entry_value(f, WRITABLE | PRESENT)),
                    )
                    &&& boot_info.in_memory_area(f)
                    &&& !boot_info.occupied(f)
                    &&& !boot_info.in_sections(f, boot_info.elf_sections@.len() as int)
                    &&& !boot_info.holds(f)
                    &&& !allocator.available().contains(f)
                    &&& !table.mapper.is_table(f)
                }
            &&& forall|p: u64, q: u64|
                heap_page(p) && heap_page(q) && p != q ==> #[trigger] table.mapper.translation(
                    Page { number: p },
                ) != #[trigger] table.mapper.translation(Page { number: q })
        },
{
    let (kernel_start, kernel_end) = kernel_extent(boot_info);
    let mut frame_allocator = AreaFrameAllocator::new(
        kernel_start,
        kernel_end,
        boot_info.start_address,
        boot_info.end_address,
        memory_areas(boot_info),
    );
    let ghost guard = active_table.mapper@.cr3;
    let ghost initial = frame_allocator.available();
    proof {
        active_table.mapper.lemma_wf();
        assert forall|n: u64| #[trigger] initial.contains(n) implies {
            &&& boot_info.in_memory_area(n)
            &&& !boot_info.in_sections(n, boot_info.elf_sections@.len() as int)
            &&& !boot_info.holds(n)
            &&& !boot_info.occupied(n)
        } by {
            assert(frame_allocator.usable(n));
            let k = choose|k: int|
                0 <= k < frame_allocator.areas().len() && (
                #[trigger] frame_allocator.areas()[k]).first_frame() <= n
                    <= frame_allocator.areas()[k].last_frame();
            assert(boot_info.memory_areas@[k].first_frame() <= n
                <= boot_info.memory_areas@[k].last_frame());
            if boot_info.in_sections(n, boot_info.elf_sections@.len() as int) {
                let i = choose|i: int|
                    0 <= i < boot_info.elf_sections@.len() && in_section(
                        #[trigger] boot_info.elf_sections@[i],
                        n,
                    );
                assert(boot_info.elf_sections@[i].spec_is_allocated());
                assert(frame_allocator.reserved(n));
            }
        }
        assert forall|n: u64| boot_info.usable_frames().contains(n) implies initial.contains(
            n,
        ) by {
            let k = choose|k: int|
                0 <= k < boot_info.memory_areas@.len() && (
                #[trigger] boot_info.memory_areas@[k]).first_frame() <= n
                    <= boot_info.memory_areas@[k].last_frame();
            assert(frame_allocator.areas()[k].first_frame() <= n
                <= frame_allocator.areas()[k].last_frame());
            assert(frame_allocator.in_area(n));
            assert(frame_allocator.usable(n));
        }
        assert(boot_info.usable_frames().subset_of(initial));
        assert forall|n: u64| #[trigger] initial.contains(n) implies !active_table.mapper.is_table(
            n,
        ) && n != active_table.mapper@.cr3 by {
            if active_table.mapper.is_table(n) {
                assert(boot_info.in_sections(n, boot_info.elf_sections@.len() as int));
            }
        }
    }
    let mut remapped = match try_remap_the_kernel(active_table, &mut frame_allocator, boot_info) {
        Ok(table) => table,
        Err(e) => {
            proof {
                assert(active_table.mapper.is_table(guard));
                assert(boot_info.claims(guard));
                if e is FramesExhausted {
                    assert(initial.difference(frame_allocator.available()) =~= initial);
                    vstd::set_lib::lemma_len_subset(boot_info.usable_frames(), initial);
                }
            }
            return Err(e);
        },
    };
    let heap_start_page = Page::containing_address(HEAP_START);
    let heap_end_page = Page::containing_address(HEAP_START + HEAP_SIZE - 1);
    let mut pages = Page::range_inclusive(heap_start_page, heap_end_page);
    loop
        invariant
            boot_info.mappable(),
            guard == active_table.mapper@.cr3,
            boot_info.usable_frames().subset_of(initial),
            at_most(
                initial.difference(frame_allocator.available()),
                boot_info.remap_budget() + (4 * (pages.start.number - heap_start_page.number)) as nat,
            ),
            remapped.wf(),
            remapped.mapper.plain(),
            forall|q: Page|
                !q.is_recursive() && (#[trigger] remapped.mapper.mapping(q)) is Some ==> {
                    ||| boot_info.claims((q.number % 0x10_0000_0000) as u64) && q.number
                        % 0x10_0000_0000 != guard
                    ||| heap_start_page.number <= q.number % 0x10_0000_0000 < pages.start.number
                },
            frame_allocator.wf(),
            frame_allocator.available().subset_of(initial),
            guard < RECURSIVE_FIRST_PAGE,
            pages.end == heap_end_page,
            heap_start_page.number == HEAP_START / 4096,
            heap_end_page.number == (HEAP_START + HEAP_SIZE - 1) / 4096,
            heap_start_page.number <= pages.start.number <= heap_end_page.number + 1,
            forall|n: u64| #[trigger]
                initial.contains(n) ==> {
                    &&& boot_info.in_memory_area(n)
                    &&& !boot_info.in_sections(n, boot_info.elf_sections@.len() as int)
                    &&& !boot_info.holds(n)
                    &&& !boot_info.occupied(n)
                },
            forall|n: u64| #[trigger]
                frame_allocator.available().contains(n) ==> !remapped.mapper.is_table(n) && n
                    != remapped.mapper@.cr3,
            !heap_page(guard) ==> remapped.mapper.translation(Page { number: guard }) == Ok::<
                Option<u64>,
                MemoryError,
            >(None),
            forall|n: u64, bits: u64|
                n != guard && #[trigger] boot_info.plans(n, bits) ==> {
                    &&& remapped.mapper.mapping(Page { number: n }) == Some(
                        Entry(entry_value(n, bits)),
                    )
                    &&& remapped.mapper.translation(Page { number: n }) == Ok::<
                        Option<u64>,
                        MemoryError,
                    >(Some(n))
                },
            forall|p: u64|
                heap_start_page.number <= p < pages.start.number ==> {
                    &&& #[trigger] remapped.mapper.translation(Page { number: p }) matches Ok(
                        Some(f),
                    )
                    &&& remapped.mapper.mapping(Page { number: p }) == Some(
                        Entry(entry_value(f, WRITABLE | PRESENT)),
                    )
                    &&& initial.contains(f)
                    &&& !frame_allocator.available().contains(f)
                    &&& !remapped.mapper.is_table(f)
                },
            forall|p: u64, q: u64|
                heap_start_page.number <= p < pages.start.number && heap_start_page.number <= q
                    < pages.start.number && p != q ==> #[trigger] remapped.mapper.translation(
                    Page { number: p },
                ) != #[trigger] remapped.mapper.translation(Page { number: q }),
        ensures
            pages.start.number == heap_end_page.number + 1,
        decreases heap_end_page.number + 1 - pages.start.number,
    {
        let page = match pages.next() {
            Some(page) => page,
            None => {
                break ;
            },
        };
        let ghost before = remapped.mapper;
        let ghost available = frame_allocator.available();
        proof {
            lemma_slot_number(page.number, page.number);
            before.lemma_plain_page(page);
        }
        match remapped.mapper.try_map(page, EntryFlags::writable(), &mut frame_allocator) {
            Ok(()) => {},
            Err(e) => {
                proof {
                    if e is DoubleMapping {
                        assert(before.mapping(page) is Some);
                        assert(heap_page(page.number) && boot_info.claims(page.number)
                            && page.number != guard);
                    }
                    if e is FramesExhausted {
                        lemma_fewer_rises(available, before.missing_tables(page) + 1, 4);
                        lemma_fewer_at_most(available);
                        assert(available.difference(frame_allocator.available()) =~= available);
                        lemma_at_most_steps(
                            initial,
                            available,
                            frame_allocator.available(),
                            boot_info.remap_budget() + (4 * (page.number
                                - heap_start_page.number)) as nat,
                            3,
                        );
                        assert(initial.difference(frame_allocator.available()) =~= initial);
                        vstd::set_lib::lemma_len_subset(boot_info.usable_frames(), initial);
                    }
                }
                return Err(e);
            },
        }
        proof {
            let after = remapped.mapper;
            let taken = after.translation(page)->Ok_0->Some_0;
            after.lemma_made_at_most(
                &before,
                page,
                available.remove(taken),
                frame_allocator.available(),
            );
            lemma_at_most_one_more(
                available.difference(frame_allocator.available()),
                available.remove(taken).difference(frame_allocator.available()),
                taken,
                3,
            );
            lemma_at_most_steps(
                initial,
                available,
                frame_allocator.available(),
                boot_info.remap_budget() + (4 * (page.number - heap_start_page.number)) as nat,
                4,
            );
            assert forall|q: Page|
                !q.is_recursive() && (#[trigger] after.mapping(q)) is Some implies {
                ||| boot_info.claims((q.number % 0x10_0000_0000) as u64) && q.number
                    % 0x10_0000_0000 != guard
                ||| heap_start_page.number <= q.number % 0x10_0000_0000 < pages.start.number
            } by {
                if q.same_slot(page) {
                    lemma_slot_number(q.number, page.number);
                } else {
                    after.lemma_same_translation(&before, Some(page), q);
                }
            }
            let given = available.difference(frame_allocator.available());
            let fresh = after.translation(page)->Ok_0->Some_0;
            assert forall|n: u64, bits: u64| n != guard && #[trigger] boot_info.plans(
                n,
                bits,
            ) implies {
                &&& after.mapping(Page { number: n }) == Some(Entry(entry_value(n, bits)))
                &&& after.translation(Page { number: n }) == Ok::<Option<u64>, MemoryError>(
                    Some(n),
                )
            } by {
                boot_info.lemma_plans_claims(n, bits);
                boot_info.lemma_claims_below(n);
                after.lemma_mapping_survives(&before, page, Page { number: n });
            }
            if !heap_page(guard) {
                lemma_slot_number(guard, page.number);
                lemma_slot_number(guard, guard);
                after.lemma_same_translation(&before, Some(page), Page { number: guard });
            }
            assert forall|p: u64| heap_start_page.number <= p < pages.start.number implies {
                &&& #[trigger] after.translation(Page { number: p }) matches Ok(Some(f))
                &&& after.mapping(Page { number: p }) == Some(
                    Entry(entry_value(f, WRITABLE | PRESENT)),
                )
                &&& initial.contains(f)
                &&& !frame_allocator.available().contains(f)
                &&& !after.is_table(f)
            } by {
                lemma_slot_number(p, p);
                if p < page.number {
                    assert(before.translation(Page { number: p }) is Ok);
                    after.lemma_mapping_survives(&before, page, Page { number: p });
                    let f = before.translation(Page { number: p })->Ok_0->Some_0;
                    after.lemma_grown(&before, given, f, 0);
                } else {
                    assert(p == page.number);
                    assert(available.contains(fresh));
                }
            }
            assert forall|p: u64, q: u64|
                heap_start_page.number <= p < pages.start.number && heap_start_page.number <= q
                    < pages.start.number && p != q implies #[trigger] after.translation(
                Page { number: p },
            ) != #[trigger] after.translation(Page { number: q }) by {
                lemma_slot_number(p, p);
                lemma_slot_number(q, q);
                if p < page.number {
                    assert(before.translation(Page { number: p }) is Ok);
                    after.lemma_mapping_survives(&before, page, Page { number: p });
                }
                if q < page.number {
                    assert(before.translation(Page { number: q }) is Ok);
                    after.lemma_mapping_survives(&before, page, Page { number: q });
                }
                assert(available.contains(fresh));
            }
        }
    }
    proof {
        assert forall|p: u64| #[trigger] heap_page(p) implies {
            &&& remapped.mapper.translation(Page { number: p }) matches Ok(Some(f))
            &&& remapped.mapper.mapping(Page { number: p }) == Some(
                Entry(entry_value(f, WRITABLE | PRESENT)),
            )
            &&& boot_info.in_memory_area(f)
            &&& !boot_info.occupied(f)
            &&& !boot_info.in_sections(f, boot_info.elf_sections@.len() as int)
            &&& !boot_info.holds(f)
            &&& !frame_allocator.available().contains(f)
            &&& !remapped.mapper.is_table(f)
        } by {
            assert(remapped.mapper.translation(Page { number: p }) is Ok);
        }
    }
    Ok((remapped, frame_allocator))
}

} // verus!
