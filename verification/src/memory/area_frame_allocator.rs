//! The frame allocator of the kernel: it walks the memory areas that the
//! boot loader reported and skips the kernel image and the boot information.
use vstd::prelude::*;
use crate::memory::boot_info::MemoryArea;
use crate::memory::{Frame, FrameAllocator, MemoryError, MAX_FRAME_NUMBER, PAGE_SIZE};

verus! {

/// Hands out the usable frames in rising order, each one once.
///
/// `next_free_frame` is a cursor that never moves back: every frame below
/// it is either handed out or not usable. Frames given back are not
/// reclaimed.
pub struct AreaFrameAllocator {
    next_free_frame: Frame,
    current_area: Option<MemoryArea>,
    areas: Vec<MemoryArea>,
    kernel_start: Frame,
    kernel_end: Frame,
    multiboot_start: Frame,
    multiboot_end: Frame,
}

/// `frame` is the least member of `available`.
pub open spec fn is_least(available: Set<u64>, frame: u64) -> bool {
    &&& available.contains(frame)
    &&& forall|n: u64| #[trigger] available.contains(n) ==> frame <= n
}

/// One call of an allocator that hands out the least available frame:
/// `before` and `after` are the sets of available frames around the call.
pub open spec fn least_first_step(before: Set<u64>, frame: Option<u64>, after: Set<u64>) -> bool {
    match frame {
        Some(n) => is_least(before, n) && after == before.remove(n),
        None => before =~= Set::<u64>::empty() && after == before,
    }
}

/// A run of calls: `sets[k]` is what is available before call `k`, and
/// `frames[k]` what that call returned.
pub open spec fn least_first_run(sets: Seq<Set<u64>>, frames: Seq<Option<u64>>) -> bool {
    &&& sets.len() == frames.len() + 1
    &&& forall|k: int|
        0 <= k < frames.len() ==> least_first_step(sets[k], #[trigger] frames[k], sets[k + 1])
}

/// Whatever a later call can still hand out lies above every frame that an
/// earlier call returned, and was available from the start.
proof fn lemma_run_shrinks(sets: Seq<Set<u64>>, frames: Seq<Option<u64>>, i: int, j: int)
    requires
        least_first_run(sets, frames),
        0 <= i < j <= frames.len(),
    ensures
        sets[j].subset_of(sets[i]),
        frames[i] matches Some(a) ==> forall|n: u64| #[trigger] sets[j].contains(n) ==> a < n,
        frames[i] is None ==> sets[j] =~= Set::<u64>::empty(),
    decreases j - i,
{
    assert(least_first_step(sets[i], frames[i], sets[i + 1]));
    if j > i + 1 {
        lemma_run_shrinks(sets, frames, i, j - 1);
        assert(least_first_step(sets[j - 1], frames[j - 1], sets[j]));
    }
}

/// Frame monotonicity: over any run of calls the frames that come back rise
/// strictly, so no frame comes back twice.
pub proof fn lemma_frames_rise(sets: Seq<Set<u64>>, frames: Seq<Option<u64>>, i: int, j: int)
    requires
        least_first_run(sets, frames),
        0 <= i < j < frames.len(),
        frames[i] is Some,
        frames[j] is Some,
    ensures
        frames[i]->Some_0 < frames[j]->Some_0,
{
    lemma_run_shrinks(sets, frames, i, j);
    assert(least_first_step(sets[j], frames[j], sets[j + 1]));
}

/// Exhaustion: once a call has returned `None`, every later call does.
pub proof fn lemma_exhaustion_is_final(
    sets: Seq<Set<u64>>,
    frames: Seq<Option<u64>>,
    i: int,
    j: int,
)
    requires
        least_first_run(sets, frames),
        0 <= i <= j < frames.len(),
        frames[i] is None,
    ensures
        frames[j] is None,
{
    if i < j {
        lemma_run_shrinks(sets, frames, i, j);
    }
    assert(least_first_step(sets[j], frames[j], sets[j + 1]));
}

/// Allocators of one layout agree on which frames are usable.
proof fn lemma_same_usable(a: &AreaFrameAllocator, b: &AreaFrameAllocator)
    requires
        a.same_layout(b),
    ensures
        forall|n: u64| a.usable(n) == b.usable(n),
{
    assert forall|n: u64| a.usable(n) == b.usable(n) by {
        if a.in_area(n) {
            let k = choose|k: int|
                0 <= k < a.areas().len() && (#[trigger] a.areas()[k]).first_frame() <= n
                    <= a.areas()[k].last_frame();
            assert(b.areas()[k].first_frame() <= n <= b.areas()[k].last_frame());
        }
        if b.in_area(n) {
            let k = choose|k: int|
                0 <= k < b.areas().len() && (#[trigger] b.areas()[k]).first_frame() <= n
                    <= b.areas()[k].last_frame();
            assert(a.areas()[k].first_frame() <= n <= a.areas()[k].last_frame());
        }
    }
}

impl AreaFrameAllocator {
    /// Number of the frame at the cursor.
    pub closed spec fn next_free(&self) -> u64 {
        self.next_free_frame.number
    }

    /// The memory areas that the allocator draws from.
    pub closed spec fn areas(&self) -> Seq<MemoryArea> {
        self.areas@
    }

    /// Number of the first frame of the kernel image.
    pub closed spec fn kernel_start(&self) -> u64 {
        self.kernel_start.number
    }

    /// Number of the last frame of the kernel image.
    pub closed spec fn kernel_end(&self) -> u64 {
        self.kernel_end.number
    }

    /// Number of the first frame of the boot information.
    pub closed spec fn multiboot_start(&self) -> u64 {
        self.multiboot_start.number
    }

    /// Number of the last frame of the boot information.
    pub closed spec fn multiboot_end(&self) -> u64 {
        self.multiboot_end.number
    }

    /// The area that is being carved, if any is left.
    pub closed spec fn current(&self) -> Option<MemoryArea> {
        self.current_area
    }

    /// No area is left to carve: every call from now on returns `None`.
    pub closed spec fn exhausted(&self) -> bool {
        self.current_area is None
    }

    /// Area `k` is the first of those with the least base address among the
    /// areas that reach frame `cursor`.
    pub open spec fn leads(areas: Seq<MemoryArea>, cursor: u64, k: int) -> bool {
        &&& 0 <= k < areas.len()
        &&& areas[k].last_frame() >= cursor
        &&& forall|j: int|
            0 <= j < areas.len() && (#[trigger] areas[j]).last_frame() >= cursor ==> {
                &&& areas[k].base_addr <= areas[j].base_addr
                &&& j < k ==> areas[k].base_addr < areas[j].base_addr
            }
    }

    /// The frame lies in one of the memory areas.
    pub open spec fn in_area(&self, n: u64) -> bool {
        exists|i: int|
            0 <= i < self.areas().len() && (#[trigger] self.areas()[i]).first_frame() <= n
                <= self.areas()[i].last_frame()
    }

    /// The frame belongs to the kernel image or to the boot information.
    pub open spec fn reserved(&self, n: u64) -> bool {
        ||| self.kernel_start() <= n <= self.kernel_end()
        ||| self.multiboot_start() <= n <= self.multiboot_end()
    }

    /// The frame is usable memory that nothing occupies.
    pub open spec fn usable(&self, n: u64) -> bool {
        self.in_area(n) && !self.reserved(n)
    }

    /// The frames still to come: the usable frames from the cursor on.
    pub open spec fn free_frames(&self) -> Set<u64> {
        Set::new(|n: u64| n >= self.next_free() && self.usable(n))
    }

    /// The configuration is sound and the cursor is not behind the area
    /// that is being carved.
    pub closed spec fn valid(&self) -> bool {
        &&& forall|i: int| 0 <= i < self.areas@.len() ==> (#[trigger] self.areas@[i]).wf()
        &&& self.next_free_frame.number <= MAX_FRAME_NUMBER + 1
        &&& self.kernel_end.number <= MAX_FRAME_NUMBER
        &&& self.multiboot_end.number <= MAX_FRAME_NUMBER
        &&& match self.current_area {
            Some(area) => {
                &&& area.wf()
                &&& exists|i: int| 0 <= i < self.areas@.len() && self.areas@[i] == area
                &&& area.first_frame() <= self.next_free_frame.number
            },
            None => forall|i: int|
                0 <= i < self.areas@.len() ==> (#[trigger] self.areas@[i]).last_frame()
                    < self.next_free_frame.number,
        }
    }

    /// The same areas and reserved ranges.
    pub open spec fn same_layout(&self, other: &AreaFrameAllocator) -> bool {
        &&& self.areas() == other.areas()
        &&& self.kernel_start() == other.kernel_start()
        &&& self.kernel_end() == other.kernel_end()
        &&& self.multiboot_start() == other.multiboot_start()
        &&& self.multiboot_end() == other.multiboot_end()
    }

    /// An allocator over `memory_areas` that keeps clear of the kernel image
    /// and of the boot information, both given by their first and last
    /// address. Every usable frame is still to come.
    pub fn new(
        kernel_start: u64,
        kernel_end: u64,
        multiboot_start: u64,
        multiboot_end: u64,
        memory_areas: Vec<MemoryArea>,
    ) -> (allocator: AreaFrameAllocator)
        requires
            forall|i: int| 0 <= i < memory_areas@.len() ==> (#[trigger] memory_areas@[i]).wf(),
        ensures
            allocator.wf(),
            allocator.areas() == memory_areas@,
            allocator.kernel_start() == kernel_start / PAGE_SIZE,
            allocator.kernel_end() == kernel_end / PAGE_SIZE,
            allocator.multiboot_start() == multiboot_start / PAGE_SIZE,
            allocator.multiboot_end() == multiboot_end / PAGE_SIZE,
            allocator.available() =~= Set::new(|n: u64| allocator.usable(n)),
            allocator.exhausted() <==> memory_areas@.len() == 0,
            allocator.exhausted() <==> allocator.current() is None,
            allocator.current() is None ==> allocator.next_free() == 0,
            allocator.current() matches Some(area) ==> {
                &&& allocator.next_free() == area.first_frame()
                &&& exists|k: int|
                    Self::leads(memory_areas@, 0, k) && #[trigger] memory_areas@[k] == area
            },
    {
        let mut allocator = AreaFrameAllocator {
            next_free_frame: Frame::containing_address(0),
            current_area: None,
            areas: memory_areas,
            kernel_start: Frame::containing_address(kernel_start),
            kernel_end: Frame::containing_address(kernel_end),
            multiboot_start: Frame::containing_address(multiboot_start),
            multiboot_end: Frame::containing_address(multiboot_end),
        };
        allocator.choose_next_area();
        proof {
            if allocator.areas@.len() > 0 {
                assert(allocator.areas@[0].last_frame() >= 0);
            }
        }
        allocator
    }

    /// Makes the area with the least base address among those that still
    /// reach the cursor the current one, and lifts the cursor to its first
    /// frame.
    fn choose_next_area(&mut self)
        requires
            forall|i: int|
                0 <= i < old(self).areas@.len() ==> (#[trigger] old(self).areas@[i]).wf(),
            old(self).next_free_frame.number <= MAX_FRAME_NUMBER + 1,
            old(self).kernel_end.number <= MAX_FRAME_NUMBER,
            old(self).multiboot_end.number <= MAX_FRAME_NUMBER,
        ensures
            final(self).valid(),
            final(self).same_layout(old(self)),
            final(self).next_free() >= old(self).next_free(),
            final(self).free_frames() =~= old(self).free_frames(),
            final(self).current_area matches Some(area) ==> area.last_frame()
                >= final(self).next_free(),
            match final(self).current_area {
                Some(area) => {
                    &&& final(self).next_free() == if old(self).next_free() < area.first_frame() {
                        area.first_frame()
                    } else {
                        old(self).next_free()
                    }
                    &&& exists|k: int|
                        Self::leads(old(self).areas@, old(self).next_free(), k)
                            && #[trigger] old(self).areas@[k] == area
                },
                None => {
                    &&& final(self).next_free() == old(self).next_free()
                    &&& forall|k: int|
                        0 <= k < old(self).areas@.len() ==> (#[trigger] old(self).areas@[k]).last_frame()
                            < old(self).next_free()
                },
            },
    {
        let cursor = self.next_free_frame.number;
        let mut best: Option<MemoryArea> = None;
        let ghost mut at: int = 0;
        let mut i: usize = 0;
        while i < self.areas.len()
            invariant
                0 <= i <= self.areas@.len(),
                *self == *old(self),
                cursor == self.next_free_frame.number,
                forall|k: int| 0 <= k < self.areas@.len() ==> (#[trigger] self.areas@[k]).wf(),
                match best {
                    Some(b) => {
                        &&& 0 <= at < i
                        &&& self.areas@[at] == b
                        &&& b.last_frame() >= cursor
                        &&& forall|k: int|
                            0 <= k < i && (#[trigger] self.areas@[k]).last_frame() >= cursor ==> {
                                &&& b.base_addr <= self.areas@[k].base_addr
                                &&& k < at ==> b.base_addr < self.areas@[k].base_addr
                            }
                    },
                    None => forall|k: int|
                        0 <= k < i ==> (#[trigger] self.areas@[k]).last_frame() < cursor,
                },
            decreases self.areas@.len() - i,
        {
            let area = self.areas[i];
            let address = area.base_addr + (area.length - 1);
            if Frame::containing_address(address).number >= cursor {
                match best {
                    Some(b) => {
                        if area.base_addr < b.base_addr {
                            best = Some(area);
                            proof {
                                at = i as int;
                            }
                        }
                    },
                    None => {
                        best = Some(area);
                        proof {
                            at = i as int;
                        }
                    },
                }
            }
            i += 1;
        }
        let ghost witness = at;
        self.current_area = best;
        if let Some(area) = best {
            assert(self.areas@[witness] == area);
            let start_frame = Frame::containing_address(area.base_addr);
            if self.next_free_frame.number < start_frame.number {
                self.next_free_frame = start_frame;
            }
            assert forall|n: u64|
                cursor <= n < self.next_free_frame.number implies !self.in_area(n) by {
                if self.in_area(n) {
                    let k = choose|k: int|
                        0 <= k < self.areas().len() && (#[trigger] self.areas()[k]).first_frame()
                            <= n <= self.areas()[k].last_frame();
                    assert(self.areas@[k].last_frame() >= cursor);
                    assert(area.base_addr <= self.areas@[k].base_addr);
                }
            }
        }
        proof {
            lemma_same_usable(self, old(self));
            assert forall|n: u64|
                self.free_frames().contains(n) == old(self).free_frames().contains(n) by {
                if cursor <= n < self.next_free_frame.number {
                    assert(!self.in_area(n));
                }
            }
        }
    }
}

impl FrameAllocator for AreaFrameAllocator {
    closed spec fn wf(&self) -> bool {
        self.valid()
    }

    open spec fn available(&self) -> Set<u64> {
        self.free_frames()
    }

    /// Any frame can be given back, at any time.
    open spec fn has_room(&self) -> bool {
        true
    }

    /// The least of the frames still to come.
    open spec fn upcoming(&self) -> Option<u64> {
        if exists|n: u64| self.free_frames().contains(n) {
            Some(choose|n: u64| is_least(self.free_frames(), n))
        } else {
            None
        }
    }

    /// Hands out the least usable frame at or above the cursor and moves
    /// the cursor just past it; `None` once no such frame exists.
    fn allocate_frame(&mut self) -> (frame: Option<Frame>)
        ensures
            final(self).same_layout(old(self)),
            final(self).next_free() >= old(self).next_free(),
            least_first_step(
                old(self).available(),
                match frame {
                    Some(f) => Some(f.number),
                    None => None,
                },
                final(self).available(),
            ),
            frame matches Some(f) ==> {
                &&& old(self).usable(f.number)
                &&& f.number >= old(self).next_free()
                &&& final(self).next_free() == f.number + 1
            },
            frame is None ==> final(self).exhausted(),
            old(self).exhausted() ==> frame is None && *final(self) == *old(self),
    {
        loop
            invariant
                self.valid(),
                old(self).current_area is None ==> *self == *old(self),
                self.same_layout(old(self)),
                self.next_free() >= old(self).next_free(),
                self.free_frames() =~= old(self).free_frames(),
            decreases
                    MAX_FRAME_NUMBER + 1 - self.next_free_frame.number,
                    (if self.current_area matches Some(area) && area.last_frame()
                        < self.next_free_frame.number {
                        1int
                    } else {
                        0int
                    }),
        {
            match self.current_area {
                None => {
                    assert(self.free_frames() =~= Set::<u64>::empty());
                    return None;
                },
                Some(area) => {
                    let ghost witness = choose|k: int|
                        0 <= k < self.areas@.len() && self.areas@[k] == area;
                    let frame = Frame { number: self.next_free_frame.number };
                    let current_area_last_frame = {
                        let address = area.base_addr + (area.length - 1);
                        Frame::containing_address(address)
                    };
                    if frame.number > current_area_last_frame.number {
                        self.choose_next_area();
                    } else if frame.number >= self.kernel_start.number && frame.number
                        <= self.kernel_end.number {
                        let ghost before = *self;
                        self.next_free_frame = Frame { number: self.kernel_end.number + 1 };
                        assert(self.areas@[witness] == area);
                        proof {
                            lemma_same_usable(self, &before);
                            assert forall|n: u64|
                                self.free_frames().contains(n) == before.free_frames().contains(
                                    n,
                                ) by {
                                if frame.number <= n <= self.kernel_end.number {
                                    assert(before.reserved(n));
                                }
                            }
                        }
                    } else if frame.number >= self.multiboot_start.number && frame.number
                        <= self.multiboot_end.number {
                        let ghost before = *self;
                        self.next_free_frame = Frame { number: self.multiboot_end.number + 1 };
                        assert(self.areas@[witness] == area);
                        proof {
                            lemma_same_usable(self, &before);
                            assert forall|n: u64|
                                self.free_frames().contains(n) == before.free_frames().contains(
                                    n,
                                ) by {
                                if frame.number <= n <= self.multiboot_end.number {
                                    assert(before.reserved(n));
                                }
                            }
                        }
                    } else {
                        let ghost before = *self;
                        self.next_free_frame.number += 1;
                        assert(self.areas@[witness] == area);
                        assert(before.areas()[witness].first_frame() <= frame.number
                            <= before.areas()[witness].last_frame());
                        assert(before.in_area(frame.number));
                        proof {
                            lemma_same_usable(self, &before);
                            lemma_same_usable(old(self), &before);
                            assert(before.free_frames().contains(frame.number));
                            assert(old(self).free_frames().contains(frame.number));
                            assert forall|n: u64|
                                self.free_frames().contains(n) == before.free_frames().remove(
                                    frame.number,
                                ).contains(n) by {}
                        }
                        assert(self.free_frames() =~= before.free_frames().remove(frame.number));
                        proof {
                            let first = old(self).free_frames();
                            assert(is_least(first, frame.number));
                            let chosen = choose|n: u64| is_least(first, n);
                            assert(is_least(first, chosen));
                            assert(chosen == frame.number);
                        }
                        return Some(frame);
                    }
                },
            }
        }
    }

    /// Takes the frame back without ever handing it out again.
    fn deallocate_frame(&mut self, frame: Frame)
        ensures
            *final(self) == *old(self),
    {
    }
}

} // verus!
