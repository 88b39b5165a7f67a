//! A scratch page that is mapped to a frame for as long as the frame has to
//! be read or written as a table, and the small pool of frames that pays for
//! the tables of that mapping.
use vstd::prelude::*;
use crate::memory::machine::{table_walk, walk};
use crate::memory::paging::entry::{
    entry_value, lemma_link_entry, Entry, EntryFlags, FRAME_NUMBER_LIMIT, PRESENT, WRITABLE,
};
use crate::memory::paging::mapper::{at_most, fewer_than};
use crate::memory::paging::table::{Level1, Table};
use crate::memory::paging::{ActivePageTable, Page, VirtualAddress};
use crate::memory::{Frame, FrameAllocator, MemoryError, MAX_FRAME_NUMBER};

verus! {

/// A pool of at most three frames: enough for the three tables that one
/// mapping of a 4 KiB page can need.
pub struct TinyAllocator(pub [Option<Frame>; 3]);

impl TinyAllocator {
    /// The slots of the pool.
    pub open spec fn slots(&self) -> Seq<Option<Frame>> {
        self.0@
    }

    /// The pool holds a frame in each slot.
    pub open spec fn is_full(&self) -> bool {
        forall|i: int| 0 <= i < 3 ==> (#[trigger] self.slots()[i]) is Some
    }

    /// A pool filled with up to three frames from `allocator`.
    pub fn new<A: FrameAllocator>(allocator: &mut A) -> (pool: TinyAllocator)
        requires
            old(allocator).wf(),
        ensures
            final(allocator).wf(),
            pool.wf(),
            pool.available().subset_of(old(allocator).available()),
            final(allocator).available() =~= old(allocator).available().difference(
                pool.available(),
            ),
            pool.is_full() || final(allocator).available() =~= Set::<u64>::empty(),
            at_most(pool.available(), 3),
            pool.slots()[0] == match old(allocator).upcoming() {
                Some(n) => Some(Frame { number: n }),
                None => None::<Frame>,
            },
            forall|i: int| 0 <= i < 2 && (#[trigger] pool.slots()[i]) is None ==> pool.slots()[i + 1]
                is None,
    {
        let first = allocator.allocate_frame();
        let second = allocator.allocate_frame();
        let third = allocator.allocate_frame();
        let pool = TinyAllocator([first, second, third]);
        proof {
            assert(pool.slots()[0] == first);
            assert(pool.slots()[1] == second);
            assert(pool.slots()[2] == third);
            assert forall|n: u64| pool.available().contains(n) implies old(allocator).available().contains(n) by {
                let i = choose|i: int|
                    0 <= i < 3 && pool.slots()[i] == Some(Frame { number: n });
            }
            let x: u64 = if first is Some { first->Some_0.number } else { 0 };
            let y: u64 = if second is Some { second->Some_0.number } else { 0 };
            let z: u64 = if third is Some { third->Some_0.number } else { 0 };
            assert forall|n: u64| #[trigger] pool.available().contains(n) implies n == x || n == y
                || n == z by {
                let i = choose|i: int|
                    0 <= i < 3 && pool.slots()[i] == Some(Frame { number: n });
            }
            crate::memory::paging::mapper::lemma_at_most_three(pool.available(), x, y, z);
        }
        pool
    }

    /// Puts the frame into the first empty slot. Fails with
    /// `BootstrapPoolExhausted`, and changes nothing, where every slot is
    /// taken.
    pub fn try_deallocate_frame(&mut self, frame: Frame) -> (result: Result<(), MemoryError>)
        ensures
            old(self).wf() && !old(self).available().contains(frame.number) ==> final(self).wf(),
            match result {
                Ok(()) => exists|i: int|
                    {
                        &&& 0 <= i < 3
                        &&& #[trigger] old(self).slots()[i] is None
                        &&& forall|j: int| 0 <= j < i ==> (#[trigger] old(self).slots()[j]) is Some
                        &&& final(self).slots() == old(self).slots().update(i, Some(frame))
                        &&& final(self).available() == old(self).available().insert(frame.number)
                    },
                Err(e) => {
                    &&& e == MemoryError::BootstrapPoolExhausted
                    &&& old(self).is_full()
                    &&& *final(self) == *old(self)
                },
            },
    {
        let mut index: usize = 0;
        while index < 3
            invariant
                0 <= index <= 3,
                *self == *old(self),
                forall|j: int| 0 <= j < index ==> (#[trigger] self.slots()[j]) is Some,
            decreases 3 - index,
        {
            if self.0[index].is_none() {
                self.0[index] = Some(frame);
                proof {
                    let before = old(self).slots();
                    let after = self.slots();
                    assert(after == before.update(index as int, Some(frame)));
                    assert(after[index as int] == Some(Frame { number: frame.number }));
                    assert forall|n: u64|
                        self.available().contains(n) == old(self).available().insert(
                            frame.number,
                        ).contains(n) by {
                        if old(self).available().contains(n) {
                            let i = choose|i: int|
                                0 <= i < 3 && before[i] == Some(Frame { number: n });
                            assert(after[i] == Some(Frame { number: n }));
                        }
                        if self.available().contains(n) && n != frame.number {
                            let i = choose|i: int|
                                0 <= i < 3 && after[i] == Some(Frame { number: n });
                            assert(before[i] == Some(Frame { number: n }));
                        }
                    }
                    assert(self.available() =~= old(self).available().insert(frame.number));
                    assert forall|i: int, j: int|
                        old(self).wf() && !old(self).available().contains(frame.number) && 0 <= i
                            < j < 3 && (#[trigger] after[i]) is Some implies after[i]
                        != #[trigger] after[j] by {
                        if i == index as int {
                            if after[j] == Some(frame) {
                                assert(before[j] == Some(Frame { number: frame.number }));
                                assert(old(self).available().contains(frame.number));
                            }
                        } else if j == index as int {
                            if after[i] == Some(frame) {
                                assert(before[i] == Some(Frame { number: frame.number }));
                                assert(old(self).available().contains(frame.number));
                            }
                        } else {
                            assert(before[i] is Some);
                            assert(before[i] != before[j]);
                        }
                    }
                }
                return Ok(());
            }
            index += 1;
        }
        Err(MemoryError::BootstrapPoolExhausted)
    }
}

impl FrameAllocator for TinyAllocator {
    /// No frame is in the pool twice.
    open spec fn wf(&self) -> bool {
        forall|i: int, j: int|
            0 <= i < j < 3 && (#[trigger] self.slots()[i]) is Some ==> self.slots()[i]
                != #[trigger] self.slots()[j]
    }

    open spec fn available(&self) -> Set<u64> {
        Set::new(
            |n: u64| exists|i: int| 0 <= i < 3 && #[trigger] self.slots()[i] == Some(Frame { number: n }),
        )
    }

    /// A slot of the pool is empty.
    open spec fn has_room(&self) -> bool {
        !self.is_full()
    }

    /// The frame in the first slot that holds one.
    open spec fn upcoming(&self) -> Option<u64> {
        if self.slots()[0] is Some {
            Some(self.slots()[0]->Some_0.number)
        } else if self.slots()[1] is Some {
            Some(self.slots()[1]->Some_0.number)
        } else if self.slots()[2] is Some {
            Some(self.slots()[2]->Some_0.number)
        } else {
            None
        }
    }

    /// Hands out the frame of the first slot that holds one.
    fn allocate_frame(&mut self) -> (frame: Option<Frame>)
        ensures
            match frame {
                Some(f) => exists|i: int|
                    {
                        &&& 0 <= i < 3
                        &&& #[trigger] old(self).slots()[i] == Some(f)
                        &&& forall|j: int| 0 <= j < i ==> (#[trigger] old(self).slots()[j]) is None
                        &&& final(self).slots() == old(self).slots().update(i, None)
                    },
                None => final(self).slots() == old(self).slots(),
            },
    {
        let mut index: usize = 0;
        while index < 3
            invariant
                0 <= index <= 3,
                *self == *old(self),
                old(self).wf(),
                forall|j: int| 0 <= j < index ==> (#[trigger] self.slots()[j]) is None,
            decreases 3 - index,
        {
            if let Some(frame) = self.0[index] {
                self.0[index] = None;
                proof {
                    let before = old(self).slots();
                    let after = self.slots();
                    assert(after == before.update(index as int, None));
                    assert(before[index as int] == Some(Frame { number: frame.number }));
                    assert forall|i: int, j: int|
                        0 <= i < j < 3 && (#[trigger] after[i]) is Some implies after[i]
                        != #[trigger] after[j] by {
                        assert(before[i] is Some);
                        assert(before[i] != before[j]);
                    }
                    assert forall|n: u64|
                        self.available().contains(n) == old(self).available().remove(
                            frame.number,
                        ).contains(n) by {
                        if old(self).available().contains(n) && n != frame.number {
                            let i = choose|i: int|
                                0 <= i < 3 && before[i] == Some(Frame { number: n });
                            assert(i != index);
                            assert(after[i] == Some(Frame { number: n }));
                        }
                        if self.available().contains(n) {
                            let i = choose|i: int|
                                0 <= i < 3 && after[i] == Some(Frame { number: n });
                            assert(i != index);
                            assert(before[i] == Some(Frame { number: n }));
                            if n == frame.number {
                                if i < index {
                                    assert(before[i] is None);
                                } else {
                                    assert(before[index as int] != before[i]);
                                }
                            }
                        }
                    }
                    assert(self.available() =~= old(self).available().remove(frame.number));
                    assert(old(self).slots()[index as int] == Some(Frame { number: frame.number }));
                    assert(old(self).available().contains(frame.number));
                }
                return Some(frame);
            }
            index += 1;
        }
        proof {
            assert forall|n: u64| !self.available().contains(n) by {
                if self.available().contains(n) {
                    let i = choose|i: int|
                        0 <= i < 3 && self.slots()[i] == Some(Frame { number: n });
                    assert(self.slots()[i] is None);
                }
            }
            assert(self.available() =~= Set::<u64>::empty());
        }
        None
    }

    /// Puts the frame into the first empty slot.
    fn deallocate_frame(&mut self, frame: Frame)
        ensures
            exists|i: int|
                {
                    &&& 0 <= i < 3
                    &&& #[trigger] old(self).slots()[i] is None
                    &&& forall|j: int| 0 <= j < i ==> (#[trigger] old(self).slots()[j]) is Some
                    &&& final(self).slots() == old(self).slots().update(i, Some(frame))
                },
    {
        assert(exists|i: int| 0 <= i < 3 && (#[trigger] self.slots()[i]) is None);
        match self.try_deallocate_frame(frame) {
            Ok(()) => {},
            Err(_) => vstd::pervasive::unreached(),
        }
    }
}

/// A page that is mapped for a while to whatever frame has to be reached,
/// with the pool that its mapping draws tables from.
pub struct TemporaryPage {
    page: Page,
    allocator: TinyAllocator,
}

impl TemporaryPage {
    /// The scratch page.
    pub closed spec fn page(&self) -> Page {
        self.page
    }

    /// The numbers of the frames in the pool.
    pub closed spec fn pool(&self) -> Set<u64> {
        self.allocator.available()
    }

    /// No frame is in the pool twice.
    pub closed spec fn pool_wf(&self) -> bool {
        self.allocator.wf()
    }

    /// The pool holds three frames.
    pub closed spec fn pool_full(&self) -> bool {
        self.allocator.is_full()
    }

    /// A full pool has a frame for each of the three tables that one
    /// mapping can need.
    pub proof fn lemma_full_pool(&self)
        requires
            self.wf(),
            self.pool_full(),
        ensures
            !fewer_than(self.pool(), 3),
    {
        let slots = self.allocator.slots();
        let a = slots[0]->Some_0.number;
        let b = slots[1]->Some_0.number;
        let c = slots[2]->Some_0.number;
        assert(slots[0] == Some(Frame { number: a }));
        assert(slots[1] == Some(Frame { number: b }));
        assert(slots[2] == Some(Frame { number: c }));
        assert(self.pool().contains(a) && self.pool().contains(b) && self.pool().contains(c));
        assert(slots[0] != slots[1] && slots[0] != slots[2] && slots[1] != slots[2]);
    }

    /// The scratch page has an address, lies outside the range of the
    /// recursive mapping, and the pool is sound.
    pub open spec fn wf(&self) -> bool {
        &&& self.page().number <= MAX_FRAME_NUMBER
        &&& !self.page().is_recursive()
        &&& self.pool_wf()
    }

    /// A scratch page at `page`, with a pool of up to three frames from
    /// `allocator`.
    pub fn new<A: FrameAllocator>(page: Page, allocator: &mut A) -> (temporary_page: TemporaryPage)
        requires
            page.number <= MAX_FRAME_NUMBER,
            !page.is_recursive(),
            old(allocator).wf(),
        ensures
            final(allocator).wf(),
            temporary_page.wf(),
            temporary_page.page() == page,
            temporary_page.pool().subset_of(old(allocator).available()),
            final(allocator).available() =~= old(allocator).available().difference(
                temporary_page.pool(),
            ),
            temporary_page.pool_full() || final(allocator).available() =~= Set::<u64>::empty(),
            at_most(temporary_page.pool(), 3),
    {
        TemporaryPage { page: page, allocator: TinyAllocator::new(allocator) }
    }

    /// Maps the scratch page to `frame` in the active hierarchy, writable,
    /// and returns the page's first address. The scratch page must not be
    /// mapped, and the pool must be able to pay for the tables that are
    /// missing on the way to it: see [`Mapper::can_map`].
    pub fn map(&mut self, frame: Frame, active_table: &mut ActivePageTable) -> (address:
        VirtualAddress)
        requires
            old(self).wf(),
            old(active_table).wf(),
            forall|n: u64| #[trigger]
                old(self).pool().contains(n) ==> !old(active_table).mapper.is_table(n) && n
                    != old(active_table).mapper@.cr3,
            old(active_table).mapper.translation(old(self).page()) == Ok::<
                Option<u64>,
                MemoryError,
            >(None),
            old(active_table).mapper.can_map(old(self).page(), frame.number, old(self).pool()),
        ensures
            final(self).wf(),
            final(self).page() == old(self).page(),
            final(active_table).wf(),
            final(self).pool().subset_of(old(self).pool()),
            forall|n: u64| #[trigger]
                final(self).pool().contains(n) ==> !final(active_table).mapper.is_table(n) && n
                    != final(active_table).mapper@.cr3,
            final(active_table).mapper.grown_from(
                &old(active_table).mapper,
                old(self).pool().difference(final(self).pool()),
            ),
            final(active_table).mapper.same_translations(
                &old(active_table).mapper,
                Some(old(self).page()),
            ),
            final(active_table).mapper.made_tables(
                &old(active_table).mapper,
                old(self).page(),
                old(self).pool(),
                final(self).pool(),
            ),
            final(active_table).mapper.translation(old(self).page()) == Ok::<
                Option<u64>,
                MemoryError,
            >(Some(frame.number)),
            final(active_table).mapper.mapping(old(self).page()) == Some(
                Entry(entry_value(frame.number, WRITABLE | PRESENT)),
            ),
            address == old(self).page().number * 4096,
    {
        match self.try_map(frame, active_table) {
            Ok(address) => address,
            Err(_) => vstd::pervasive::unreached(),
        }
    }

    /// Maps the scratch page to `frame` in the active hierarchy, writable,
    /// and returns the page's first address.
    ///
    /// Fails with `DoubleMapping` where the scratch page is mapped already,
    /// and as [`Mapper::try_map_to`] does.
    pub fn try_map(&mut self, frame: Frame, active_table: &mut ActivePageTable) -> (result: Result<
        VirtualAddress,
        MemoryError,
    >)
        requires
            old(self).wf(),
            old(active_table).wf(),
            forall|n: u64| #[trigger]
                old(self).pool().contains(n) ==> !old(active_table).mapper.is_table(n) && n
                    != old(active_table).mapper@.cr3,
        ensures
            final(self).wf(),
            final(self).page() == old(self).page(),
            final(active_table).wf(),
            final(self).pool().subset_of(old(self).pool()),
            forall|n: u64| #[trigger]
                final(self).pool().contains(n) ==> !final(active_table).mapper.is_table(n) && n
                    != final(active_table).mapper@.cr3,
            final(active_table).mapper.grown_from(
                &old(active_table).mapper,
                old(self).pool().difference(final(self).pool()),
            ),
            final(active_table).mapper.same_translations(
                &old(active_table).mapper,
                if result is Ok {
                    Some(old(self).page())
                } else {
                    None
                },
            ),
            old(active_table).mapper.has_tables(old(self).page()) ==> final(self).pool() == old(self).pool(),
            !(result matches Err(MemoryError::MisalignedFrame)) ==> final(active_table).mapper.made_tables(
                &old(active_table).mapper,
                old(self).page(),
                old(self).pool(),
                final(self).pool(),
            ),
            old(active_table).mapper.translation(old(self).page()) == Ok::<
                Option<u64>,
                MemoryError,
            >(None) && old(active_table).mapper.can_map(
                old(self).page(),
                frame.number,
                old(self).pool(),
            ) ==> result is Ok,
            match result {
                Ok(address) => {
                    &&& address == old(self).page().number * 4096
                    &&& frame.number < FRAME_NUMBER_LIMIT
                    &&& old(active_table).mapper.translation(old(self).page()) == Ok::<
                        Option<u64>,
                        MemoryError,
                    >(None)
                    &&& final(active_table).mapper.translation(old(self).page()) == Ok::<
                        Option<u64>,
                        MemoryError,
                    >(Some(frame.number))
                    &&& final(active_table).mapper.mapping(old(self).page()) == Some(
                        Entry(entry_value(frame.number, WRITABLE | PRESENT)),
                    )
                },
                Err(e) => match e {
                    MemoryError::DoubleMapping => {
                        ||| old(active_table).mapper.translation(old(self).page()) matches Ok(
                            Some(_),
                        )
                        ||| old(active_table).mapper.slot(old(self).page()).0 != 0
                    },
                    MemoryError::MisalignedFrame => {
                        ||| old(active_table).mapper.translation(old(self).page()) is Err
                        ||| frame.number >= FRAME_NUMBER_LIMIT
                        ||| exists|n: u64|
                            n >= FRAME_NUMBER_LIMIT && #[trigger] old(self).pool().contains(n)
                                && !final(self).pool().contains(n)
                    },
                    MemoryError::UnsupportedHugePage => old(active_table).mapper.huge_in_way(
                        old(self).page(),
                    ),
                    MemoryError::FramesExhausted => {
                        &&& final(self).pool() =~= Set::<u64>::empty()
                        &&& !old(active_table).mapper.has_tables(old(self).page())
                        &&& fewer_than(
                            old(self).pool(),
                            old(active_table).mapper.missing_tables(old(self).page()),
                        )
                    },
                    _ => false,
                },
            },
    {
        match active_table.mapper.try_translate_page(self.page) {
            Ok(None) => {},
            Ok(Some(_)) => {
                proof {
                    active_table.mapper.lemma_grown_refl(
                        old(self).pool().difference(self.pool()),
                    );
                }
                return Err(MemoryError::DoubleMapping);
            },
            Err(e) => {
                proof {
                    reveal(crate::memory::paging::mapper::translate_page_spec);
                    active_table.mapper.lemma_grown_refl(
                        old(self).pool().difference(self.pool()),
                    );
                }
                return Err(e);
            },
        }
        proof {
            assert(self.pool() == self.allocator.available());
            assert forall|n: u64| #[trigger]
                self.allocator.available().contains(n) implies !active_table.mapper.is_table(n)
                && n != active_table.mapper@.cr3 by {
                assert(old(self).pool().contains(n));
            }
        }
        match active_table.mapper.try_map_to(
            self.page,
            frame,
            EntryFlags::writable(),
            &mut self.allocator,
        ) {
            Ok(()) => {},
            Err(e) => {
                return Err(e);
            },
        }
        Ok(self.page.start_address())
    }

    /// Unmaps the scratch page, which must be mapped, in the active
    /// hierarchy.
    pub fn unmap(&mut self, active_table: &mut ActivePageTable)
        requires
            old(self).wf(),
            old(active_table).mapper.wf(),
            old(active_table).mapper.mapping(old(self).page()) is Some,
        ensures
            *final(self) == *old(self),
            final(active_table).mapper.wf(),
            final(active_table).mapper@.cr3 == old(active_table).mapper@.cr3,
            final(active_table).mapper.root() == old(active_table).mapper.root(),
            forall|f: u64|
                final(active_table).mapper.is_table(f) == old(active_table).mapper.is_table(f),
            final(active_table).mapper.untouched_outside(&old(active_table).mapper),
            final(active_table).mapper.translation(old(self).page()) == Ok::<
                Option<u64>,
                MemoryError,
            >(None),
            final(active_table).mapper@.tlb == old(active_table).mapper@.tlb.remove(
                old(self).page().number,
            ),
            final(active_table).mapper.same_translations(
                &old(active_table).mapper,
                Some(old(self).page()),
            ),
            final(active_table).mapper.has_tables(old(self).page()),
            final(active_table).mapper.slot(old(self).page()).0 == 0,
    {
        proof {
            active_table.mapper.lemma_mapping_facts(self.page);
        }
        match self.try_unmap(active_table) {
            Ok(()) => {},
            Err(_) => vstd::pervasive::unreached(),
        }
    }

    /// Unmaps the scratch page in the active hierarchy.
    pub fn try_unmap(&mut self, active_table: &mut ActivePageTable) -> (result: Result<(), MemoryError>)
        requires
            old(self).wf(),
            old(active_table).mapper.wf(),
        ensures
            *final(self) == *old(self),
            final(active_table).mapper.wf(),
            final(active_table).mapper@.cr3 == old(active_table).mapper@.cr3,
            final(active_table).mapper.root() == old(active_table).mapper.root(),
            forall|f: u64|
                final(active_table).mapper.is_table(f) == old(active_table).mapper.is_table(f),
            final(active_table).mapper.untouched_outside(&old(active_table).mapper),
            old(active_table).mapper.mapping(old(self).page()) is Some <==> result is Ok,
            match result {
                Ok(()) => {
                    &&& old(active_table).mapper.mapping(old(self).page()) is Some
                    &&& final(active_table).mapper.translation(old(self).page()) == Ok::<
                        Option<u64>,
                        MemoryError,
                    >(None)
                    &&& final(active_table).mapper@.tlb == old(active_table).mapper@.tlb.remove(
                        old(self).page().number,
                    )
                    &&& final(active_table).mapper.same_translations(
                        &old(active_table).mapper,
                        Some(old(self).page()),
                    )
                    &&& final(active_table).mapper.has_tables(old(self).page())
                    &&& final(active_table).mapper.slot(old(self).page()).0 == 0
                },
                Err(e) => {
                    &&& final(active_table).mapper@ == old(active_table).mapper@
                    &&& match e {
                        MemoryError::UnmappedUnmap => old(active_table).mapper.translation(
                            old(self).page(),
                        ) == Ok::<Option<u64>, MemoryError>(None),
                        MemoryError::MisalignedFrame => old(active_table).mapper.translation(
                            old(self).page(),
                        ) is Err,
                        MemoryError::UnsupportedHugePage => {
                            &&& old(active_table).mapper.translation(old(self).page()) matches Ok(
                                Some(_),
                            )
                            &&& old(active_table).mapper.mapping(old(self).page()) is None
                        },
                        _ => false,
                    }
                },
            },
    {
        active_table.mapper.try_unmap(self.page, &mut self.allocator)
    }

    /// Maps the scratch page to `frame`, under the conditions of
    /// [`TemporaryPage::map`], and returns the frame as a table of the
    /// first level: no table of a next level can be reached from it.
    pub fn map_table_frame(&mut self, frame: Frame, active_table: &mut ActivePageTable) -> (table:
        Table<Level1>)
        requires
            old(self).wf(),
            old(active_table).wf(),
            forall|n: u64| #[trigger]
                old(self).pool().contains(n) ==> !old(active_table).mapper.is_table(n) && n
                    != old(active_table).mapper@.cr3,
            old(active_table).mapper.translation(old(self).page()) == Ok::<
                Option<u64>,
                MemoryError,
            >(None),
            old(active_table).mapper.can_map(old(self).page(), frame.number, old(self).pool()),
        ensures
            final(self).wf(),
            final(self).page() == old(self).page(),
            final(active_table).wf(),
            final(self).pool().subset_of(old(self).pool()),
            forall|n: u64| #[trigger]
                final(self).pool().contains(n) ==> !final(active_table).mapper.is_table(n) && n
                    != final(active_table).mapper@.cr3,
            final(active_table).mapper.grown_from(
                &old(active_table).mapper,
                old(self).pool().difference(final(self).pool()),
            ),
            final(active_table).mapper.same_translations(
                &old(active_table).mapper,
                Some(old(self).page()),
            ),
            final(active_table).mapper.made_tables(
                &old(active_table).mapper,
                old(self).page(),
                old(self).pool(),
                final(self).pool(),
            ),
            final(active_table).mapper.translation(old(self).page()) == Ok::<
                Option<u64>,
                MemoryError,
            >(Some(frame.number)),
            final(active_table).mapper.mapping(old(self).page()) == Some(
                Entry(entry_value(frame.number, WRITABLE | PRESENT)),
            ),
            table.address() == old(self).page().number * 4096,
            table.valid(final(active_table).mapper@),
            table.frame(final(active_table).mapper@) == frame.number,
    {
        match self.try_map_table_frame(frame, active_table) {
            Ok(table) => table,
            Err(_) => vstd::pervasive::unreached(),
        }
    }

    /// Maps the scratch page to `frame` and returns the frame as a table of
    /// the first level: no table of a next level can be reached from it.
    pub fn try_map_table_frame(&mut self, frame: Frame, active_table: &mut ActivePageTable) -> (result:
        Result<Table<Level1>, MemoryError>)
        requires
            old(self).wf(),
            old(active_table).wf(),
            forall|n: u64| #[trigger]
                old(self).pool().contains(n) ==> !old(active_table).mapper.is_table(n) && n
                    != old(active_table).mapper@.cr3,
        ensures
            final(self).wf(),
            final(self).page() == old(self).page(),
            final(active_table).wf(),
            final(self).pool().subset_of(old(self).pool()),
            forall|n: u64| #[trigger]
                final(self).pool().contains(n) ==> !final(active_table).mapper.is_table(n) && n
                    != final(active_table).mapper@.cr3,
            final(active_table).mapper.grown_from(
                &old(active_table).mapper,
                old(self).pool().difference(final(self).pool()),
            ),
            final(active_table).mapper.same_translations(
                &old(active_table).mapper,
                if result is Ok {
                    Some(old(self).page())
                } else {
                    None
                },
            ),
            old(active_table).mapper.has_tables(old(self).page()) ==> final(self).pool() == old(self).pool(),
            !(result matches Err(MemoryError::MisalignedFrame)) ==> final(active_table).mapper.made_tables(
                &old(active_table).mapper,
                old(self).page(),
                old(self).pool(),
                final(self).pool(),
            ),
            old(active_table).mapper.translation(old(self).page()) == Ok::<
                Option<u64>,
                MemoryError,
            >(None) && old(active_table).mapper.can_map(
                old(self).page(),
                frame.number,
                old(self).pool(),
            ) ==> result is Ok,
            match result {
                Ok(table) => {
                    &&& table.address() == old(self).page().number * 4096
                    &&& table.valid(final(active_table).mapper@)
                    &&& table.frame(final(active_table).mapper@) == frame.number
                    &&& frame.number < FRAME_NUMBER_LIMIT
                    &&& old(active_table).mapper.translation(old(self).page()) == Ok::<
                        Option<u64>,
                        MemoryError,
                    >(None)
                    &&& final(active_table).mapper.translation(old(self).page()) == Ok::<
                        Option<u64>,
                        MemoryError,
                    >(Some(frame.number))
                    &&& final(active_table).mapper.mapping(old(self).page()) == Some(
                        Entry(entry_value(frame.number, WRITABLE | PRESENT)),
                    )
                },
                Err(e) => match e {
                    MemoryError::DoubleMapping => {
                        ||| old(active_table).mapper.translation(old(self).page()) matches Ok(
                            Some(_),
                        )
                        ||| old(active_table).mapper.slot(old(self).page()).0 != 0
                    },
                    MemoryError::MisalignedFrame => {
                        ||| old(active_table).mapper.translation(old(self).page()) is Err
                        ||| frame.number >= FRAME_NUMBER_LIMIT
                        ||| exists|n: u64|
                            n >= FRAME_NUMBER_LIMIT && #[trigger] old(self).pool().contains(n)
                                && !final(self).pool().contains(n)
                    },
                    MemoryError::UnsupportedHugePage => old(active_table).mapper.huge_in_way(
                        old(self).page(),
                    ),
                    MemoryError::FramesExhausted => {
                        &&& final(self).pool() =~= Set::<u64>::empty()
                        &&& !old(active_table).mapper.has_tables(old(self).page())
                        &&& fewer_than(
                            old(self).pool(),
                            old(active_table).mapper.missing_tables(old(self).page()),
                        )
                    },
                    _ => false,
                },
            },
    {
        match self.try_map(frame, active_table) {
            Ok(address) => {
                proof {
                    reveal(crate::memory::paging::mapper::leaf_entry);
                    lemma_link_entry(frame.number);
                    let mv = active_table.mapper@;
                    let w = walk(mv.mem, mv.cr3, self.page.number);
                    assert(w.e1 == Entry(entry_value(frame.number, WRITABLE | PRESENT)));
                }
                Ok(Table::at(address))
            },
            Err(e) => Err(e),
        }
    }
}

} // verus!
