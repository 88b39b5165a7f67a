//! Pages, and the page tables of the running machine.
use vstd::prelude::*;
use crate::memory::boot_info::{BootInformation, ElfSection};
use crate::memory::machine::Machine;
use crate::memory::paging::entry::{entry_value, Entry, EntryFlags, PRESENT, WRITABLE};
use crate::memory::paging::mapper::{
    at_most, kept, lemma_at_most_steps, lemma_fewer_rises, lemma_kept_page, lemma_kept_trans,
    leaf_entry,
    translate_page_spec, InactivePageTable, Mapper, ParkedTable,
};
use crate::memory::paging::temporary_page::TemporaryPage;
use crate::memory::{Frame, FrameAllocator, MemoryError, MAX_FRAME_NUMBER, PAGE_SIZE};

pub mod entry;
pub mod mapper;
pub mod table;
pub mod temporary_page;

verus! {

/// Number of entries in a page table.
pub const ENTRY_COUNT: u64 = 512;

/// A virtual address.
pub type VirtualAddress = u64;

/// First address of the range that the recursive mapping reserves: the
/// pages whose translation starts at the last entry of the root table.
pub const RECURSIVE_START: u64 = 0x0000_ff80_0000_0000;

/// Number of the first page of the range that the recursive mapping
/// reserves.
pub const RECURSIVE_FIRST_PAGE: u64 = 0xf_f800_0000;

/// Physical address of the text buffer of the console.
pub const VGA_BUFFER: u64 = 0xb8000;

/// Number of the scratch page that the remapping uses.
pub const SCRATCH_PAGE: u64 = 0xcafebabe;

/// A 4 KiB unit of virtual address space, identified by its index.
#[derive(Debug, Clone, Copy, PartialEq, Eq, Structural)]
pub struct Page {
    pub number: u64,
}

/// The four table indices that a page number selects, from the root down.
/// Only the low 36 bits of a page number take part in a translation.
pub open spec fn index4(number: u64) -> u64 {
    (number / 0x800_0000) % 512
}

pub open spec fn index3(number: u64) -> u64 {
    (number / 0x4_0000) % 512
}

pub open spec fn index2(number: u64) -> u64 {
    (number / 512) % 512
}

pub open spec fn index1(number: u64) -> u64 {
    number % 512
}

/// The shifts and masks of the index functions, as arithmetic.
pub proof fn lemma_index_bits(number: u64)
    by (bit_vector)
    ensures
        (number >> 27) & 0x1ff == (number / 0x800_0000) % 512,
        (number >> 18) & 0x1ff == (number / 0x4_0000) % 512,
        (number >> 9) & 0x1ff == (number / 512) % 512,
        (number >> 0) & 0x1ff == number % 512,
{
}

impl Page {
    /// The page that holds the virtual address.
    pub fn containing_address(address: VirtualAddress) -> (page: Page)
        ensures
            page.number == address / PAGE_SIZE,
            page.number <= MAX_FRAME_NUMBER,
    {
        Page { number: address / PAGE_SIZE }
    }

    /// The first virtual address of the page.
    pub fn start_address(&self) -> (address: VirtualAddress)
        requires
            self.number <= MAX_FRAME_NUMBER,
        ensures
            address == self.number * PAGE_SIZE,
    {
        self.number * PAGE_SIZE
    }

    /// Two pages select the same slot of the hierarchy.
    pub open spec fn same_slot(&self, other: Page) -> bool {
        &&& index4(self.number) == index4(other.number)
        &&& index3(self.number) == index3(other.number)
        &&& index2(self.number) == index2(other.number)
        &&& index1(self.number) == index1(other.number)
    }

    /// The page lies in the range that the recursive mapping reserves: its
    /// translation starts at the last entry of the root table.
    pub open spec fn is_recursive(&self) -> bool {
        index4(self.number) == 511
    }

    /// Index into the root table.
    pub fn p4_index(&self) -> (index: usize)
        ensures
            index == index4(self.number),
            index < 512,
    {
        proof {
            lemma_index_bits(self.number);
        }
        ((self.number >> 27) & 0o777) as usize
    }

    /// Index into the table of the third level.
    pub fn p3_index(&self) -> (index: usize)
        ensures
            index == index3(self.number),
            index < 512,
    {
        proof {
            lemma_index_bits(self.number);
        }
        ((self.number >> 18) & 0o777) as usize
    }

    /// Index into the table of the second level.
    pub fn p2_index(&self) -> (index: usize)
        ensures
            index == index2(self.number),
            index < 512,
    {
        proof {
            lemma_index_bits(self.number);
        }
        ((self.number >> 9) & 0o777) as usize
    }

    /// Index into the table of the first level.
    pub fn p1_index(&self) -> (index: usize)
        ensures
            index == index1(self.number),
            index < 512,
    {
        proof {
            lemma_index_bits(self.number);
        }
        ((self.number >> 0) & 0o777) as usize
    }

    /// The pages from `start` to `end`, both included, in rising order.
    pub fn range_inclusive(start: Page, end: Page) -> (iter: PageIter)
        ensures
            iter.start == start,
            iter.end == end,
    {
        PageIter { start, end }
    }
}

/// A walk over a range of pages: `start` is the next page to hand out and
/// `end` the last one.
pub struct PageIter {
    pub start: Page,
    pub end: Page,
}

impl PageIter {
    /// Hands out the next page of the range, or `None` once the range is
    /// used up.
    pub fn next(&mut self) -> (page: Option<Page>)
        requires
            old(self).end.number < u64::MAX,
        ensures
            final(self).end == old(self).end,
            match page {
                Some(p) => {
                    &&& old(self).start.number <= old(self).end.number
                    &&& p == old(self).start
                    &&& final(self).start.number == old(self).start.number + 1
                },
                None => {
                    &&& old(self).start.number > old(self).end.number
                    &&& final(self).start == old(self).start
                },
            },
    {
        if self.start.number <= self.end.number {
            let page = self.start;
            self.start.number += 1;
            Some(page)
        } else {
            None
        }
    }
}

/// The hierarchy that the processor uses.
pub struct ActivePageTable {
    pub mapper: Mapper,
}

impl ActivePageTable {
    /// The hierarchy is sound, and it is the one that the root register
    /// names.
    pub open spec fn wf(&self) -> bool {
        self.mapper.wf() && self.mapper.active()
    }

    /// Takes over a machine whose root table holds the recursive entry and
    /// nothing else. `None` where the root table is not of that form.
    pub fn new(machine: Machine) -> (table: Option<ActivePageTable>)
        ensures
            table is Some <==> crate::memory::paging::mapper::recursive_only(machine@),
            table matches Some(t) ==> {
                &&& t.wf()
                &&& t.mapper@ == machine@
                &&& forall|f: u64| t.mapper.is_table(f) <==> f == machine@.cr3
                &&& forall|page: Page|
                    !page.is_recursive() ==> #[trigger] t.mapper.translation(page) == Ok::<
                        Option<u64>,
                        MemoryError,
                    >(None)
            },
    {
        match Mapper::new(machine) {
            Some(mapper) => Some(ActivePageTable { mapper }),
            None => None,
        }
    }

    /// A machine in the state in which the boot code hands over: the root
    /// table in frame `p4` with the recursive entry, and the first GiB
    /// mapped to itself with 2 MiB pages through the tables in `p3` and
    /// `p2`. `None` unless the three frames differ and fit an entry.
    pub fn boot(p4: Frame, p3: Frame, p2: Frame) -> (table: Option<ActivePageTable>)
        ensures
            table is Some <==> {
                &&& p4.number < crate::memory::paging::entry::FRAME_NUMBER_LIMIT
                &&& p3.number < crate::memory::paging::entry::FRAME_NUMBER_LIMIT
                &&& p2.number < crate::memory::paging::entry::FRAME_NUMBER_LIMIT
                &&& p4 != p3
                &&& p4 != p2
                &&& p3 != p2
            },
            table matches Some(t) ==> {
                &&& t.wf()
                &&& t.mapper@.cr3 == p4.number
                &&& t.mapper@.tlb == Map::<u64, u64>::empty()
                &&& crate::memory::paging::mapper::boot_tables(
                    t.mapper@.mem,
                    p4.number,
                    p3.number,
                    p2.number,
                )
                &&& forall|f: u64| t.mapper.is_table(f) <==> f == p4.number || f == p3.number || f
                    == p2.number
                &&& forall|page: Page|
                    !page.is_recursive() ==> {
                        &&& #[trigger] t.mapper.translation(page) == if page.number
                            % 0x10_0000_0000 < 0x4_0000 {
                            Ok::<Option<u64>, MemoryError>(
                                Some((page.number % 0x10_0000_0000) as u64),
                            )
                        } else {
                            Ok(None)
                        }
                        &&& t.mapper.mapping(page) is None
                    }
            },
    {
        match Mapper::boot(p4, p3, p2) {
            Some(mapper) => Some(ActivePageTable { mapper }),
            None => None,
        }
    }

    /// First half of working on a hierarchy at rest: lets the recursive
    /// mapping show `table`, with the active root table mapped at the
    /// scratch page. The scratch page must be free, and the pool must be
    /// able to pay for the tables that are missing on the way to it.
    pub fn with_begin(&mut self, table: InactivePageTable, temporary_page: &mut TemporaryPage) -> (parked:
        ParkedTable)
        requires
            old(self).wf(),
            old(temporary_page).wf(),
            table.wf(old(self).mapper@.mem),
            forall|n: u64| #[trigger]
                old(temporary_page).pool().contains(n) ==> !old(self).mapper.is_table(n) && n
                    != old(self).mapper@.cr3 && !table.is_table(n),
            forall|f: u64| #[trigger] table.is_table(f) ==> !old(self).mapper.is_table(f),
            old(self).mapper.translation(old(temporary_page).page()) == Ok::<
                Option<u64>,
                MemoryError,
            >(None),
            old(self).mapper.can_map(
                old(temporary_page).page(),
                old(self).mapper@.cr3,
                old(temporary_page).pool(),
            ),
        ensures
            final(temporary_page).wf(),
            final(temporary_page).page() == old(temporary_page).page(),
            final(temporary_page).pool().subset_of(old(temporary_page).pool()),
            final(self).mapper@.cr3 == old(self).mapper@.cr3,
            final(self).mapper.wf(),
            final(self).mapper.root() == table.frame().number,
            final(self).mapper.root() != final(self).mapper@.cr3,
            final(self).mapper@.tlb == Map::<u64, u64>::empty(),
            forall|f: u64| final(self).mapper.is_table(f) == table.is_table(f),
            kept(
                old(self).mapper@.mem,
                table.frame().number,
                final(self).mapper@.mem,
                table.frame().number,
            ),
            parked.frame().number == old(self).mapper@.cr3,
            parked.window_page() == old(temporary_page).page().number,
            parked.wf(final(self).mapper@.mem),
            forall|f: u64|
                #[trigger] parked.is_table(f) ==> old(self).mapper.is_table(f) || (old(temporary_page).pool().contains(f) && !final(temporary_page).pool().contains(f)),
            forall|f: u64| old(self).mapper.is_table(f) ==> #[trigger] parked.is_table(f),
    {
        match self.try_with_begin(table, temporary_page) {
            Ok(parked) => parked,
            Err(_) => vstd::pervasive::unreached(),
        }
    }

    /// First half of working on a hierarchy at rest: lets the recursive
    /// mapping show `table`. The active root table is mapped at the scratch
    /// page first, so that its recursive entry can be put back later.
    /// Until [`ActivePageTable::with_end`], `self.mapper` works on `table`.
    /// Fails as [`TemporaryPage::try_map`] does.
    pub fn try_with_begin(
        &mut self,
        table: InactivePageTable,
        temporary_page: &mut TemporaryPage,
    ) -> (result: Result<ParkedTable, MemoryError>)
        requires
            old(self).wf(),
            old(temporary_page).wf(),
            table.wf(old(self).mapper@.mem),
            forall|n: u64| #[trigger]
                old(temporary_page).pool().contains(n) ==> !old(self).mapper.is_table(n) && n
                    != old(self).mapper@.cr3 && !table.is_table(n),
            forall|f: u64| #[trigger] table.is_table(f) ==> !old(self).mapper.is_table(f),
        ensures
            final(temporary_page).wf(),
            final(temporary_page).page() == old(temporary_page).page(),
            final(temporary_page).pool().subset_of(old(temporary_page).pool()),
            final(self).mapper@.cr3 == old(self).mapper@.cr3,
            result matches Ok(parked) ==> {
                &&& final(self).mapper.wf()
                &&& final(self).mapper.root() == table.frame().number
                &&& final(self).mapper.root() != final(self).mapper@.cr3
                &&& final(self).mapper@.tlb == Map::<u64, u64>::empty()
                &&& forall|f: u64| final(self).mapper.is_table(f) == table.is_table(f)
                &&& kept(
                    old(self).mapper@.mem,
                    table.frame().number,
                    final(self).mapper@.mem,
                    table.frame().number,
                )
                &&& parked.frame().number == old(self).mapper@.cr3
                &&& parked.window_page() == old(temporary_page).page().number
                &&& parked.wf(final(self).mapper@.mem)
                &&& forall|f: u64|
                    #[trigger] parked.is_table(f) ==> old(self).mapper.is_table(f) || (old(temporary_page).pool().contains(f) && !final(temporary_page).pool().contains(f))
                &&& forall|f: u64| old(self).mapper.is_table(f) ==> #[trigger] parked.is_table(f)
            },
            old(self).mapper.translation(old(temporary_page).page()) == Ok::<
                Option<u64>,
                MemoryError,
            >(None) && old(self).mapper.can_map(
                old(temporary_page).page(),
                old(self).mapper@.cr3,
                old(temporary_page).pool(),
            ) ==> result is Ok,
            result matches Err(e) ==> match e {
                MemoryError::DoubleMapping => {
                    ||| old(self).mapper.translation(old(temporary_page).page()) matches Ok(
                        Some(_),
                    )
                    ||| old(self).mapper.slot(old(temporary_page).page()).0 != 0
                },
                MemoryError::MisalignedFrame => {
                    ||| old(self).mapper.translation(old(temporary_page).page()) is Err
                    ||| old(self).mapper@.cr3 >= crate::memory::paging::entry::FRAME_NUMBER_LIMIT
                    ||| exists|n: u64|
                        n >= crate::memory::paging::entry::FRAME_NUMBER_LIMIT && #[trigger] old(temporary_page).pool().contains(n) && !final(temporary_page).pool().contains(n)
                },
                MemoryError::UnsupportedHugePage => old(self).mapper.huge_in_way(
                    old(temporary_page).page(),
                ),
                MemoryError::FramesExhausted => {
                    &&& final(temporary_page).pool() =~= Set::<u64>::empty()
                    &&& !old(self).mapper.has_tables(old(temporary_page).page())
                    &&& crate::memory::paging::mapper::fewer_than(
                        old(temporary_page).pool(),
                        old(self).mapper.missing_tables(old(temporary_page).page()),
                    )
                },
                _ => false,
            },
    {
        let ghost s0 = self.mapper;
        let backup = self.mapper.machine().cr3();
        let p4_table = match temporary_page.try_map_table_frame(backup, self) {
            Ok(table) => table,
            Err(e) => {
                return Err(e);
            },
        };
        proof {
            let s1 = self.mapper;
            let given = old(temporary_page).pool().difference(temporary_page.pool());
            assert forall|f: u64| table.is_table(f) implies !s1.is_table(f) by {
                s1.lemma_grown(&s0, given, f, 0);
            }
            table.lemma_rest_kept(&s0, &s1);
            assert(index4(temporary_page.page().number) != 511);
        }
        let ghost s1 = self.mapper;
        let parked = self.mapper.redirect(table, p4_table);
        proof {
            let given = old(temporary_page).pool().difference(temporary_page.pool());
            lemma_kept_trans(
                s0@.mem,
                table.frame().number,
                s1@.mem,
                table.frame().number,
                self.mapper@.mem,
                table.frame().number,
            );
            InactivePageTable::lemma_tables_from_pool(
                &s0,
                &s1,
                old(temporary_page).pool(),
                temporary_page.pool(),
            );
        }
        Ok(parked)
    }

    /// Second half of working on a hierarchy at rest: puts the recursive
    /// entry of the active root table back, unmaps the scratch page, and
    /// hands back the hierarchy that the recursive mapping showed.
    pub fn with_end(&mut self, parked: ParkedTable, temporary_page: &mut TemporaryPage) -> (table:
        InactivePageTable)
        requires
            old(self).mapper.wf(),
            old(self).mapper@.cr3 == parked.frame().number,
            old(self).mapper.root() != old(self).mapper@.cr3,
            parked.wf(old(self).mapper@.mem),
            forall|f: u64| #[trigger] parked.is_table(f) ==> !old(self).mapper.is_table(f),
            old(temporary_page).wf(),
            parked.window_page() == old(temporary_page).page().number,
        ensures
            *final(temporary_page) == *old(temporary_page),
            final(self).mapper@.cr3 == old(self).mapper@.cr3,
            final(self).wf(),
            forall|f: u64| final(self).mapper.is_table(f) == parked.is_table(f),
            table.frame().number == old(self).mapper.root(),
            table.wf(final(self).mapper@.mem),
            forall|f: u64| table.is_table(f) == old(self).mapper.is_table(f),
            kept(
                old(self).mapper@.mem,
                old(self).mapper.root(),
                final(self).mapper@.mem,
                table.frame().number,
            ),
    {
        let ghost s0 = self.mapper;
        let table = self.mapper.restore(parked);
        let ghost s1 = self.mapper;
        proof {
            s1.lemma_mapping_facts(temporary_page.page());
        }
        temporary_page.unmap(self);
        proof {
            let s2 = self.mapper;
            assert forall|f: u64| table.is_table(f) implies !s2.is_table(f) by {
                assert(s0.is_table(f));
                assert(!parked.is_table(f));
                assert(!s1.is_table(f));
            }
            table.lemma_rest_kept(&s1, &s2);
            lemma_kept_trans(
                s0@.mem,
                s0.root(),
                s1@.mem,
                s0.root(),
                s2@.mem,
                s0.root(),
            );
        }
        table
    }

    /// Makes `new_table` the hierarchy that the processor uses and hands
    /// back the one that was in use, at rest.
    pub fn switch(&mut self, new_table: InactivePageTable) -> (old_table: InactivePageTable)
        requires
            old(self).wf(),
            new_table.wf(old(self).mapper@.mem),
            forall|f: u64| new_table.is_table(f) ==> !old(self).mapper.is_table(f),
        ensures
            final(self).wf(),
            final(self).mapper@.cr3 == new_table.frame().number,
            final(self).mapper@.tlb == Map::<u64, u64>::empty(),
            final(self).mapper@.mem == old(self).mapper@.mem,
            forall|f: u64| final(self).mapper.is_table(f) == new_table.is_table(f),
            old_table.frame().number == old(self).mapper@.cr3,
            old_table.wf(final(self).mapper@.mem),
            forall|f: u64| old_table.is_table(f) == old(self).mapper.is_table(f),
    {
        self.mapper.switch(new_table)
    }
}

impl InactivePageTable {
    /// A fresh hierarchy with its root table in `frame`: the frame is
    /// reached through the scratch page, cleared, and given the recursive
    /// entry. The frame must not be in use as a table, nor wait in the pool
    /// of the scratch page; the scratch page must be free, and the pool
    /// must be able to pay for the tables that are missing on the way to
    /// it. No page outside the range of the recursive mapping is mapped in
    /// the new hierarchy.
    pub fn new(
        frame: Frame,
        active_table: &mut ActivePageTable,
        temporary_page: &mut TemporaryPage,
    ) -> (table: InactivePageTable)
        requires
            old(active_table).wf(),
            old(temporary_page).wf(),
            !old(active_table).mapper.is_table(frame.number),
            !old(temporary_page).pool().contains(frame.number),
            forall|n: u64| #[trigger]
                old(temporary_page).pool().contains(n) ==> !old(active_table).mapper.is_table(n)
                    && n != old(active_table).mapper@.cr3,
            old(active_table).mapper.translation(old(temporary_page).page()) == Ok::<
                Option<u64>,
                MemoryError,
            >(None),
            old(active_table).mapper.can_map(
                old(temporary_page).page(),
                frame.number,
                old(temporary_page).pool(),
            ),
        ensures
            final(active_table).wf(),
            final(temporary_page).wf(),
            final(temporary_page).page() == old(temporary_page).page(),
            final(temporary_page).pool().subset_of(old(temporary_page).pool()),
            final(active_table).mapper@.cr3 == old(active_table).mapper@.cr3,
            forall|n: u64| #[trigger]
                final(temporary_page).pool().contains(n) ==> !final(active_table).mapper.is_table(
                    n,
                ),
            forall|f: u64|
                #[trigger] final(active_table).mapper.is_table(f) ==> old(active_table).mapper.is_table(f) || (old(temporary_page).pool().contains(f) && !final(temporary_page).pool().contains(f)),
            table.frame() == frame,
            crate::memory::paging::mapper::plain(final(active_table).mapper@.mem, frame.number),
            final(active_table).mapper.has_tables(old(temporary_page).page()),
            final(active_table).mapper.slot(old(temporary_page).page()).0 == 0,
            final(active_table).mapper.translation(old(temporary_page).page()) == Ok::<
                Option<u64>,
                MemoryError,
            >(None),
            table.wf(final(active_table).mapper@.mem),
            forall|f: u64| table.is_table(f) <==> f == frame.number,
            forall|q: u64|
                index4(q) != 511 ==> {
                    &&& #[trigger] translate_page_spec(
                        final(active_table).mapper@.mem,
                        frame.number,
                        q,
                    ) == Ok::<Option<u64>, MemoryError>(None)
                    &&& leaf_entry(final(active_table).mapper@.mem, frame.number, q)
                        == None::<Entry>
                },
    {
        match Self::try_new(frame, active_table, temporary_page) {
            Ok(table) => table,
            Err(_) => vstd::pervasive::unreached(),
        }
    }

    /// A fresh hierarchy with its root table in `frame`: the frame is
    /// reached through the scratch page, cleared, and given the recursive
    /// entry. The frame must not be in use as a table, nor wait in the pool
    /// of the scratch page. No page outside the range of the recursive
    /// mapping is mapped in the new hierarchy. Fails as
    /// [`TemporaryPage::try_map`] does.
    pub fn try_new(
        frame: Frame,
        active_table: &mut ActivePageTable,
        temporary_page: &mut TemporaryPage,
    ) -> (result: Result<InactivePageTable, MemoryError>)
        requires
            old(active_table).wf(),
            old(temporary_page).wf(),
            !old(active_table).mapper.is_table(frame.number),
            !old(temporary_page).pool().contains(frame.number),
            forall|n: u64| #[trigger]
                old(temporary_page).pool().contains(n) ==> !old(active_table).mapper.is_table(n)
                    && n != old(active_table).mapper@.cr3,
        ensures
            final(active_table).wf(),
            final(temporary_page).wf(),
            final(temporary_page).page() == old(temporary_page).page(),
            final(temporary_page).pool().subset_of(old(temporary_page).pool()),
            final(active_table).mapper@.cr3 == old(active_table).mapper@.cr3,
            forall|n: u64| #[trigger]
                final(temporary_page).pool().contains(n) ==> !final(active_table).mapper.is_table(
                    n,
                ),
            forall|f: u64|
                #[trigger] final(active_table).mapper.is_table(f) ==> old(active_table).mapper.is_table(f) || (old(temporary_page).pool().contains(f) && !final(temporary_page).pool().contains(f)),
            result matches Ok(table) ==> {
                &&& table.frame() == frame
                &&& crate::memory::paging::mapper::plain(
                    final(active_table).mapper@.mem,
                    frame.number,
                )
                &&& final(active_table).mapper.has_tables(old(temporary_page).page())
                &&& final(active_table).mapper.slot(old(temporary_page).page()).0 == 0
                &&& final(active_table).mapper.translation(old(temporary_page).page()) == Ok::<
                    Option<u64>,
                    MemoryError,
                >(None)
                &&& table.wf(final(active_table).mapper@.mem)
                &&& forall|f: u64| table.is_table(f) <==> f == frame.number
                &&& forall|q: u64|
                    index4(q) != 511 ==> {
                        &&& #[trigger] translate_page_spec(
                            final(active_table).mapper@.mem,
                            frame.number,
                            q,
                        ) == Ok::<Option<u64>, MemoryError>(None)
                        &&& leaf_entry(final(active_table).mapper@.mem, frame.number, q)
                            == None::<Entry>
                    }
            },
            old(active_table).mapper.translation(old(temporary_page).page()) == Ok::<
                Option<u64>,
                MemoryError,
            >(None) && old(active_table).mapper.can_map(
                old(temporary_page).page(),
                frame.number,
                old(temporary_page).pool(),
            ) ==> result is Ok,
            result matches Err(e) ==> match e {
                MemoryError::DoubleMapping => {
                    ||| old(active_table).mapper.translation(old(temporary_page).page()) matches Ok(
                        Some(_),
                    )
                    ||| old(active_table).mapper.slot(old(temporary_page).page()).0 != 0
                },
                MemoryError::MisalignedFrame => {
                    ||| old(active_table).mapper.translation(old(temporary_page).page()) is Err
                    ||| frame.number >= crate::memory::paging::entry::FRAME_NUMBER_LIMIT
                    ||| exists|n: u64|
                        n >= crate::memory::paging::entry::FRAME_NUMBER_LIMIT && #[trigger] old(temporary_page).pool().contains(n) && !final(temporary_page).pool().contains(n)
                },
                MemoryError::UnsupportedHugePage => old(active_table).mapper.huge_in_way(
                    old(temporary_page).page(),
                ),
                MemoryError::FramesExhausted => {
                    &&& final(temporary_page).pool() =~= Set::<u64>::empty()
                    &&& !old(active_table).mapper.has_tables(old(temporary_page).page())
                    &&& crate::memory::paging::mapper::fewer_than(
                        old(temporary_page).pool(),
                        old(active_table).mapper.missing_tables(old(temporary_page).page()),
                    )
                },
                _ => false,
            },
    {
        let ghost s0 = active_table.mapper;
        let ghost pool0 = temporary_page.pool();
        let table = match temporary_page.try_map_table_frame(frame, active_table) {
            Ok(table) => table,
            Err(e) => {
                proof {
                    Self::lemma_tables_from_pool(
                        &s0,
                        &active_table.mapper,
                        pool0,
                        temporary_page.pool(),
                    );
                }
                return Err(e);
            },
        };
        let ghost s1 = active_table.mapper;
        proof {
            let given = pool0.difference(temporary_page.pool());
            s1.lemma_grown(&s0, given, frame.number, 0);
            Self::lemma_tables_from_pool(&s0, &s1, pool0, temporary_page.pool());
        }
        let inactive = active_table.mapper.init_table(&table, frame);
        let ghost s2 = active_table.mapper;
        proof {
            s2.lemma_same_translation(&s1, None, temporary_page.page());
            s2.lemma_mapping_facts(temporary_page.page());
        }
        let unmapped = temporary_page.try_unmap(active_table);
        proof {
            let s3 = active_table.mapper;
            assert forall|a: u64| inactive.is_table((a / 4096) as u64) implies {
                &&& #[trigger] s3@.mem.contains_key(a) == s2@.mem.contains_key(a)
                &&& s2@.mem.contains_key(a) ==> s3@.mem[a] == s2@.mem[a]
            } by {
                s3.lemma_untouched(&s2, a);
            }
            inactive.lemma_kept(s2@.mem, s3@.mem);
            crate::memory::paging::mapper::lemma_plain_kept(
                s2@.mem,
                frame.number,
                s3@.mem,
                frame.number,
            );
            assert forall|q: u64| index4(q) != 511 implies {
                &&& #[trigger] translate_page_spec(s3@.mem, frame.number, q) == Ok::<
                    Option<u64>,
                    MemoryError,
                >(None)
                &&& leaf_entry(s3@.mem, frame.number, q) == None::<Entry>
            } by {
                crate::memory::paging::mapper::lemma_kept_page(
                    s2@.mem,
                    frame.number,
                    s3@.mem,
                    frame.number,
                    q,
                );
                assert(translate_page_spec(s2@.mem, frame.number, q) == Ok::<
                    Option<u64>,
                    MemoryError,
                >(None));
            }
        }
        match unmapped {
            Ok(()) => Ok(inactive),
            Err(e) => Err(e),
        }
    }

    /// A hierarchy at rest stays sound, with its translations, while the
    /// mapper changes nothing outside its own tables, none of which is a
    /// table of the hierarchy at rest.
    pub proof fn lemma_rest_kept(&self, before: &Mapper, after: &Mapper)
        requires
            self.wf(before@.mem),
            after.untouched_outside(before),
            forall|f: u64| self.is_table(f) ==> !after.is_table(f),
        ensures
            self.wf(after@.mem),
            kept(before@.mem, self.frame().number, after@.mem, self.frame().number),
    {
        let mem = before@.mem;
        let changed = after@.mem;
        assert forall|a: u64| self.is_table((a / 4096) as u64) implies {
            &&& #[trigger] changed.contains_key(a) == mem.contains_key(a)
            &&& mem.contains_key(a) ==> changed[a] == mem[a]
        } by {
            assert(!after.is_table((a / 4096) as u64));
            after.lemma_untouched(before, a);
        }
        self.lemma_kept(mem, changed);
    }

    /// The tables of a hierarchy that grew on a pool are the tables it had
    /// and frames that left the pool.
    proof fn lemma_tables_from_pool(
        before: &Mapper,
        after: &Mapper,
        pool_before: Set<u64>,
        pool_after: Set<u64>,
    )
        requires
            after.grown_from(before, pool_before.difference(pool_after)),
        ensures
            forall|f: u64|
                #[trigger] after.is_table(f) ==> before.is_table(f) || (pool_before.contains(f)
                    && !pool_after.contains(f)),
            forall|f: u64| before.is_table(f) ==> #[trigger] after.is_table(f),
    {
        assert forall|f: u64| #[trigger] after.is_table(f) implies before.is_table(f) || (
        pool_before.contains(f) && !pool_after.contains(f)) by {
            after.lemma_grown(before, pool_before.difference(pool_after), f, 0);
        }
        assert forall|f: u64| before.is_table(f) implies #[trigger] after.is_table(f) by {
            after.lemma_grown(before, pool_before.difference(pool_after), f, 0);
        }
    }
}

/// The pages of one slot are the pages whose numbers agree in their low 36
/// bits.
pub proof fn lemma_slot_number(p: u64, q: u64)
    by (bit_vector)
    ensures
        ((p / 0x800_0000) % 512 == (q / 0x800_0000) % 512 && (p / 0x4_0000) % 512 == (q
            / 0x4_0000) % 512 && (p / 512) % 512 == (q / 512) % 512 && p % 512 == q % 512) == (p
            % 0x10_0000_0000 == q % 0x10_0000_0000),
        p < 0xf_f800_0000 ==> (p / 0x800_0000) % 512 != 511 && p % 0x10_0000_0000 == p,
{
}

/// The number of frames from `first` to `last`.
pub open spec fn range_frames(first: u64, last: u64) -> nat {
    if first <= last {
        (last - first + 1) as nat
    } else {
        0
    }
}

/// The frame lies in a section that occupies memory.
pub open spec fn in_section(section: ElfSection, n: u64) -> bool {
    &&& section.spec_is_allocated()
    &&& section.addr / 4096 <= n <= (section.addr + section.size - 1) / 4096
}

/// The flag bits with which the frames of a section are mapped.
pub open spec fn section_bits(section: ElfSection) -> u64 {
    EntryFlags::elf_section_bits(section.flags) | PRESENT
}

impl BootInformation {
    /// All that is to be mapped lies below the range of the recursive
    /// mapping, and no section that occupies memory is empty at address 0.
    pub open spec fn mappable(&self) -> bool {
        &&& self.start_address < self.end_address <= RECURSIVE_START
        &&& forall|i: int|
            0 <= i < self.elf_sections@.len() && (
            #[trigger] self.elf_sections@[i]).spec_is_allocated() ==> 1
                <= self.elf_sections@[i].addr + self.elf_sections@[i].size <= RECURSIVE_START
    }

    /// The frame belongs to the boot information.
    pub open spec fn holds(&self, n: u64) -> bool {
        self.start_address / 4096 <= n <= (self.end_address - 1) / 4096
    }

    /// The remapped kernel maps frame `n` to itself with the flag bits
    /// `bits`: the frame belongs to a section and has the section's flags,
    /// or it holds the text buffer and is writable, or it belongs to the
    /// boot information and is present only.
    pub open spec fn plans(&self, n: u64, bits: u64) -> bool {
        ||| exists|i: int|
            0 <= i < self.elf_sections@.len() && in_section(#[trigger] self.elf_sections@[i], n)
                && bits == section_bits(self.elf_sections@[i])
        ||| n == VGA_BUFFER / 4096 && bits == WRITABLE | PRESENT
        ||| self.holds(n) && bits == PRESENT | PRESENT
    }

    /// What is mapped lies below the range of the recursive mapping.
    pub proof fn lemma_claims_below(&self, n: u64)
        requires
            self.mappable(),
            self.claims(n),
        ensures
            n < RECURSIVE_FIRST_PAGE,
            !(Page { number: n }).is_recursive(),
            n % 0x10_0000_0000 == n,
    {
        lemma_slot_number(n, n);
        if self.in_sections(n, self.elf_sections@.len() as int) {
            let i = choose|i: int|
                0 <= i < self.elf_sections@.len() && in_section(
                    #[trigger] self.elf_sections@[i],
                    n,
                );
            assert(self.elf_sections@[i].spec_is_allocated());
        }
    }

    /// What is claimed is planned with some flag bits.
    pub proof fn lemma_claims_plans(&self, n: u64) -> (bits: u64)
        requires
            self.claims(n),
        ensures
            self.plans(n, bits),
    {
        if self.in_sections(n, self.elf_sections@.len() as int) {
            let i = choose|i: int|
                0 <= i < self.elf_sections@.len() && in_section(
                    #[trigger] self.elf_sections@[i],
                    n,
                );
            section_bits(self.elf_sections@[i])
        } else if n == VGA_BUFFER / 4096 {
            WRITABLE | PRESENT
        } else {
            PRESENT | PRESENT
        }
    }

    /// What is planned is claimed.
    pub proof fn lemma_plans_claims(&self, n: u64, bits: u64)
        requires
            self.plans(n, bits),
        ensures
            self.claims(n),
    {
        if exists|i: int|
            0 <= i < self.elf_sections@.len() && in_section(#[trigger] self.elf_sections@[i], n)
                && bits == section_bits(self.elf_sections@[i]) {
            let i = choose|i: int|
                0 <= i < self.elf_sections@.len() && in_section(
                    #[trigger] self.elf_sections@[i],
                    n,
                ) && bits == section_bits(self.elf_sections@[i]);
            assert(in_section(self.elf_sections@[i], n));
        }
    }

    /// The frame lies in one of the memory areas that the boot loader
    /// reported.
    pub open spec fn in_memory_area(&self, n: u64) -> bool {
        exists|i: int|
            0 <= i < self.memory_areas@.len() && (#[trigger] self.memory_areas@[i]).first_frame()
                <= n <= self.memory_areas@[i].last_frame()
    }

    /// Frame `n` lies in one of the first `count` sections.
    pub open spec fn in_sections(&self, n: u64, count: int) -> bool {
        exists|i: int| 0 <= i < count && in_section(#[trigger] self.elf_sections@[i], n)
    }

    /// Frame `n` is one that the remapped kernel maps.
    pub open spec fn claims(&self, n: u64) -> bool {
        ||| self.in_sections(n, self.elf_sections@.len() as int)
        ||| n == VGA_BUFFER / 4096
        ||| self.holds(n)
    }

    /// The number of frames in the first `count` sections, for the sections
    /// that occupy memory; a frame in two of them counts twice.
    pub open spec fn section_frames(&self, count: int) -> nat
        decreases count,
    {
        if count <= 0 {
            0
        } else {
            let section = self.elf_sections@[count - 1];
            self.section_frames(count - 1) + if section.spec_is_allocated() {
                range_frames(
                    (section.addr / 4096) as u64,
                    ((section.addr + section.size - 1) / 4096) as u64,
                )
            } else {
                0
            }
        }
    }

    /// More sections have no fewer frames.
    pub proof fn lemma_section_frames_rise(&self, fewer: int, more: int)
        requires
            fewer <= more,
        ensures
            self.section_frames(fewer) <= self.section_frames(more),
        decreases more - fewer,
    {
        if fewer < more {
            self.lemma_section_frames_rise(fewer, more - 1);
        }
    }

    /// The number of mappings that the remapped kernel is made of: one for
    /// each frame of each section that occupies memory, one for the text
    /// buffer, and one for each frame of the boot information.
    pub open spec fn planned_frames(&self) -> nat {
        self.section_frames(self.elf_sections@.len() as int) + 1 + range_frames(
            (self.start_address / 4096) as u64,
            ((self.end_address - 1) / 4096) as u64,
        )
    }

    /// The most frames that the remapping can take from the allocator: the
    /// pool of the scratch page, the new root table, and three tables for
    /// each mapping.
    pub open spec fn remap_budget(&self) -> nat {
        4 + 3 * self.planned_frames()
    }

    /// The frames that the frame allocator can hand out: those of the
    /// memory areas outside the stretches that it keeps clear of.
    pub open spec fn usable_frames(&self) -> Set<u64> {
        Set::new(|n: u64| self.in_memory_area(n) && !self.occupied(n))
    }

    /// A frame is to be mapped twice: it lies in two sections that occupy
    /// memory, or it holds the text buffer and lies in a section, or it
    /// belongs to the boot information and lies in a section or holds the
    /// text buffer.
    pub open spec fn overlapping(&self) -> bool {
        ||| exists|j: int, n: u64|
            0 <= j < self.elf_sections@.len() && #[trigger] in_section(self.elf_sections@[j], n)
                && self.in_sections(n, j)
        ||| self.in_sections((VGA_BUFFER / 4096) as u64, self.elf_sections@.len() as int)
        ||| exists|n: u64|
            #[trigger] self.holds(n) && (self.in_sections(n, self.elf_sections@.len() as int) || n
                == VGA_BUFFER / 4096)
    }

    /// Frame `n` lies in the stretch that the frame allocator keeps clear
    /// of: from the first frame of the kernel image to the frame of the
    /// address just past it, or from the first frame of the boot
    /// information to the frame of the address just past it.
    pub open spec fn occupied(&self, n: u64) -> bool {
        ||| exists|i: int, j: int|
            #![trigger self.elf_sections@[i], self.elf_sections@[j]]
            0 <= i < self.elf_sections@.len() && 0 <= j < self.elf_sections@.len()
                && self.elf_sections@[i].spec_is_allocated()
                && self.elf_sections@[j].spec_is_allocated() && self.elf_sections@[i].addr / 4096
                <= n <= (self.elf_sections@[j].addr + self.elf_sections@[j].size) / 4096
        ||| self.start_address / 4096 <= n <= self.end_address / 4096
    }

    /// The boot information is one that the kernel can be remapped from: it
    /// is well formed, what it asks to be mapped lies below the range of
    /// the recursive mapping, and a section occupies memory.
    pub open spec fn ready(&self) -> bool {
        &&& self.wf()
        &&& self.mappable()
        &&& exists|i: int|
            0 <= i < self.elf_sections@.len() && (#[trigger] self.elf_sections@[i]).spec_is_allocated()
    }

    /// Whether the kernel can be remapped from this boot information.
    pub fn is_ready(&self) -> (ready: bool)
        ensures
            ready == self.ready(),
    {
        if self.start_address >= self.end_address || self.end_address > RECURSIVE_START {
            return false;
        }
        let mut a: usize = 0;
        while a < self.memory_areas.len()
            invariant
                0 <= a <= self.memory_areas@.len(),
                forall|k: int| 0 <= k < a ==> (#[trigger] self.memory_areas@[k]).wf(),
            decreases self.memory_areas@.len() - a,
        {
            let area = self.memory_areas[a];
            if area.length < 1 || area.base_addr > u64::MAX - (area.length - 1) {
                assert(!self.memory_areas@[a as int].wf());
                return false;
            }
            a += 1;
        }
        let mut loaded = false;
        let mut i: usize = 0;
        while i < self.elf_sections.len()
            invariant
                0 <= i <= self.elf_sections@.len(),
                forall|k: int| 0 <= k < i ==> (#[trigger] self.elf_sections@[k]).wf(),
                forall|k: int|
                    0 <= k < i && (#[trigger] self.elf_sections@[k]).spec_is_allocated() ==> 1
                        <= self.elf_sections@[k].addr + self.elf_sections@[k].size
                        <= RECURSIVE_START,
                loaded <==> exists|k: int|
                    0 <= k < i && (#[trigger] self.elf_sections@[k]).spec_is_allocated(),
            decreases self.elf_sections@.len() - i,
        {
            let section = self.elf_sections[i];
            if section.addr > u64::MAX - section.size {
                assert(!self.elf_sections@[i as int].wf());
                return false;
            }
            if section.is_allocated() {
                let end = section.addr + section.size;
                if end < 1 || end > RECURSIVE_START {
                    assert(self.elf_sections@[i as int].spec_is_allocated());
                    return false;
                }
                loaded = true;
            }
            i += 1;
        }
        loaded
    }

    /// Whether `frame` lies in a section that occupies memory.
    pub fn in_kernel(&self, frame: Frame) -> (inside: bool)
        requires
            self.wf(),
        ensures
            inside == self.in_sections(frame.number, self.elf_sections@.len() as int),
    {
        let mut i: usize = 0;
        while i < self.elf_sections.len()
            invariant
                0 <= i <= self.elf_sections@.len(),
                self.wf(),
                !self.in_sections(frame.number, i as int),
            decreases self.elf_sections@.len() - i,
        {
            let section = self.elf_sections[i];
            if section.is_allocated() && section.addr + section.size >= 1 && section.addr / 4096
                <= frame.number && frame.number <= (section.addr + section.size - 1) / 4096 {
                assert(in_section(self.elf_sections@[i as int], frame.number));
                return true;
            }
            i += 1;
        }
        false
    }
}

/// Frame `n` is mapped to itself, as a 4 KiB page with the flag bits
/// `bits`, in the hierarchy with the root table in frame `root`.
pub open spec fn identity_mapped(mem: Map<u64, u64>, root: u64, n: u64, bits: u64) -> bool {
    &&& leaf_entry(mem, root, n) == Some(Entry(entry_value(n, bits)))
    &&& translate_page_spec(mem, root, n) == Ok::<Option<u64>, MemoryError>(Some(n))
}

/// An identity mapping that is carried on stays an identity mapping.
pub proof fn lemma_carried_mapping(
    mem1: Map<u64, u64>,
    root1: u64,
    mem2: Map<u64, u64>,
    root2: u64,
    n: u64,
    bits: u64,
)
    requires
        carried(mem1, root1, mem2, root2),
        identity_mapped(mem1, root1, n, bits),
        index4(n) != 511,
    ensures
        identity_mapped(mem2, root2, n, bits),
{
    reveal(carried);
    reveal(leaf_entry);
    reveal(translate_page_spec);
    assert(leaf_entry(mem1, root1, n) is Some);
}

/// Carrying composes.
pub proof fn lemma_carried_trans(
    mem1: Map<u64, u64>,
    root1: u64,
    mem2: Map<u64, u64>,
    root2: u64,
    mem3: Map<u64, u64>,
    root3: u64,
)
    requires
        carried(mem1, root1, mem2, root2),
        carried(mem2, root2, mem3, root3),
    ensures
        carried(mem1, root1, mem3, root3),
{
    reveal(carried);
    assert forall|q: u64|
        index4(q) != 511 && (#[trigger] leaf_entry(mem1, root1, q)) is Some implies leaf_entry(
        mem3,
        root3,
        q,
    ) == leaf_entry(mem1, root1, q) by {
        assert(leaf_entry(mem2, root2, q) is Some);
    }
}

/// The second hierarchy has every 4 KiB mapping of the first.
#[verifier::opaque]
pub open spec fn carried(mem1: Map<u64, u64>, root1: u64, mem2: Map<u64, u64>, root2: u64) -> bool {
    forall|q: u64|
        index4(q) != 511 && (#[trigger] leaf_entry(mem1, root1, q)) is Some ==> leaf_entry(
            mem2,
            root2,
            q,
        ) == leaf_entry(mem1, root1, q)
}

/// Each 4 KiB mapping of the second hierarchy is one of the first, or maps
/// a page of the slot of a frame from `first` to `last`.
#[verifier::opaque]
pub open spec fn added(
    mem1: Map<u64, u64>,
    root1: u64,
    mem2: Map<u64, u64>,
    root2: u64,
    first: u64,
    last: u64,
) -> bool {
    forall|q: u64|
        index4(q) != 511 && (#[trigger] leaf_entry(mem2, root2, q)) is Some ==> leaf_entry(
            mem1,
            root1,
            q,
        ) is Some || first <= q % 0x10_0000_0000 <= last
}

/// What an error of a mapping in a plain hierarchy says of the allocator
/// that went from the frames `before` to the frames `after`: it ran dry, or
/// it handed out a frame that no entry can hold. The third error is that a
/// page was mapped already; which page, the functions say themselves.
pub open spec fn mapping_failure(e: MemoryError, before: Set<u64>, after: Set<u64>) -> bool {
    match e {
        MemoryError::FramesExhausted => after =~= Set::<u64>::empty(),
        MemoryError::MisalignedFrame => exists|n: u64|
            n >= crate::memory::paging::entry::FRAME_NUMBER_LIMIT && #[trigger] before.contains(n)
                && !after.contains(n),
        MemoryError::DoubleMapping => true,
        _ => false,
    }
}

/// What an error says of the state in which a scratch page at
/// [`SCRATCH_PAGE`] and a fresh hierarchy were to be made: the allocator ran
/// dry or handed out a frame that no entry can hold, or the scratch page
/// was not free in the active hierarchy.
pub open spec fn preparing_failure(
    e: MemoryError,
    active: &Mapper,
    before: Set<u64>,
    after: Set<u64>,
) -> bool {
    let scratch = Page { number: SCRATCH_PAGE };
    match e {
        MemoryError::FramesExhausted => after =~= Set::<u64>::empty(),
        MemoryError::MisalignedFrame => {
            ||| active.translation(scratch) is Err
            ||| active@.cr3 >= crate::memory::paging::entry::FRAME_NUMBER_LIMIT
            ||| exists|n: u64|
                n >= crate::memory::paging::entry::FRAME_NUMBER_LIMIT && #[trigger] before.contains(
                    n,
                ) && !after.contains(n)
        },
        MemoryError::DoubleMapping => {
            ||| active.translation(scratch) matches Ok(Some(_))
            ||| active.slot(scratch).0 != 0
        },
        MemoryError::UnsupportedHugePage => active.huge_in_way(scratch),
        _ => false,
    }
}

/// The state while a hierarchy at rest is filled: `mapper` works on it,
/// the active hierarchy is parked, and the frames that are still available
/// belong to neither.
pub open spec fn populating(mapper: &Mapper, parked: &ParkedTable, available: Set<u64>) -> bool {
    &&& mapper.wf()
    &&& mapper.plain()
    &&& mapper@.cr3 == parked.frame().number
    &&& mapper.root() != mapper@.cr3
    &&& parked.wf(mapper@.mem)
    &&& forall|f: u64| #[trigger] parked.is_table(f) ==> !mapper.is_table(f)
    &&& forall|n: u64| #[trigger]
        available.contains(n) ==> !mapper.is_table(n) && n != mapper@.cr3 && !parked.is_table(n)
}

/// Maps one frame to itself while a hierarchy at rest is filled.
fn map_identity<A: FrameAllocator>(
    active_table: &mut ActivePageTable,
    parked: &ParkedTable,
    frame: Frame,
    flags: EntryFlags,
    allocator: &mut A,
) -> (result: Result<(), MemoryError>)
    requires
        old(allocator).wf(),
        populating(&old(active_table).mapper, parked, old(allocator).available()),
        frame.number < RECURSIVE_FIRST_PAGE,
    ensures
        final(allocator).wf(),
        final(allocator).available().subset_of(old(allocator).available()),
        !(result matches Err(MemoryError::MisalignedFrame)) ==> at_most(
            old(allocator).available().difference(final(allocator).available()),
            3,
        ),
        result matches Err(e) ==> mapping_failure(
            e,
            old(allocator).available(),
            final(allocator).available(),
        ),
        result matches Err(MemoryError::DoubleMapping) ==> leaf_entry(
            old(active_table).mapper@.mem,
            old(active_table).mapper.root(),
            frame.number,
        ) is Some,
        result is Ok ==> {
            let before = old(active_table).mapper;
            let after = final(active_table).mapper;
            &&& populating(&after, parked, final(allocator).available())
            &&& after.root() == before.root()
            &&& identity_mapped(after@.mem, after.root(), frame.number, flags@ | PRESENT)
            &&& leaf_entry(before@.mem, before.root(), frame.number) is None
            &&& carried(before@.mem, before.root(), after@.mem, after.root())
            &&& added(
                before@.mem,
                before.root(),
                after@.mem,
                after.root(),
                frame.number,
                frame.number,
            )
        },
{
    let ghost before = active_table.mapper;
    let ghost page = Page { number: frame.number };
    proof {
        lemma_slot_number(frame.number, frame.number);
    }
    proof {
        before.lemma_plain_page(page);
    }
    let result = active_table.mapper.try_identity_map(frame, flags, allocator);
    proof {
        if !(result matches Err(MemoryError::MisalignedFrame)) {
            active_table.mapper.lemma_made_at_most(
                &before,
                page,
                old(allocator).available(),
                allocator.available(),
            );
        }
        if result is Ok {
            let after = active_table.mapper;
            let given = old(allocator).available().difference(allocator.available());
            assert forall|f: u64| #[trigger] parked.is_table(f) implies !after.is_table(f) by {
                after.lemma_grown(&before, given, f, 0);
            }
            assert(parked.wf(after@.mem) && kept(
                before@.mem,
                parked.frame().number,
                after@.mem,
                parked.frame().number,
            )) by {
                let mem0 = before@.mem;
                let mem1 = after@.mem;
                assert forall|a: u64| parked.is_table((a / 4096) as u64) implies {
                    &&& #[trigger] mem1.contains_key(a) == mem0.contains_key(a)
                    &&& mem0.contains_key(a) ==> mem1[a] == mem0[a]
                } by {
                    assert(!after.is_table((a / 4096) as u64));
                    after.lemma_grown(&before, given, 0, a);
                }
                parked.lemma_kept(mem0, mem1);
            }
            before.lemma_mapping_facts(page);
            assert(carried(before@.mem, before.root(), after@.mem, after.root())) by {
                reveal(carried);
                assert forall|q: u64|
                    index4(q) != 511 && (#[trigger] leaf_entry(before@.mem, before.root(), q))
                        is Some implies leaf_entry(after@.mem, after.root(), q) == leaf_entry(
                    before@.mem,
                    before.root(),
                    q,
                ) by {
                    let other = Page { number: q };
                    before.lemma_mapping_facts(other);
                    if other.same_slot(page) {
                        before.lemma_same_slot(other, page);
                    } else {
                        after.lemma_same_translation(&before, Some(page), other);
                    }
                }
            }
            assert(added(
                before@.mem,
                before.root(),
                after@.mem,
                after.root(),
                frame.number,
                frame.number,
            )) by {
                reveal(added);
                assert forall|q: u64|
                    index4(q) != 511 && (#[trigger] leaf_entry(after@.mem, after.root(), q))
                        is Some implies leaf_entry(before@.mem, before.root(), q) is Some
                    || frame.number <= q % 0x10_0000_0000 <= frame.number by {
                    let other = Page { number: q };
                    lemma_slot_number(q, frame.number);
                    if !other.same_slot(page) {
                        after.lemma_same_translation(&before, Some(page), other);
                    }
                }
            }
        }
    }
    result
}

/// Maps the frames from `start` to `end` to themselves while a hierarchy
/// at rest is filled.
fn map_range<A: FrameAllocator>(
    active_table: &mut ActivePageTable,
    parked: &ParkedTable,
    start: Frame,
    end: Frame,
    flags: EntryFlags,
    allocator: &mut A,
) -> (result: Result<(), MemoryError>)
    requires
        old(allocator).wf(),
        populating(&old(active_table).mapper, parked, old(allocator).available()),
        end.number < RECURSIVE_FIRST_PAGE,
    ensures
        final(allocator).wf(),
        final(allocator).available().subset_of(old(allocator).available()),
        !(result matches Err(MemoryError::MisalignedFrame)) ==> at_most(
            old(allocator).available().difference(final(allocator).available()),
            3 * range_frames(start.number, end.number),
        ),
        result matches Err(e) ==> mapping_failure(
            e,
            old(allocator).available(),
            final(allocator).available(),
        ),
        result matches Err(MemoryError::DoubleMapping) ==> exists|n: u64|
            start.number <= n <= end.number && (#[trigger] leaf_entry(
                old(active_table).mapper@.mem,
                old(active_table).mapper.root(),
                n,
            )) is Some,
        result is Ok ==> {
            let before = old(active_table).mapper;
            let after = final(active_table).mapper;
            &&& populating(&after, parked, final(allocator).available())
            &&& after.root() == before.root()
            &&& forall|n: u64|
                start.number <= n <= end.number ==> #[trigger] identity_mapped(
                    after@.mem,
                    after.root(),
                    n,
                    flags@ | PRESENT,
                )
            &&& forall|n: u64|
                start.number <= n <= end.number ==> (#[trigger] leaf_entry(
                    before@.mem,
                    before.root(),
                    n,
                )) is None
            &&& carried(before@.mem, before.root(), after@.mem, after.root())
            &&& added(
                before@.mem,
                before.root(),
                after@.mem,
                after.root(),
                start.number,
                end.number,
            )
        },
{
    let ghost before = active_table.mapper;
    let ghost root = before.root();
    let mut frames = Frame::range_inclusive(start, end);
    proof {
        assert(old(allocator).available().difference(allocator.available()) =~= Set::<u64>::empty());
        assert(carried(before@.mem, root, before@.mem, root)) by {
            reveal(carried);
        }
        assert(added(before@.mem, root, before@.mem, root, start.number, end.number)) by {
            reveal(added);
        }
    }
    loop
        invariant
            allocator.wf(),
            allocator.available().subset_of(old(allocator).available()),
            populating(&active_table.mapper, parked, allocator.available()),
            active_table.mapper.root() == root,
            root == before.root(),
            before == old(active_table).mapper,
            at_most(
                old(allocator).available().difference(allocator.available()),
                (3 * (frames.start.number - start.number)) as nat,
            ),
            frames.end == end,
            end.number < RECURSIVE_FIRST_PAGE,
            start.number <= frames.start.number,
            frames.start.number <= end.number + 1 || frames.start.number == start.number,
            forall|n: u64|
                start.number <= n < frames.start.number ==> #[trigger] identity_mapped(
                    active_table.mapper@.mem,
                    root,
                    n,
                    flags@ | PRESENT,
                ),
            forall|n: u64|
                start.number <= n < frames.start.number ==> (#[trigger] leaf_entry(
                    before@.mem,
                    root,
                    n,
                )) is None,
            carried(before@.mem, root, active_table.mapper@.mem, root),
            added(before@.mem, root, active_table.mapper@.mem, root, start.number, end.number),
            forall|q: u64|
                index4(q) != 511 && (#[trigger] leaf_entry(active_table.mapper@.mem, root, q))
                    is Some ==> leaf_entry(before@.mem, root, q) is Some || start.number <= q
                    % 0x10_0000_0000 < frames.start.number,
        ensures
            start.number > end.number || frames.start.number == end.number + 1,
        decreases
                (if frames.start.number <= end.number {
                    end.number + 1 - frames.start.number
                } else {
                    0
                }),
    {
        let frame = match frames.next() {
            Some(frame) => frame,
            None => {
                break ;
            },
        };
        let ghost middle = active_table.mapper;
        let ghost reached = allocator.available();
        match map_identity(active_table, parked, frame, flags, allocator) {
            Ok(()) => {},
            Err(e) => {
                proof {
                    if !(e is MisalignedFrame) {
                        lemma_at_most_steps(
                            old(allocator).available(),
                            reached,
                            allocator.available(),
                            (3 * (frame.number - start.number)) as nat,
                            3,
                        );
                    }
                    if e is DoubleMapping {
                        lemma_slot_number(frame.number, frame.number);
                        assert(leaf_entry(middle@.mem, root, frame.number) is Some);
                        assert(leaf_entry(before@.mem, root, frame.number) is Some);
                    }
                }
                return Err(e);
            },
        }
        proof {
            let after = active_table.mapper;
            lemma_at_most_steps(
                old(allocator).available(),
                reached,
                allocator.available(),
                (3 * (frame.number - start.number)) as nat,
                3,
            );
            reveal(carried);
            reveal(added);
            assert forall|q: u64|
                index4(q) != 511 && (#[trigger] leaf_entry(after@.mem, root, q)) is Some implies
                leaf_entry(before@.mem, root, q) is Some || start.number <= q % 0x10_0000_0000
                < frames.start.number by {
                if leaf_entry(middle@.mem, root, q) is Some {
                }
            }
            assert forall|n: u64| start.number <= n < frames.start.number implies #[trigger] identity_mapped(
                after@.mem,
                root,
                n,
                flags@ | PRESENT,
            ) by {
                if n < frame.number {
                    lemma_slot_number(n, n);
                    assert(identity_mapped(middle@.mem, root, n, flags@ | PRESENT));
                    lemma_carried_mapping(
                        middle@.mem,
                        root,
                        after@.mem,
                        root,
                        n,
                        flags@ | PRESENT,
                    );
                }
            }
            assert forall|n: u64| start.number <= n < frames.start.number implies (
            #[trigger] leaf_entry(before@.mem, root, n)) is None by {
                if n == frame.number {
                    lemma_slot_number(n, n);
                    if leaf_entry(before@.mem, root, n) is Some {
                        assert(leaf_entry(middle@.mem, root, n) == leaf_entry(
                            before@.mem,
                            root,
                            n,
                        ));
                    }
                }
            }
            assert forall|q: u64|
                index4(q) != 511 && (#[trigger] leaf_entry(after@.mem, root, q)) is Some implies
                leaf_entry(before@.mem, root, q) is Some || start.number <= q % 0x10_0000_0000
                <= end.number by {
                if leaf_entry(middle@.mem, root, q) is Some {
                }
            }
        }
    }
    Ok(())
}

/// Maps the frames of every section that occupies memory to themselves,
/// with the flags that the section asks for.
fn map_sections<A: FrameAllocator>(
    active_table: &mut ActivePageTable,
    parked: &ParkedTable,
    boot_info: &BootInformation,
    allocator: &mut A,
) -> (result: Result<(), MemoryError>)
    requires
        old(allocator).wf(),
        populating(&old(active_table).mapper, parked, old(allocator).available()),
        boot_info.mappable(),
    ensures
        final(allocator).wf(),
        final(allocator).available().subset_of(old(allocator).available()),
        !(result matches Err(MemoryError::MisalignedFrame)) ==> at_most(
            old(allocator).available().difference(final(allocator).available()),
            3 * boot_info.section_frames(boot_info.elf_sections@.len() as int),
        ),
        result matches Err(e) ==> mapping_failure(
            e,
            old(allocator).available(),
            final(allocator).available(),
        ),
        result matches Err(MemoryError::DoubleMapping) ==> exists|j: int, n: u64|
            0 <= j < boot_info.elf_sections@.len() && #[trigger] in_section(
                boot_info.elf_sections@[j],
                n,
            ) && (leaf_entry(
                old(active_table).mapper@.mem,
                old(active_table).mapper.root(),
                n,
            ) is Some || boot_info.in_sections(n, j)),
        result is Ok ==> {
            let before = old(active_table).mapper;
            let after = final(active_table).mapper;
            &&& populating(&after, parked, final(allocator).available())
            &&& after.root() == before.root()
            &&& forall|j: int, n: u64|
                0 <= j < boot_info.elf_sections@.len() && #[trigger] in_section(
                    boot_info.elf_sections@[j],
                    n,
                ) ==> identity_mapped(
                    after@.mem,
                    after.root(),
                    n,
                    section_bits(boot_info.elf_sections@[j]),
                )
            &&& carried(before@.mem, before.root(), after@.mem, after.root())
            &&& forall|q: u64|
                index4(q) != 511 && (#[trigger] leaf_entry(after@.mem, after.root(), q)) is Some
                    ==> leaf_entry(before@.mem, before.root(), q) is Some
                    || boot_info.in_sections(
                    (q % 0x10_0000_0000) as u64,
                    boot_info.elf_sections@.len() as int,
                )
        },
{
    let ghost before = active_table.mapper;
    let ghost root = before.root();
    let mut index: usize = 0;
    proof {
        assert(old(allocator).available().difference(allocator.available()) =~= Set::<u64>::empty());
        assert(carried(before@.mem, root, before@.mem, root)) by {
            reveal(carried);
        }
    }
    while index < boot_info.elf_sections.len()
        invariant
            0 <= index <= boot_info.elf_sections@.len(),
            boot_info.mappable(),
            allocator.wf(),
            allocator.available().subset_of(old(allocator).available()),
            populating(&active_table.mapper, parked, allocator.available()),
            active_table.mapper.root() == root,
            root == before.root(),
            before == old(active_table).mapper,
            at_most(
                old(allocator).available().difference(allocator.available()),
                3 * boot_info.section_frames(index as int),
            ),
            forall|j: int, n: u64|
                0 <= j < index && #[trigger] in_section(boot_info.elf_sections@[j], n)
                    ==> identity_mapped(
                    active_table.mapper@.mem,
                    root,
                    n,
                    section_bits(boot_info.elf_sections@[j]),
                ),
            carried(before@.mem, root, active_table.mapper@.mem, root),
            forall|q: u64|
                index4(q) != 511 && (#[trigger] leaf_entry(active_table.mapper@.mem, root, q))
                    is Some ==> leaf_entry(before@.mem, root, q) is Some || boot_info.in_sections(
                    (q % 0x10_0000_0000) as u64,
                    index as int,
                ),
        decreases boot_info.elf_sections@.len() - index,
    {
        let section = boot_info.elf_sections[index];
        let ghost middle = active_table.mapper;
        let ghost reached = allocator.available();
        if section.is_allocated() {
            let flags = EntryFlags::from_elf_section_flags(&section);
            let start_frame = Frame::containing_address(section.start_address());
            let end_frame = Frame::containing_address(section.end_address() - 1);
            match map_range(active_table, parked, start_frame, end_frame, flags, allocator) {
                Ok(()) => {},
                Err(e) => {
                    proof {
                        if !(e is MisalignedFrame) {
                            lemma_at_most_steps(
                                old(allocator).available(),
                                reached,
                                allocator.available(),
                                3 * boot_info.section_frames(index as int),
                                3 * range_frames(start_frame.number, end_frame.number),
                            );
                            boot_info.lemma_section_frames_rise(
                                index + 1,
                                boot_info.elf_sections@.len() as int,
                            );
                        }
                        if e is DoubleMapping {
                            let n = choose|n: u64|
                                start_frame.number <= n <= end_frame.number && (
                                #[trigger] leaf_entry(middle@.mem, root, n)) is Some;
                            lemma_slot_number(n, n);
                            assert(in_section(boot_info.elf_sections@[index as int], n));
                            assert(leaf_entry(before@.mem, root, n) is Some || boot_info.in_sections(
                                n,
                                index as int,
                            ));
                        }
                    }
                    return Err(e);
                },
            }
        }
        proof {
            let after = active_table.mapper;
            if section.is_allocated() {
                lemma_carried_trans(before@.mem, root, middle@.mem, root, after@.mem, root);
                lemma_at_most_steps(
                    old(allocator).available(),
                    reached,
                    allocator.available(),
                    3 * boot_info.section_frames(index as int),
                    3 * range_frames(
                        (section.addr / 4096) as u64,
                        ((section.addr + section.size - 1) / 4096) as u64,
                    ),
                );
            }
            assert forall|j: int, n: u64|
                0 <= j < index + 1 && #[trigger] in_section(
                    boot_info.elf_sections@[j],
                    n,
                ) implies identity_mapped(
                after@.mem,
                root,
                n,
                section_bits(boot_info.elf_sections@[j]),
            ) by {
                if j < index {
                    if section.is_allocated() {
                        lemma_slot_number(n, n);
                        lemma_carried_mapping(
                            middle@.mem,
                            root,
                            after@.mem,
                            root,
                            n,
                            section_bits(boot_info.elf_sections@[j]),
                        );
                    }
                }
            }
            assert forall|q: u64|
                index4(q) != 511 && (#[trigger] leaf_entry(after@.mem, root, q)) is Some implies
                leaf_entry(before@.mem, root, q) is Some || boot_info.in_sections(
                (q % 0x10_0000_0000) as u64,
                index + 1,
            ) by {
                let slot = (q % 0x10_0000_0000) as u64;
                if leaf_entry(middle@.mem, root, q) is Some {
                    if leaf_entry(before@.mem, root, q) is None {
                        let j = choose|j: int|
                            0 <= j < index && in_section(
                                #[trigger] boot_info.elf_sections@[j],
                                slot,
                            );
                        assert(in_section(boot_info.elf_sections@[j], slot));
                    }
                } else {
                    reveal(added);
                    assert(in_section(boot_info.elf_sections@[index as int], slot));
                }
            }
        }
        index += 1;
    }
    Ok(())
}

/// First part of the remapping: a scratch page with its pool, a fresh
/// hierarchy, and the recursive mapping pointed at it.
fn remap_prepare<A: FrameAllocator>(active_table: &mut ActivePageTable, allocator: &mut A) -> (result:
    Result<(TemporaryPage, ParkedTable), MemoryError>)
    requires
        old(active_table).wf(),
        old(allocator).wf(),
        forall|n: u64| #[trigger]
            old(allocator).available().contains(n) ==> !old(active_table).mapper.is_table(n) && n
                != old(active_table).mapper@.cr3,
    ensures
        final(allocator).wf(),
        final(allocator).available().subset_of(old(allocator).available()),
        result matches Err(e) ==> preparing_failure(
            e,
            &old(active_table).mapper,
            old(allocator).available(),
            final(allocator).available(),
        ),
        at_most(old(allocator).available().difference(final(allocator).available()), 4),
        result matches Ok((temporary_page, parked)) ==> {
            let after = final(active_table).mapper;
            &&& populating(&after, &parked, final(allocator).available())
            &&& temporary_page.wf()
            &&& parked.window_page() == temporary_page.page().number
            &&& after@.cr3 == old(active_table).mapper@.cr3
            &&& old(allocator).available().contains(after.root())
            &&& forall|q: u64|
                index4(q) != 511 ==> (#[trigger] leaf_entry(after@.mem, after.root(), q)) is None
        },
{
    let ghost s0 = active_table.mapper;
    let ghost a0 = allocator.available();
    proof {
        lemma_slot_number(SCRATCH_PAGE, SCRATCH_PAGE);
    }
    let mut temporary_page = TemporaryPage::new(Page { number: 0xcafebabe }, allocator);
    let ghost pool = temporary_page.pool();
    let ghost fresh = temporary_page;
    let ghost a1 = allocator.available();
    proof {
        assert(a0.difference(a1).subset_of(pool));
        vstd::set_lib::lemma_len_subset(a0.difference(a1), pool);
    }
    let frame = match allocator.allocate_frame() {
        Some(frame) => frame,
        None => {
            return Err(MemoryError::FramesExhausted);
        },
    };
    let ghost a2 = allocator.available();
    proof {
        let one = Set::<u64>::empty().insert(frame.number);
        assert(a1.difference(a2).subset_of(one));
        vstd::set_lib::lemma_len_subset(a1.difference(a2), one);
        lemma_at_most_steps(a0, a1, a2, 3, 1);
        assert(a1.contains(frame.number));
        assert(a0.contains(frame.number) && !pool.contains(frame.number));
        assert forall|n: u64| #[trigger] pool.contains(n) implies !s0.is_table(n) && n
            != s0@.cr3 by {
            assert(a0.contains(n));
        }
    }
    let new_table = match InactivePageTable::try_new(frame, active_table, &mut temporary_page) {
        Ok(table) => table,
        Err(e) => {
            proof {
                let scratch = Page { number: SCRATCH_PAGE };
                assert(temporary_page.page() == scratch);
                if e is FramesExhausted {
                    fresh.lemma_full_pool();
                    lemma_fewer_rises(pool, s0.missing_tables(scratch), 3);
                }
                if e is MisalignedFrame {
                    assert(!allocator.available().contains(frame.number));
                    assert forall|n: u64| pool.contains(n) implies !allocator.available().contains(
                        n,
                    ) by {
                        assert(!a1.contains(n));
                    }
                }
            }
            return Err(e);
        },
    };
    let ghost s1 = active_table.mapper;
    let ghost pool1 = temporary_page.pool();
    proof {
        assert forall|n: u64| #[trigger] pool1.contains(n) implies !s1.is_table(n) && n
            != s1@.cr3 && !new_table.is_table(n) by {
            assert(pool.contains(n));
            assert(a0.contains(n));
        }
        assert forall|f: u64| #[trigger] new_table.is_table(f) implies !s1.is_table(f) by {
            if s1.is_table(f) {
                assert(s0.is_table(f) || pool.contains(f));
            }
        }
    }
    let parked = match active_table.try_with_begin(new_table, &mut temporary_page) {
        Ok(parked) => parked,
        Err(e) => {
            return Err(e);
        },
    };
    proof {
        let s2 = active_table.mapper;
        let root = frame.number;
        crate::memory::paging::mapper::lemma_plain_kept(s1@.mem, root, s2@.mem, root);
        assert forall|f: u64| #[trigger] parked.is_table(f) implies s0.is_table(f)
            || pool.contains(f) by {
            if !s1.is_table(f) {
                assert(pool1.contains(f));
            } else {
                assert(s0.is_table(f) || pool.contains(f));
            }
        }
        assert forall|f: u64| #[trigger] parked.is_table(f) implies !s2.is_table(f) by {
            if s2.is_table(f) {
                assert(new_table.is_table(f));
            }
        }
        assert forall|n: u64| #[trigger] a2.contains(n) implies !s2.is_table(n) && n != s2@.cr3
            && !parked.is_table(n) by {
            assert(a1.contains(n) && n != frame.number);
            assert(a0.contains(n) && !pool.contains(n));
            if s2.is_table(n) {
                assert(new_table.is_table(n));
            }
        }
        assert forall|q: u64| index4(q) != 511 implies (#[trigger] leaf_entry(s2@.mem, root, q))
            is None by {
            lemma_kept_page(s1@.mem, root, s2@.mem, root, q);
            assert(translate_page_spec(s1@.mem, root, q) == Ok::<Option<u64>, MemoryError>(None));
        }
    }
    Ok((temporary_page, parked))
}

/// Second part of the remapping: the sections of the kernel image, the
/// text buffer of the console and the boot information are mapped in the
/// hierarchy that the recursive mapping shows.
fn remap_populate<A: FrameAllocator>(
    active_table: &mut ActivePageTable,
    parked: &ParkedTable,
    boot_info: &BootInformation,
    allocator: &mut A,
) -> (result: Result<(), MemoryError>)
    requires
        old(allocator).wf(),
        populating(&old(active_table).mapper, parked, old(allocator).available()),
        boot_info.mappable(),
    ensures
        final(allocator).wf(),
        final(allocator).available().subset_of(old(allocator).available()),
        !(result matches Err(MemoryError::MisalignedFrame)) ==> at_most(
            old(allocator).available().difference(final(allocator).available()),
            3 * boot_info.planned_frames(),
        ),
        result matches Err(e) ==> mapping_failure(
            e,
            old(allocator).available(),
            final(allocator).available(),
        ),
        result matches Err(MemoryError::DoubleMapping) ==> boot_info.overlapping() || exists|
            q: u64,
        |
            index4(q) != 511 && (#[trigger] leaf_entry(
                old(active_table).mapper@.mem,
                old(active_table).mapper.root(),
                q,
            )) is Some,
        result is Ok ==> {
            let before = old(active_table).mapper;
            let after = final(active_table).mapper;
            &&& populating(&after, parked, final(allocator).available())
            &&& after.root() == before.root()
            &&& forall|n: u64, bits: u64| #[trigger]
                boot_info.plans(n, bits) ==> identity_mapped(after@.mem, after.root(), n, bits)
            &&& forall|q: u64|
                index4(q) != 511 && (#[trigger] leaf_entry(after@.mem, after.root(), q)) is Some
                    ==> leaf_entry(before@.mem, before.root(), q) is Some || boot_info.claims(
                    (q % 0x10_0000_0000) as u64,
                )
        },
{
    let ghost s2 = active_table.mapper;
    let ghost root = s2.root();
    let ghost a2 = allocator.available();
    match map_sections(active_table, parked, boot_info, allocator) {
        Ok(()) => {},
        Err(e) => {
            proof {
                if e is DoubleMapping {
                    let (j, n) = choose|j: int, n: u64|
                        0 <= j < boot_info.elf_sections@.len() && #[trigger] in_section(
                            boot_info.elf_sections@[j],
                            n,
                        ) && (leaf_entry(s2@.mem, root, n) is Some || boot_info.in_sections(n, j));
                    boot_info.lemma_claims_below(n);
                    lemma_slot_number(n, n);
                }
            }
            return Err(e);
        },
    }
    let ghost s3 = active_table.mapper;
    let ghost a3 = allocator.available();
    // The text buffer of the console.
    let vga_buffer_frame = Frame::containing_address(0xb8000);
    match map_identity(active_table, parked, vga_buffer_frame, EntryFlags::writable(), allocator) {
        Ok(()) => {},
        Err(e) => {
            proof {
                if !(e is MisalignedFrame) {
                    lemma_at_most_steps(
                        a2,
                        a3,
                        allocator.available(),
                        3 * boot_info.section_frames(boot_info.elf_sections@.len() as int),
                        3,
                    );
                }
                if e is DoubleMapping {
                    lemma_slot_number(VGA_BUFFER / 4096, VGA_BUFFER / 4096);
                }
            }
            return Err(e);
        },
    }
    let ghost s4 = active_table.mapper;
    let ghost a4 = allocator.available();
    proof {
        lemma_at_most_steps(
            a2,
            a3,
            a4,
            3 * boot_info.section_frames(boot_info.elf_sections@.len() as int),
            3,
        );
    }
    // The boot information.
    let multiboot_start = Frame::containing_address(boot_info.start_address);
    let multiboot_end = Frame::containing_address(boot_info.end_address - 1);
    match map_range(
        active_table,
        parked,
        multiboot_start,
        multiboot_end,
        EntryFlags::present(),
        allocator,
    ) {
        Ok(()) => {},
        Err(e) => {
            proof {
                if !(e is MisalignedFrame) {
                    lemma_at_most_steps(
                        a2,
                        a4,
                        allocator.available(),
                        3 * boot_info.section_frames(boot_info.elf_sections@.len() as int) + 3,
                        3 * range_frames(multiboot_start.number, multiboot_end.number),
                    );
                }
                if e is DoubleMapping {
                    reveal(added);
                    let n = choose|n: u64|
                        multiboot_start.number <= n <= multiboot_end.number && (
                        #[trigger] leaf_entry(s4@.mem, root, n)) is Some;
                    lemma_slot_number(n, n);
                    assert(boot_info.holds(n));
                    if leaf_entry(s3@.mem, root, n) is Some {
                    }
                }
            }
            return Err(e);
        },
    }
    proof {
        let s5 = active_table.mapper;
        lemma_at_most_steps(
            a2,
            a4,
            allocator.available(),
            3 * boot_info.section_frames(boot_info.elf_sections@.len() as int) + 3,
            3 * range_frames(multiboot_start.number, multiboot_end.number),
        );
        lemma_carried_trans(s3@.mem, root, s4@.mem, root, s5@.mem, root);
        assert forall|n: u64, bits: u64| #[trigger] boot_info.plans(n, bits) implies identity_mapped(
            s5@.mem,
            root,
            n,
            bits,
        ) by {
            lemma_slot_number(n, n);
            if boot_info.holds(n) && bits == PRESENT | PRESENT {
            } else if n == VGA_BUFFER / 4096 && bits == WRITABLE | PRESENT {
                lemma_carried_mapping(s4@.mem, root, s5@.mem, root, n, bits);
            } else {
                let i = choose|i: int|
                    0 <= i < boot_info.elf_sections@.len() && in_section(
                        #[trigger] boot_info.elf_sections@[i],
                        n,
                    ) && bits == section_bits(boot_info.elf_sections@[i]);
                assert(in_section(boot_info.elf_sections@[i], n));
                lemma_carried_mapping(s3@.mem, root, s5@.mem, root, n, bits);
            }
        }
        assert forall|q: u64|
            index4(q) != 511 && (#[trigger] leaf_entry(s5@.mem, root, q)) is Some implies
            leaf_entry(s2@.mem, root, q) is Some || boot_info.claims(
            (q % 0x10_0000_0000) as u64,
        ) by {
            reveal(added);
            if leaf_entry(s4@.mem, root, q) is Some {
                if leaf_entry(s3@.mem, root, q) is Some {
                }
            }
        }
    }
    Ok(())
}

/// Last part of the remapping: the recursive entry is put back, the new
/// hierarchy becomes the active one, and the page at the address of the
/// old root table is unmapped.
fn remap_finish<A: FrameAllocator>(
    active_table: &mut ActivePageTable,
    parked: ParkedTable,
    temporary_page: &mut TemporaryPage,
    allocator: &mut A,
) -> (result: Result<(), MemoryError>)
    requires
        populating(&old(active_table).mapper, &parked, old(allocator).available()),
        old(temporary_page).wf(),
        parked.window_page() == old(temporary_page).page().number,
    ensures
        *final(allocator) == *old(allocator),
        result matches Err(e) ==> {
            &&& e is UnmappedUnmap
            &&& old(active_table).mapper@.cr3 >= RECURSIVE_FIRST_PAGE || leaf_entry(
                old(active_table).mapper@.mem,
                old(active_table).mapper.root(),
                old(active_table).mapper@.cr3,
            ) is None
        },
        result is Ok ==> {
            let before = old(active_table).mapper;
            let after = final(active_table).mapper;
            let guard = before@.cr3;
            let root = before.root();
            &&& final(active_table).wf()
            &&& after.plain()
            &&& after@.cr3 == root
            &&& after.root() == root
            &&& after@.tlb == Map::<u64, u64>::empty().remove(guard)
            &&& forall|f: u64| after.is_table(f) == before.is_table(f)
            &&& guard < RECURSIVE_FIRST_PAGE
            &&& leaf_entry(before@.mem, root, guard) is Some
            &&& after.translation(Page { number: guard }) == Ok::<Option<u64>, MemoryError>(
                None,
            )
            &&& forall|q: u64|
                index4(q) != 511 && q % 0x10_0000_0000 != guard ==> {
                    &&& #[trigger] leaf_entry(after@.mem, root, q) == leaf_entry(
                        before@.mem,
                        root,
                        q,
                    )
                    &&& translate_page_spec(after@.mem, root, q) == translate_page_spec(
                        before@.mem,
                        root,
                        q,
                    )
                }
            &&& forall|q: u64|
                index4(q) != 511 && q % 0x10_0000_0000 == guard ==> (#[trigger] leaf_entry(
                    after@.mem,
                    root,
                    q,
                )) is None
        },
{
    let ghost s5 = active_table.mapper;
    let ghost root = s5.root();
    let ghost guard = s5@.cr3;
    let new_table = active_table.with_end(parked, temporary_page);
    let ghost s6 = active_table.mapper;
    proof {
        assert forall|f: u64| new_table.is_table(f) implies !s6.is_table(f) by {
            assert(s5.is_table(f));
            if s6.is_table(f) {
                assert(parked.is_table(f));
            }
        }
    }
    let old_table = active_table.switch(new_table);
    let ghost s7 = active_table.mapper;
    // The page of the old root table becomes the guard page.
    let old_p4_frame = old_table.p4_frame();
    if old_p4_frame.number >= RECURSIVE_FIRST_PAGE {
        return Err(MemoryError::UnmappedUnmap);
    }
    proof {
        lemma_slot_number(old_p4_frame.number, old_p4_frame.number);
    }
    let old_p4_page = Page::containing_address(old_p4_frame.start_address());
    proof {
        assert(s7.root() == root);
        assert(old_p4_page.number == guard);
        lemma_kept_page(s5@.mem, root, s6@.mem, root, guard);
        crate::memory::paging::mapper::lemma_plain_kept(s5@.mem, root, s6@.mem, root);
        assert(s7.plain());
        s7.lemma_plain_page(old_p4_page);
    }
    match active_table.mapper.try_unmap(old_p4_page, allocator) {
        Ok(()) => {},
        Err(e) => {
            proof {
                s7.lemma_mapping_facts(old_p4_page);
                assert(s7.mapping(old_p4_page) is None);
            }
            return Err(e);
        },
    }
    proof {
        let s8 = active_table.mapper;
        assert(s7.root() == root);
        assert(old_p4_page.number == guard);
        assert(s8@.tlb == Map::<u64, u64>::empty().remove(guard));
        assert forall|f: u64| s8.is_table(f) == s5.is_table(f) by {
            assert(s8.is_table(f) == s7.is_table(f));
            assert(s7.is_table(f) == new_table.is_table(f));
            assert(new_table.is_table(f) == s5.is_table(f));
        }
        s7.lemma_mapping_facts(old_p4_page);
        lemma_kept_page(s5@.mem, root, s6@.mem, root, guard);
        assert(leaf_entry(s5@.mem, root, guard) is Some);
        assert(s8.translation(Page { number: guard }) == Ok::<Option<u64>, MemoryError>(None));
        assert forall|q: u64| index4(q) != 511 && q % 0x10_0000_0000 != guard implies {
            &&& #[trigger] leaf_entry(s8@.mem, root, q) == leaf_entry(s5@.mem, root, q)
            &&& translate_page_spec(s8@.mem, root, q) == translate_page_spec(s5@.mem, root, q)
        } by {
            lemma_kept_page(s5@.mem, root, s6@.mem, root, q);
            lemma_slot_number(q, guard);
            s8.lemma_same_translation(&s7, Some(old_p4_page), Page { number: q });
        }
        assert forall|q: u64| index4(q) != 511 && q % 0x10_0000_0000 == guard implies (
        #[trigger] leaf_entry(s8@.mem, root, q)) is None by {
            lemma_slot_number(q, guard);
            s8.lemma_same_slot(Page { number: q }, old_p4_page);
        }
    }
    Ok(())
}

/// Moves the machine to a hierarchy of the kernel's own making.
///
/// A new hierarchy is built in frames of `allocator` while the present one
/// stays in use. In it every frame of a section of the kernel image that
/// occupies memory is mapped to itself with the flags that the section
/// asks for, the frame of the console's text buffer is mapped to itself
/// writable, and the frames of the boot information are mapped to
/// themselves read-only. Then the root register is pointed at the new
/// hierarchy, and the page at the address of the old root table is
/// unmapped: it is the guard page below the kernel's stack.
///
/// The call must be one that cannot fail: see [`remap_succeeds`].
pub fn remap_the_kernel<A: FrameAllocator>(
    active_table: ActivePageTable,
    allocator: &mut A,
    boot_info: &BootInformation,
) -> (table: ActivePageTable)
    requires
        active_table.wf(),
        old(allocator).wf(),
        boot_info.mappable(),
        forall|n: u64| #[trigger]
            old(allocator).available().contains(n) ==> !active_table.mapper.is_table(n) && n
                != active_table.mapper@.cr3,
        remap_succeeds(&active_table.mapper, boot_info, old(allocator).available()),
    ensures
        final(allocator).wf(),
        final(allocator).available().subset_of(old(allocator).available()),
        at_most(
            old(allocator).available().difference(final(allocator).available()),
            boot_info.remap_budget(),
        ),
        ({
            let guard = active_table.mapper@.cr3;
            &&& table.wf()
            &&& table.mapper.plain()
            &&& old(allocator).available().contains(table.mapper@.cr3)
            &&& table.mapper@.tlb == Map::<u64, u64>::empty().remove(guard)
            &&& forall|n: u64| #[trigger]
                final(allocator).available().contains(n) ==> !table.mapper.is_table(n) && n
                    != table.mapper@.cr3
            &&& guard < RECURSIVE_FIRST_PAGE
            &&& boot_info.claims(guard)
            &&& table.mapper.translation(Page { number: guard }) == Ok::<
                Option<u64>,
                MemoryError,
            >(None)
            &&& forall|n: u64, bits: u64|
                n != guard && #[trigger] boot_info.plans(n, bits) ==> {
                    &&& table.mapper.mapping(Page { number: n }) == Some(
                        Entry(entry_value(n, bits)),
                    )
                    &&& table.mapper.translation(Page { number: n }) == Ok::<
                        Option<u64>,
                        MemoryError,
                    >(Some(n))
                }
            &&& forall|q: Page|
                !q.is_recursive() && (#[trigger] table.mapper.mapping(q)) is Some ==> {
                    &&& boot_info.claims((q.number % 0x10_0000_0000) as u64)
                    &&& q.number % 0x10_0000_0000 != guard
                }
        }),
{
    proof {
        assert(old(allocator).available().difference(Set::<u64>::empty())
            =~= old(allocator).available());
    }
    match try_remap_the_kernel(active_table, allocator, boot_info) {
        Ok(table) => table,
        Err(_) => vstd::pervasive::unreached(),
    }
}

/// The conditions under which the remapping cannot fail, sufficient and not
/// all of them necessary: the scratch page at [`SCRATCH_PAGE`] is free in
/// the active hierarchy, the frame of the active root table fits in an
/// entry and is one of the frames that are mapped, no frame is to be mapped
/// twice, and `frames`, what the allocator holds, has more frames than the
/// remapping can take and none whose number no entry can hold.
pub open spec fn remap_succeeds(active: &Mapper, boot_info: &BootInformation, frames: Set<u64>) -> bool {
    let scratch = Page { number: SCRATCH_PAGE };
    &&& active.translation(scratch) == Ok::<Option<u64>, MemoryError>(None)
    &&& active.slot(scratch).0 == 0
    &&& !active.huge_in_way(scratch)
    &&& active@.cr3 < crate::memory::paging::entry::FRAME_NUMBER_LIMIT
    &&& boot_info.claims(active@.cr3)
    &&& !boot_info.overlapping()
    &&& !at_most(frames, boot_info.remap_budget())
    &&& forall|n: u64|
        #[trigger] frames.contains(n) ==> n < crate::memory::paging::entry::FRAME_NUMBER_LIMIT
}

/// Moves the machine to a hierarchy of the kernel's own making.
///
/// A new hierarchy is built in frames of `allocator` while the present one
/// stays in use. In it every frame of a section of the kernel image that
/// occupies memory is mapped to itself with the flags that the section
/// asks for, the frame of the console's text buffer is mapped to itself
/// writable, and the frames of the boot information are mapped to
/// themselves read-only. Then the root register is pointed at the new
/// hierarchy, and the page at the address of the old root table is
/// unmapped: it is the guard page below the kernel's stack.
///
/// Fails with `FramesExhausted` where the allocator runs dry, with
/// `MisalignedFrame` where a frame has a number that no entry can hold,
/// with `DoubleMapping` where the scratch page is in use or a frame is to
/// be mapped twice, with `UnsupportedHugePage` where a huge page stands in
/// the way of the scratch page, and with `UnmappedUnmap` where the frame
/// of the old root table is not one of the frames that are mapped. After a
/// failure there is no way back to the old hierarchy.
pub fn try_remap_the_kernel<A: FrameAllocator>(
    active_table: ActivePageTable,
    allocator: &mut A,
    boot_info: &BootInformation,
) -> (result: Result<ActivePageTable, MemoryError>)
    requires
        active_table.wf(),
        old(allocator).wf(),
        boot_info.mappable(),
        forall|n: u64| #[trigger]
            old(allocator).available().contains(n) ==> !active_table.mapper.is_table(n) && n
                != active_table.mapper@.cr3,
    ensures
        final(allocator).wf(),
        final(allocator).available().subset_of(old(allocator).available()),
        remap_succeeds(&active_table.mapper, boot_info, old(allocator).available()) ==> result is Ok,
        result matches Err(e) ==> match e {
            MemoryError::FramesExhausted => final(allocator).available() =~= Set::<u64>::empty(),
            MemoryError::MisalignedFrame => {
                ||| active_table.mapper.translation(Page { number: SCRATCH_PAGE }) is Err
                ||| active_table.mapper@.cr3 >= crate::memory::paging::entry::FRAME_NUMBER_LIMIT
                ||| exists|n: u64|
                    n >= crate::memory::paging::entry::FRAME_NUMBER_LIMIT && #[trigger] old(allocator).available().contains(n) && !final(allocator).available().contains(n)
            },
            MemoryError::UnmappedUnmap => !boot_info.claims(active_table.mapper@.cr3),
            MemoryError::DoubleMapping => {
                ||| active_table.mapper.translation(Page { number: SCRATCH_PAGE }) matches Ok(
                    Some(_),
                )
                ||| active_table.mapper.slot(Page { number: SCRATCH_PAGE }).0 != 0
                ||| boot_info.overlapping()
            },
            MemoryError::UnsupportedHugePage => active_table.mapper.huge_in_way(
                Page { number: SCRATCH_PAGE },
            ),
            _ => false,
        },
        !(result matches Err(MemoryError::MisalignedFrame)) ==> at_most(
            old(allocator).available().difference(final(allocator).available()),
            boot_info.remap_budget(),
        ),
        result matches Ok(table) ==> {
            let guard = active_table.mapper@.cr3;
            &&& table.wf()
            &&& table.mapper.plain()
            &&& old(allocator).available().contains(table.mapper@.cr3)
            &&& table.mapper@.tlb == Map::<u64, u64>::empty().remove(guard)
            &&& forall|n: u64| #[trigger]
                final(allocator).available().contains(n) ==> !table.mapper.is_table(n) && n
                    != table.mapper@.cr3
            &&& guard < RECURSIVE_FIRST_PAGE
            &&& boot_info.claims(guard)
            &&& table.mapper.translation(Page { number: guard }) == Ok::<
                Option<u64>,
                MemoryError,
            >(None)
            &&& forall|n: u64, bits: u64|
                n != guard && #[trigger] boot_info.plans(n, bits) ==> {
                    &&& table.mapper.mapping(Page { number: n }) == Some(
                        Entry(entry_value(n, bits)),
                    )
                    &&& table.mapper.translation(Page { number: n }) == Ok::<
                        Option<u64>,
                        MemoryError,
                    >(Some(n))
                }
            &&& forall|q: Page|
                !q.is_recursive() && (#[trigger] table.mapper.mapping(q)) is Some ==> {
                    &&& boot_info.claims((q.number % 0x10_0000_0000) as u64)
                    &&& q.number % 0x10_0000_0000 != guard
                }
        },
{
    let mut active_table = active_table;
    let ghost guard = active_table.mapper@.cr3;
    let (mut temporary_page, parked) = match remap_prepare(&mut active_table, allocator) {
        Ok(pair) => pair,
        Err(e) => {
            proof {
                if e is FramesExhausted {
                    assert(old(allocator).available().difference(allocator.available())
                        =~= old(allocator).available());
                }
            }
            return Err(e);
        },
    };
    let ghost s2 = active_table.mapper;
    let ghost root = s2.root();
    let ghost prepared = allocator.available();
    match remap_populate(&mut active_table, &parked, boot_info, allocator) {
        Ok(()) => {},
        Err(e) => {
            proof {
                if !(e is MisalignedFrame) {
                    lemma_at_most_steps(
                        old(allocator).available(),
                        prepared,
                        allocator.available(),
                        4,
                        3 * boot_info.planned_frames(),
                    );
                }
                if e is FramesExhausted {
                    assert(old(allocator).available().difference(allocator.available())
                        =~= old(allocator).available());
                }
            }
            return Err(e);
        },
    }
    proof {
        lemma_at_most_steps(
            old(allocator).available(),
            prepared,
            allocator.available(),
            4,
            3 * boot_info.planned_frames(),
        );
    }
    let ghost s5 = active_table.mapper;
    match remap_finish(&mut active_table, parked, &mut temporary_page, allocator) {
        Ok(()) => {},
        Err(e) => {
            proof {
                if boot_info.claims(guard) {
                    boot_info.lemma_claims_below(guard);
                    let bits = boot_info.lemma_claims_plans(guard);
                    assert(identity_mapped(s5@.mem, root, guard, bits));
                }
            }
            return Err(e);
        },
    }
    proof {
        let s8 = active_table.mapper;
        s5.lemma_wf();
        assert(s8.root() == root);
        assert(s8@.cr3 == root);
        assert forall|n: u64| #[trigger] allocator.available().contains(n) implies !s8.is_table(
            n,
        ) && n != s8@.cr3 by {
            assert(!s5.is_table(n));
            assert(s5.is_table(root));
            assert(s8.is_table(n) == s5.is_table(n));
        }
        assert forall|n: u64, bits: u64| n != guard && #[trigger] boot_info.plans(
            n,
            bits,
        ) implies identity_mapped(s8@.mem, root, n, bits) by {
            lemma_slot_number(n, n);
            assert(identity_mapped(s5@.mem, root, n, bits));
            assert(leaf_entry(s8@.mem, root, n) == leaf_entry(s5@.mem, root, n));
        }
        assert forall|q: Page| !q.is_recursive() && (#[trigger] s8.mapping(q)) is Some implies {
            &&& boot_info.claims((q.number % 0x10_0000_0000) as u64)
            &&& q.number % 0x10_0000_0000 != guard
        } by {
            if q.number % 0x10_0000_0000 == guard {
                assert(leaf_entry(s8@.mem, root, q.number) is None);
            } else {
                assert(leaf_entry(s8@.mem, root, q.number) == leaf_entry(
                    s5@.mem,
                    root,
                    q.number,
                ));
                assert(leaf_entry(s2@.mem, root, q.number) is None);
            }
        }
        lemma_slot_number(guard, guard);
        assert(leaf_entry(s2@.mem, root, guard) is None);
    }
    Ok(active_table)
}

} // verus!
