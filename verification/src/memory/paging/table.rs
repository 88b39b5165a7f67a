//! Page tables, reached through the recursive mapping.
//!
//! The last entry of the root table names the root table itself. With it
//! the table behind entry `index` of a table at address `A` is found at
//! `(A << 9) | (index << 12)`, and the root table at [`P4`]. A [`Table`] is
//! such an address together with the level of the table.
use std::marker::PhantomData;
use vstd::prelude::*;
use crate::memory::machine::{
    entry_at, hardware_translate, table_walk, walk, walk_reads, word_address, Machine,
    MachineView,
};
use crate::memory::paging::entry::{
    entry_value, lemma_frame_number_bound, lemma_link_entry, Entry, EntryFlags,
    FRAME_NUMBER_LIMIT, PRESENT, WRITABLE,
};
use crate::memory::paging::{index1, index2, index3, index4};
use crate::memory::paging::mapper::can_supply;
use crate::memory::{Frame, FrameAllocator, MemoryError};

verus! {

/// Virtual address of the root table under the recursive mapping.
pub const P4: u64 = 0xffffffff_fffff000;

/// The level of a table.
pub trait TableLevel {
    /// Number of table levels from this one down to the data: 4 for the
    /// root, 1 for the tables whose entries name data frames.
    spec fn depth() -> nat;

    proof fn depth_bounds()
        ensures
            1 <= Self::depth() <= 4,
    ;
}

/// Level of the root table.
pub enum Level4 {
    Marker,
}

/// Level of the tables that the root table names.
pub enum Level3 {
    Marker,
}

/// Level of the tables that name the tables of the first level.
pub enum Level2 {
    Marker,
}

/// Level of the tables whose entries name data frames.
pub enum Level1 {
    Marker,
}

impl TableLevel for Level4 {
    open spec fn depth() -> nat {
        4
    }

    proof fn depth_bounds() {
    }
}

impl TableLevel for Level3 {
    open spec fn depth() -> nat {
        3
    }

    proof fn depth_bounds() {
    }
}

impl TableLevel for Level2 {
    open spec fn depth() -> nat {
        2
    }

    proof fn depth_bounds() {
    }
}

impl TableLevel for Level1 {
    open spec fn depth() -> nat {
        1
    }

    proof fn depth_bounds() {
    }
}

/// A level whose tables name tables of a next level.
pub trait HierarchicalLevel: TableLevel {
    type NextLevel: TableLevel;

    proof fn next_depth()
        ensures
            Self::NextLevel::depth() + 1 == Self::depth(),
    ;
}

impl HierarchicalLevel for Level4 {
    type NextLevel = Level3;

    proof fn next_depth() {
    }
}

impl HierarchicalLevel for Level3 {
    type NextLevel = Level2;

    proof fn next_depth() {
    }
}

impl HierarchicalLevel for Level2 {
    type NextLevel = Level1;

    proof fn next_depth() {
    }
}

/// Frame of the table that the recursive mapping shows as the root: the one
/// that the last entry of the active root table names.
pub open spec fn recursive_root(mv: MachineView) -> u64 {
    entry_at(mv.mem, mv.cr3, 511).frame_number()
}

/// The recursive mapping is in place: the last entry of the active root
/// table links to a table whose own last entry links to itself.
pub open spec fn recursion_ok(mv: MachineView) -> bool {
    let root = recursive_root(mv);
    &&& entry_at(mv.mem, mv.cr3, 511).links()
    &&& entry_at(mv.mem, root, 511).links()
    &&& entry_at(mv.mem, root, 511).frame_number() == root
}

/// The shape of the page number of a table of the given depth under the
/// recursive mapping: its leading indices select the recursive entry.
pub open spec fn shaped(depth: nat, page: u64) -> bool {
    &&& index4(page) == 511
    &&& depth >= 2 ==> index3(page) == 511
    &&& depth >= 3 ==> index2(page) == 511
    &&& depth >= 4 ==> index1(page) == 511
}

/// `child` is the page that the address formula gives for entry `index` of
/// the table at page `parent`.
pub open spec fn is_child_page(parent: u64, child: u64, index: int) -> bool {
    &&& index1(child) == index
    &&& index2(child) == index1(parent)
    &&& index3(child) == index2(parent)
    &&& index4(child) == index3(parent)
}

/// The address formula of the recursive mapping.
pub open spec fn next_address(address: u64, index: u64) -> u64 {
    (address << 9) | (index << 12)
}

/// The formula moves every index of the address up by one level and makes
/// `index` the lowest one.
pub proof fn lemma_next_address(address: u64, index: u64)
    by (bit_vector)
    requires
        address % 4096 == 0,
        index < 512,
    ensures
        ((address << 9) | (index << 12)) % 4096 == 0,
        (((address << 9) | (index << 12)) / 4096) % 512 == index,
        ((((address << 9) | (index << 12)) / 4096) / 512) % 512 == (address / 4096) % 512,
        ((((address << 9) | (index << 12)) / 4096) / 0x4_0000) % 512 == ((address / 4096) / 512)
            % 512,
        ((((address << 9) | (index << 12)) / 4096) / 0x800_0000) % 512 == ((address / 4096)
            / 0x4_0000) % 512,
{
}

/// Every index of the root table's address selects the recursive entry.
pub proof fn lemma_root_address()
    ensures
        P4 % 4096 == 0,
        shaped(4, (P4 / 4096) as u64),
{
}

/// Under the recursive mapping the root table's address leads to the
/// recursive root.
pub proof fn lemma_root_walk(mv: MachineView, page: u64)
    requires
        recursion_ok(mv),
        shaped(4, page),
    ensures
        table_walk(mv.mem, mv.cr3, page) == Some(recursive_root(mv)),
{
    let root = recursive_root(mv);
    lemma_frame_number_bound(entry_at(mv.mem, mv.cr3, 511).0);
}

/// Under the recursive mapping the child address of a table leads to the
/// frame that the entry names.
pub proof fn lemma_child_walk(mv: MachineView, depth: nat, parent: u64, child: u64, index: int)
    requires
        2 <= depth <= 4,
        0 <= index < 512,
        recursion_ok(mv),
        shaped(depth, parent),
        is_child_page(parent, child, index),
        table_walk(mv.mem, mv.cr3, parent) is Some,
        entry_at(mv.mem, table_walk(mv.mem, mv.cr3, parent)->Some_0, index).links(),
    ensures
        shaped((depth - 1) as nat, child),
        table_walk(mv.mem, mv.cr3, child) == Some(
            entry_at(mv.mem, table_walk(mv.mem, mv.cr3, parent)->Some_0, index).frame_number(),
        ),
        walk(mv.mem, mv.cr3, child).e4 == entry_at(mv.mem, mv.cr3, 511),
        walk(mv.mem, mv.cr3, child).e3 == walk(mv.mem, mv.cr3, parent).e2,
        walk(mv.mem, mv.cr3, child).e2 == walk(mv.mem, mv.cr3, parent).e1,
{
    let root = recursive_root(mv);
    let w = walk(mv.mem, mv.cr3, parent);
    assert(w.e4 == entry_at(mv.mem, mv.cr3, 511));
    assert(w.e3 == entry_at(mv.mem, root, 511));
    assert(w.e3.frame_number() == root);
}

/// `frame` holds the active root table or a table that the translation of
/// `page` passes through.
pub open spec fn on_path(mv: MachineView, page: u64, frame: u64) -> bool {
    let w = walk(mv.mem, mv.cr3, page);
    ||| frame == mv.cr3
    ||| frame == w.e4.frame_number()
    ||| frame == w.e3.frame_number()
    ||| frame == w.e2.frame_number()
    ||| frame == w.e1.frame_number()
}

/// Memory after a fresh table in frame `created` was hung into slot `index`
/// of the table in frame `parent`: the slot links to the frame, and the
/// frame is cleared.
pub open spec fn with_new_table(mem: Map<u64, u64>, parent: u64, index: int, created: u64) -> Map<
    u64,
    u64,
> {
    zeroed(mem.insert(word_address(parent, index), entry_value(created, PRESENT | WRITABLE)), created)
}

/// The address is that of one of the first `count` slots of `frame`.
pub open spec fn in_prefix(frame: u64, count: int, a: u64) -> bool {
    frame * 4096 <= a < frame * 4096 + count * 8 && a % 8 == 0
}

/// Memory with the first `count` slots of the table in `frame` cleared.
pub open spec fn zero_prefix(mem: Map<u64, u64>, frame: u64, count: int) -> Map<u64, u64> {
    Map::new(
        |a: u64| mem.contains_key(a) || in_prefix(frame, count, a),
        |a: u64|
            if in_prefix(frame, count, a) {
                0u64
            } else {
                mem[a]
            },
    )
}

/// Memory with the whole table in `frame` cleared.
pub open spec fn zeroed(mem: Map<u64, u64>, frame: u64) -> Map<u64, u64> {
    zero_prefix(mem, frame, 512)
}

/// One more slot makes the prefix one address longer.
proof fn lemma_prefix_step(frame: u64, index: int, a: u64)
    requires
        frame < FRAME_NUMBER_LIMIT,
        0 <= index < 512,
    ensures
        in_prefix(frame, index + 1, a) == (in_prefix(frame, index, a) || a == word_address(
            frame,
            index,
        )),
        !in_prefix(frame, 0, a),
{
    assert(word_address(frame, index) == frame * 4096 + index * 8);
    if a % 8 == 0 && frame * 4096 + index * 8 <= a < frame * 4096 + index * 8 + 8 {
        assert(a == frame * 4096 + index * 8);
    }
}

/// Clearing one more slot extends the cleared prefix by one.
proof fn lemma_zero_step(mem: Map<u64, u64>, frame: u64, index: int)
    requires
        frame < FRAME_NUMBER_LIMIT,
        0 <= index < 512,
    ensures
        zero_prefix(mem, frame, index).insert(word_address(frame, index), 0) =~= zero_prefix(
            mem,
            frame,
            index + 1,
        ),
        zero_prefix(mem, frame, 0) =~= mem,
{
    let a = zero_prefix(mem, frame, index).insert(word_address(frame, index), 0);
    let b = zero_prefix(mem, frame, index + 1);
    assert forall|k: u64| a.contains_key(k) == b.contains_key(k) by {
        lemma_prefix_step(frame, index, k);
    }
    assert forall|k: u64| a.contains_key(k) implies a[k] == b[k] by {
        lemma_prefix_step(frame, index, k);
    }
    assert forall|k: u64| zero_prefix(mem, frame, 0).contains_key(k) == mem.contains_key(k) by {
        lemma_prefix_step(frame, index, k);
    }
    assert forall|k: u64| mem.contains_key(k) implies zero_prefix(mem, frame, 0)[k] == mem[k] by {
        lemma_prefix_step(frame, index, k);
    }
}

/// A page table, named by its virtual address and its level.
pub struct Table<L: TableLevel> {
    address: u64,
    level: PhantomData<L>,
}

impl<L: TableLevel> Clone for Table<L> {
    fn clone(&self) -> (table: Table<L>)
        ensures
            table == *self,
    {
        Table { address: self.address, level: PhantomData }
    }
}

impl<L: TableLevel> Copy for Table<L> {

}

impl<L: TableLevel> Table<L> {
    /// Virtual address of the table.
    pub closed spec fn address(&self) -> u64 {
        self.address
    }

    /// Number of the page that holds the table.
    pub open spec fn page(&self) -> u64 {
        self.address() / 4096
    }

    /// The address leads to a table: it is page aligned, and every entry
    /// that its translation reads links on.
    pub open spec fn valid(&self, mv: MachineView) -> bool {
        &&& self.address() % 4096 == 0
        &&& table_walk(mv.mem, mv.cr3, self.page()) is Some
    }

    /// The address is the one that the recursive mapping gives a table of
    /// this level, and the recursive mapping is in place.
    pub open spec fn recursive(&self, mv: MachineView) -> bool {
        &&& recursion_ok(mv)
        &&& shaped(L::depth(), self.page())
    }

    /// Number of the frame that holds the table.
    pub open spec fn frame(&self, mv: MachineView) -> u64 {
        table_walk(mv.mem, mv.cr3, self.page())->Some_0
    }

    /// Writing slot `index` of this table leaves the way to the table as it
    /// is: the translation of the table's address does not read the slot.
    pub open spec fn writable_at(&self, mv: MachineView, index: int) -> bool {
        !walk_reads(mv.mem, mv.cr3, self.page(), self.frame(mv), index)
    }

    /// The table at a virtual address.
    pub(crate) fn at(address: u64) -> (table: Table<L>)
        ensures
            table.address() == address,
    {
        Table { address, level: PhantomData }
    }

    /// The virtual address of the table.
    pub fn start_address(&self) -> (address: u64)
        ensures
            address == self.address(),
    {
        self.address
    }

    /// The entry in slot `index`.
    pub fn entry(&self, machine: &Machine, index: usize) -> (entry: Entry)
        requires
            self.valid(machine@),
            index < 512,
        ensures
            entry == entry_at(machine@.mem, self.frame(machine@), index as int),
    {
        proof {
            let w = walk(machine@.mem, machine@.cr3, self.page());
            lemma_frame_number_bound(w.e1.0);
        }
        match machine.read(self.address + (index as u64) * 8) {
            Some(value) => Entry(value),
            None => Entry(0),
        }
    }

    /// Writes the entry in slot `index`.
    pub fn set_entry(&self, machine: &mut Machine, index: usize, entry: Entry)
        requires
            self.valid(old(machine)@),
            index < 512,
            self.writable_at(old(machine)@, index as int),
        ensures
            final(machine)@ == (MachineView {
                mem: old(machine)@.mem.insert(
                    word_address(self.frame(old(machine)@), index as int),
                    entry.0,
                ),
                ..old(machine)@
            }),
            self.valid(final(machine)@),
            walk(final(machine)@.mem, final(machine)@.cr3, self.page()) == walk(
                old(machine)@.mem,
                old(machine)@.cr3,
                self.page(),
            ),
    {
        proof {
            let w = walk(machine@.mem, machine@.cr3, self.page());
            lemma_frame_number_bound(w.e1.0);
            lemma_frame_number_bound(w.e2.0);
            lemma_frame_number_bound(w.e3.0);
            lemma_frame_number_bound(w.e4.0);
        }
        let stored = machine.write(self.address + (index as u64) * 8, entry.0);
        assert(stored);
    }

    /// Clears every entry.
    pub fn zero(&self, machine: &mut Machine)
        requires
            self.valid(old(machine)@),
            forall|i: int| 0 <= i < 512 ==> self.writable_at(old(machine)@, i),
        ensures
            final(machine)@ == (MachineView {
                mem: zeroed(old(machine)@.mem, self.frame(old(machine)@)),
                ..old(machine)@
            }),
            self.valid(final(machine)@),
            self.frame(final(machine)@) == self.frame(old(machine)@),
    {
        let ghost frame = self.frame(machine@);
        let ghost before = machine@;
        let mut index: usize = 0;
        proof {
            lemma_frame_number_bound(walk(before.mem, before.cr3, self.page()).e1.0);
            lemma_zero_step(before.mem, frame, 0);
        }
        while index < 512
            invariant
                0 <= index <= 512,
                self.valid(machine@),
                self.frame(machine@) == frame,
                frame == self.frame(before),
                frame < FRAME_NUMBER_LIMIT,
                walk(machine@.mem, machine@.cr3, self.page()) == walk(
                    before.mem,
                    before.cr3,
                    self.page(),
                ),
                forall|i: int| 0 <= i < 512 ==> self.writable_at(before, i),
                machine@ == (MachineView {
                    mem: zero_prefix(before.mem, frame, index as int),
                    ..before
                }),
            decreases 512 - index,
        {
            let mut entry = self.entry(machine, index);
            entry.set_unused();
            assert(self.writable_at(before, index as int));
            self.set_entry(machine, index, entry);
            proof {
                lemma_zero_step(before.mem, frame, index as int);
            }
            index += 1;
        }
    }
}

impl<L: HierarchicalLevel> Table<L> {
    /// The virtual address of the table that entry `index` names:
    /// `(address << 9) | (index << 12)`. `None` unless the entry is present
    /// and is not a huge page.
    pub fn next_table_address(&self, machine: &Machine, index: usize) -> (address: Option<u64>)
        requires
            self.valid(machine@),
            index < 512,
        ensures
            address == if entry_at(machine@.mem, self.frame(machine@), index as int).links() {
                Some(next_address(self.address(), index as u64))
            } else {
                None::<u64>
            },
    {
        let entry_flags = self.entry(machine, index).flags();
        if entry_flags.contains(EntryFlags::present()) && !entry_flags.contains(
            EntryFlags::huge_page(),
        ) {
            let table_address = self.address;
            Some((table_address << 9) | ((index as u64) << 12))
        } else {
            None
        }
    }

    /// The table that entry `index` names, if the entry names one.
    pub fn next_table(&self, machine: &Machine, index: usize) -> (table: Option<
        Table<L::NextLevel>,
    >)
        requires
            self.valid(machine@),
            self.recursive(machine@),
            index < 512,
        ensures
            match table {
                Some(next) => {
                    &&& entry_at(machine@.mem, self.frame(machine@), index as int).links()
                    &&& next.address() == next_address(self.address(), index as u64)
                    &&& is_child_page(self.page(), next.page(), index as int)
                    &&& next.valid(machine@)
                    &&& next.recursive(machine@)
                    &&& next.frame(machine@) == entry_at(
                        machine@.mem,
                        self.frame(machine@),
                        index as int,
                    ).frame_number()
                    &&& walk(machine@.mem, machine@.cr3, next.page()).e4 == entry_at(
                        machine@.mem,
                        machine@.cr3,
                        511,
                    )
                    &&& walk(machine@.mem, machine@.cr3, next.page()).e3 == walk(
                        machine@.mem,
                        machine@.cr3,
                        self.page(),
                    ).e2
                    &&& walk(machine@.mem, machine@.cr3, next.page()).e2 == walk(
                        machine@.mem,
                        machine@.cr3,
                        self.page(),
                    ).e1
                },
                None => !entry_at(machine@.mem, self.frame(machine@), index as int).links(),
            },
    {
        match self.next_table_address(machine, index) {
            Some(address) => {
                proof {
                    L::depth_bounds();
                    L::next_depth();
                    <L::NextLevel as TableLevel>::depth_bounds();
                    lemma_next_address(self.address, index as u64);
                    lemma_child_walk(
                        machine@,
                        L::depth(),
                        self.page(),
                        (address / 4096) as u64,
                        index as int,
                    );
                }
                Some(Table::at(address))
            },
            None => None,
        }
    }

    /// The table that the entry at `index` points to, made first where the
    /// entry is unused: a frame is taken from `allocator`, linked present
    /// and writable, and cleared. The entry must not map a huge page, and
    /// where it is unused the allocator must hold a frame, and none whose
    /// number no entry can hold.
    pub fn next_table_create<A: FrameAllocator>(
        &self,
        machine: &mut Machine,
        index: usize,
        allocator: &mut A,
    ) -> (next: Table<L::NextLevel>)
        requires
            self.valid(old(machine)@),
            self.recursive(old(machine)@),
            index < 512,
            self.writable_at(old(machine)@, index as int),
            old(allocator).wf(),
            forall|n: u64| #[trigger]
                old(allocator).available().contains(n) ==> !on_path(
                    old(machine)@,
                    self.page(),
                    n,
                ),
            ({
                let slot = entry_at(old(machine)@.mem, self.frame(old(machine)@), index as int);
                slot.links() || (!slot.huge() && can_supply(old(allocator).available(), 1))
            }),
        ensures
            final(allocator).wf(),
            final(machine)@.cr3 == old(machine)@.cr3,
            final(machine)@.tlb == old(machine)@.tlb,
            self.valid(final(machine)@),
            self.frame(final(machine)@) == self.frame(old(machine)@),
            next.address() == next_address(self.address(), index as u64),
            is_child_page(self.page(), next.page(), index as int),
            next.valid(final(machine)@),
            next.recursive(final(machine)@),
            ({
                let slot = entry_at(old(machine)@.mem, self.frame(old(machine)@), index as int);
                let created = next.frame(final(machine)@);
                if slot.links() {
                    &&& final(machine)@ == old(machine)@
                    &&& final(allocator).available() == old(allocator).available()
                    &&& created == slot.frame_number()
                } else {
                    &&& old(allocator).available().contains(created)
                    &&& final(allocator).available() == old(allocator).available().remove(
                        created,
                    )
                    &&& final(machine)@.mem == with_new_table(
                        old(machine)@.mem,
                        self.frame(old(machine)@),
                        index as int,
                        created,
                    )
                }
            }),
    {
        match self.try_next_table_create(machine, index, allocator) {
            Ok(next) => next,
            Err(_) => vstd::pervasive::unreached(),
        }
    }

    pub fn try_next_table_create<A: FrameAllocator>(
        &self,
        machine: &mut Machine,
        index: usize,
        allocator: &mut A,
    ) -> (result: Result<Table<L::NextLevel>, MemoryError>)
        requires
            self.valid(old(machine)@),
            self.recursive(old(machine)@),
            index < 512,
            self.writable_at(old(machine)@, index as int),
            old(allocator).wf(),
            forall|n: u64| #[trigger]
                old(allocator).available().contains(n) ==> !on_path(
                    old(machine)@,
                    self.page(),
                    n,
                ),
        ensures
            final(allocator).wf(),
            final(machine)@.cr3 == old(machine)@.cr3,
            final(machine)@.tlb == old(machine)@.tlb,
            self.valid(final(machine)@),
            self.frame(final(machine)@) == self.frame(old(machine)@),
            walk(final(machine)@.mem, final(machine)@.cr3, self.page()) == walk(
                old(machine)@.mem,
                old(machine)@.cr3,
                self.page(),
            ),
            final(allocator).available().subset_of(old(allocator).available()),
            ({
                let slot = entry_at(old(machine)@.mem, self.frame(old(machine)@), index as int);
                slot.links() || (!slot.huge() && can_supply(old(allocator).available(), 1))
            }) ==> result is Ok,
            match result {
                Ok(next) => {
                    let slot = entry_at(old(machine)@.mem, self.frame(old(machine)@), index as int);
                    let created = next.frame(final(machine)@);
                    &&& next.address() == next_address(self.address(), index as u64)
                    &&& is_child_page(self.page(), next.page(), index as int)
                    &&& next.valid(final(machine)@)
                    &&& next.recursive(final(machine)@)
                    &&& walk(final(machine)@.mem, final(machine)@.cr3, next.page()).e4 == entry_at(
                        old(machine)@.mem,
                        old(machine)@.cr3,
                        511,
                    )
                    &&& walk(final(machine)@.mem, final(machine)@.cr3, next.page()).e3 == walk(
                        old(machine)@.mem,
                        old(machine)@.cr3,
                        self.page(),
                    ).e2
                    &&& walk(final(machine)@.mem, final(machine)@.cr3, next.page()).e2 == walk(
                        old(machine)@.mem,
                        old(machine)@.cr3,
                        self.page(),
                    ).e1
                    &&& if slot.links() {
                        &&& final(machine)@ == old(machine)@
                        &&& final(allocator).available() == old(allocator).available()
                        &&& created == slot.frame_number()
                    } else {
                        &&& !slot.huge()
                        &&& created < FRAME_NUMBER_LIMIT
                        &&& old(allocator).available().contains(created)
                        &&& final(allocator).available() == old(allocator).available().remove(
                            created,
                        )
                        &&& final(machine)@.mem == with_new_table(
                            old(machine)@.mem,
                            self.frame(old(machine)@),
                            index as int,
                            created,
                        )
                    }
                },
                Err(e) => {
                    let slot = entry_at(old(machine)@.mem, self.frame(old(machine)@), index as int);
                    &&& !slot.links()
                    &&& final(machine)@ == old(machine)@
                    &&& match e {
                        MemoryError::UnsupportedHugePage => {
                            &&& slot.huge()
                            &&& final(allocator).available() == old(allocator).available()
                        },
                        MemoryError::FramesExhausted => {
                            &&& !slot.huge()
                            &&& old(allocator).available() =~= Set::<u64>::empty()
                        },
                        MemoryError::MisalignedFrame => {
                            &&& !slot.huge()
                            &&& exists|n: u64|
                                n >= FRAME_NUMBER_LIMIT && #[trigger] old(allocator).available().contains(n) && final(allocator).available() == old(allocator).available().remove(n)
                        },
                        _ => false,
                    }
                },
            },
    {
        let ghost before = machine@;
        let ghost parent = self.frame(before);
        if let Some(next) = self.next_table(machine, index) {
            return Ok(next);
        }
        let mut entry = self.entry(machine, index);
        if entry.flags().contains(EntryFlags::huge_page()) {
            return Err(MemoryError::UnsupportedHugePage);
        }
        let frame = match allocator.allocate_frame() {
            Some(frame) => frame,
            None => {
                return Err(MemoryError::FramesExhausted);
            },
        };
        match entry.try_set(frame, EntryFlags::present().union(EntryFlags::writable())) {
            Ok(()) => {},
            Err(e) => {
                return Err(e);
            },
        }
        proof {
            lemma_link_entry(frame.number);
            lemma_frame_number_bound(walk(before.mem, before.cr3, self.page()).e1.0);
        }
        self.set_entry(machine, index, entry);
        let ghost linked = machine@;
        assert(entry_at(linked.mem, parent, index as int) == entry);
        match self.next_table(machine, index) {
            Some(next) => {
                assert(next.frame(linked) == frame.number);
                assert forall|i: int| 0 <= i < 512 implies next.writable_at(linked, i) by {
                    assert(!on_path(before, self.page(), frame.number));
                }
                next.zero(machine);
                proof {
                    let cleared = machine@;
                    assert(walk(cleared.mem, cleared.cr3, self.page()) == walk(
                        before.mem,
                        before.cr3,
                        self.page(),
                    )) by {
                        assert(!on_path(before, self.page(), frame.number));
                    }
                }
                Ok(next)
            },
            None => vstd::pervasive::unreached(),
        }
    }
}

} // verus!
