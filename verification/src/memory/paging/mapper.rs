//! Translating, mapping and unmapping pages in the hierarchy that the
//! recursive mapping shows.
use vstd::prelude::*;
use crate::memory::machine::{
    backed, entry_at, hardware_translate, table_walk, walk, walk_reads, word_address, Machine,
    MachineView, Walk,
};
use crate::memory::paging::entry::{
    entry_value, lemma_frame_number_bound, lemma_huge_entry, lemma_link_entry,
    lemma_present_entry, Entry, EntryFlags, FRAME_NUMBER_LIMIT, HUGE_PAGE, PRESENT, WRITABLE,
};
use crate::memory::paging::table::{
    in_prefix, is_child_page, lemma_root_address, lemma_root_walk, on_path, recursion_ok,
    recursive_root, shaped, with_new_table, zeroed, HierarchicalLevel, Level1, Level2, Level3,
    Level4, Table, TableLevel, P4,
};
use crate::memory::paging::{index1, index2, index3, index4, Page, VirtualAddress, ENTRY_COUNT};
use crate::memory::{Frame, FrameAllocator, MemoryError, PhysicalAddress, PAGE_SIZE};

verus! {

/// The place of a table in a hierarchy: the root, or the table reached from
/// the root through the given indices.
pub enum TableRole {
    Root,
    Third(int),
    Second(int, int),
    First(int, int, int),
}

/// The role of the table that entry `index` of a table names.
pub open spec fn child_role(role: TableRole, index: int) -> TableRole {
    match role {
        TableRole::Root => TableRole::Third(index),
        TableRole::Third(a) => TableRole::Second(a, index),
        TableRole::Second(a, b) => TableRole::First(a, b, index),
        TableRole::First(a, b, c) => TableRole::First(a, b, c),
    }
}

/// Number of table levels from a table of this role down to the data.
pub open spec fn rank(role: TableRole) -> int {
    match role {
        TableRole::Root => 4,
        TableRole::Third(_) => 3,
        TableRole::Second(_, _) => 2,
        TableRole::First(_, _, _) => 1,
    }
}

/// What the mapping code makes of `page` in the hierarchy whose root table
/// lies in frame `root`: the frame it maps to, `None` where it is not
/// mapped, or `MisalignedFrame` where a huge page's frame is not aligned to
/// the huge page's size.
#[verifier::opaque]
pub open spec fn translate_page_spec(mem: Map<u64, u64>, root: u64, page: u64) -> Result<
    Option<u64>,
    MemoryError,
> {
    let w = walk(mem, root, page);
    if !w.e4.links() {
        Ok(None)
    } else if w.e3.links() && w.e2.links() && w.e1.present() {
        Ok(Some(w.e1.frame_number()))
    } else if w.e3.present() && w.e3.huge() {
        if w.e3.frame_number() % 0x4_0000 == 0 {
            Ok(Some((w.e3.frame_number() + index2(page) * 512 + index1(page)) as u64))
        } else {
            Err(MemoryError::MisalignedFrame)
        }
    } else if w.e3.links() && w.e2.present() && w.e2.huge() {
        if w.e2.frame_number() % 512 == 0 {
            Ok(Some((w.e2.frame_number() + index1(page)) as u64))
        } else {
            Err(MemoryError::MisalignedFrame)
        }
    } else {
        Ok(None)
    }
}

/// The entry that maps `page` as a 4 KiB page, if the three tables on the
/// way exist and the entry is present.
#[verifier::opaque]
pub open spec fn leaf_entry(mem: Map<u64, u64>, root: u64, page: u64) -> Option<Entry> {
    let w = walk(mem, root, page);
    if w.e4.links() && w.e3.links() && w.e2.links() && w.e1.present() {
        Some(w.e1)
    } else {
        None
    }
}

/// The three tables on the way to `page` exist.
/// What stands on the way to `page`: whether an entry that maps a huge page
/// stands where a table would have to be, and the slot of the page in its
/// table of the first level, unused where that table does not exist.
#[verifier::opaque]
pub open spec fn way(mem: Map<u64, u64>, root: u64, page: u64) -> (bool, Entry) {
    let w = walk(mem, root, page);
    (
        (!w.e4.links() && w.e4.huge()) || (w.e4.links() && !w.e3.links() && w.e3.huge()) || (
        w.e4.links() && w.e3.links() && !w.e2.links() && w.e2.huge()),
        if w.e4.links() && w.e3.links() && w.e2.links() {
            w.e1
        } else {
            Entry(0)
        },
    )
}

pub open spec fn tables_exist(mem: Map<u64, u64>, root: u64, page: u64) -> bool {
    let w = walk(mem, root, page);
    w.e4.links() && w.e3.links() && w.e2.links()
}

/// Where the mapping code finds a frame for a page, the hardware finds the
/// same one.
pub proof fn lemma_translation_matches_hardware(mem: Map<u64, u64>, root: u64, page: u64)
    requires
        translate_page_spec(mem, root, page) is Ok,
    ensures
        hardware_translate(mem, root, page) == translate_page_spec(mem, root, page)->Ok_0,
{
    reveal(translate_page_spec);
    reveal(leaf_entry);
}

/// The labelling `roles` fits the hierarchy that the recursive mapping
/// shows: the root is labelled as such, labelled frames hold whole tables,
/// and each linking entry of a labelled table names the table with the
/// child's label. A frame has one label, so no table serves twice.
#[verifier::opaque]
pub open spec fn hierarchy_ok(mv: MachineView, roles: Map<u64, TableRole>) -> bool {
    let root = recursive_root(mv);
    &&& recursion_ok(mv)
    &&& roles.contains_key(root)
    &&& roles[root] == TableRole::Root
    &&& mv.cr3 < FRAME_NUMBER_LIMIT
    &&& (mv.cr3 == root || !roles.contains_key(mv.cr3))
    &&& forall|f: u64| #[trigger] roles.contains_key(f) ==> backed(mv.mem, f)
    &&& forall|f: u64, i: int|
        #![trigger roles.contains_key(f), entry_at(mv.mem, f, i)]
        roles.contains_key(f) && 0 <= i < 512 && entry_at(mv.mem, f, i).links() && !(roles[f]
            == TableRole::Root && i == 511) && !(roles[f] is First) ==> {
            &&& roles.contains_key(entry_at(mv.mem, f, i).frame_number())
            &&& roles[entry_at(mv.mem, f, i).frame_number()] == child_role(roles[f], i)
        }
}

/// The entries of memory after one slot was written.
proof fn lemma_entry_after_write(
    mem: Map<u64, u64>,
    table: u64,
    slot: int,
    value: u64,
    f: u64,
    i: int,
)
    requires
        table < FRAME_NUMBER_LIMIT,
        0 <= slot < 512,
        0 <= i < 512,
    ensures
        entry_at(mem.insert(word_address(table, slot), value), f, i) == if f == table && i
            == slot {
            Entry(value)
        } else {
            entry_at(mem, f, i)
        },
{
}

/// The entries of memory after a table was cleared.
proof fn lemma_entry_after_clear(mem: Map<u64, u64>, frame: u64, f: u64, i: int)
    requires
        frame < FRAME_NUMBER_LIMIT,
        0 <= i < 512,
    ensures
        entry_at(zeroed(mem, frame), f, i) == if f == frame {
            Entry(0)
        } else {
            entry_at(mem, f, i)
        },
        f == frame ==> zeroed(mem, frame).contains_key(word_address(f, i)),
        mem.contains_key(word_address(f, i)) ==> zeroed(mem, frame).contains_key(
            word_address(f, i),
        ),
{
    if f < FRAME_NUMBER_LIMIT {
        let a = word_address(f, i);
        assert(a == f * 4096 + i * 8);
        assert(a % 8 == 0);
        assert((frame * 4096 <= a < frame * 4096 + 512 * 8) == (f == frame));
        assert(in_prefix(frame, 512, a) == (f == frame));
    }
}

/// A word outside a table is not touched when the table is cleared.
proof fn lemma_word_after_clear(mem: Map<u64, u64>, frame: u64, a: u64)
    requires
        frame < FRAME_NUMBER_LIMIT,
        a / 4096 != frame,
    ensures
        zeroed(mem, frame).contains_key(a) == mem.contains_key(a),
        mem.contains_key(a) ==> zeroed(mem, frame)[a] == mem[a],
{
    assert(!in_prefix(frame, 512, a));
}

/// The entries of memory after a fresh table was hung in.
proof fn lemma_new_table_entries(mem: Map<u64, u64>, parent: u64, index: int, created: u64)
    requires
        parent < FRAME_NUMBER_LIMIT,
        created < FRAME_NUMBER_LIMIT,
        parent != created,
        0 <= index < 512,
    ensures
        backed(with_new_table(mem, parent, index, created), created),
        forall|f: u64| backed(mem, f) ==> #[trigger] backed(
            with_new_table(mem, parent, index, created),
            f,
        ),
        forall|f: u64, i: int|
            0 <= i < 512 ==> #[trigger] entry_at(with_new_table(mem, parent, index, created), f, i)
                == if f == created {
                Entry(0)
            } else if f == parent && i == index {
                Entry(entry_value(created, PRESENT | crate::memory::paging::entry::WRITABLE))
            } else {
                entry_at(mem, f, i)
            },
        forall|a: u64|
            a / 4096 != parent && a / 4096 != created ==> {
                &&& #[trigger] with_new_table(mem, parent, index, created).contains_key(a)
                    == mem.contains_key(a)
                &&& mem.contains_key(a) ==> with_new_table(mem, parent, index, created)[a]
                    == mem[a]
            },
{
    let value = entry_value(created, PRESENT | crate::memory::paging::entry::WRITABLE);
    let linked = mem.insert(word_address(parent, index), value);
    let after = with_new_table(mem, parent, index, created);
    assert(after == zeroed(linked, created));
    assert forall|i: int| 0 <= i < 512 implies after.contains_key(
        #[trigger] word_address(created, i),
    ) by {
        lemma_entry_after_clear(linked, created, created, i);
    }
    assert forall|f: u64| backed(mem, f) implies #[trigger] backed(after, f) by {
        assert forall|i: int| 0 <= i < 512 implies after.contains_key(
            #[trigger] word_address(f, i),
        ) by {
            assert(mem.contains_key(word_address(f, i)));
            lemma_entry_after_clear(linked, created, f, i);
        }
    }
    assert forall|f: u64, i: int| 0 <= i < 512 implies #[trigger] entry_at(after, f, i) == if f
        == created {
        Entry(0)
    } else if f == parent && i == index {
        Entry(value)
    } else {
        entry_at(mem, f, i)
    } by {
        lemma_entry_after_clear(linked, created, f, i);
        lemma_entry_after_write(mem, parent, index, value, f, i);
    }
    assert forall|a: u64| a / 4096 != parent && a / 4096 != created implies {
        &&& #[trigger] after.contains_key(a) == mem.contains_key(a)
        &&& mem.contains_key(a) ==> after[a] == mem[a]
    } by {
        lemma_word_after_clear(linked, created, a);
        assert(word_address(parent, index) == parent * 4096 + index * 8);
    }
}

/// Hanging a fresh, cleared table into an entry that was not present keeps
/// the hierarchy sound and changes no translation outside the range of the
/// recursive mapping.
proof fn lemma_new_table(
    mv: MachineView,
    roles: Map<u64, TableRole>,
    parent: u64,
    index: int,
    created: u64,
    after: MachineView,
)
    requires
        hierarchy_ok(mv, roles),
        roles.contains_key(parent),
        !(roles[parent] is First),
        !(roles[parent] == TableRole::Root && index == 511),
        0 <= index < 512,
        !entry_at(mv.mem, parent, index).present(),
        !roles.contains_key(created),
        created != mv.cr3,
        !entry_at(mv.mem, parent, index).huge(),
        created < FRAME_NUMBER_LIMIT,
        after == (MachineView { mem: with_new_table(mv.mem, parent, index, created), ..mv }),
    ensures
        hierarchy_ok(after, roles.insert(created, child_role(roles[parent], index))),
        recursive_root(after) == recursive_root(mv),
        forall|page: u64|
            index4(page) != 511 ==> {
                &&& #[trigger] translate_page_spec(after.mem, recursive_root(mv), page)
                    == translate_page_spec(mv.mem, recursive_root(mv), page)
                &&& leaf_entry(after.mem, recursive_root(mv), page) == leaf_entry(
                    mv.mem,
                    recursive_root(mv),
                    page,
                )
                &&& way(after.mem, recursive_root(mv), page) == way(
                    mv.mem,
                    recursive_root(mv),
                    page,
                )
            },
{
    reveal(hierarchy_ok);
    let root = recursive_root(mv);
    let new_roles = roles.insert(created, child_role(roles[parent], index));
    assert(backed(mv.mem, parent));
    lemma_new_table_entries(mv.mem, parent, index, created);
    crate::memory::paging::entry::lemma_link_entry(created);
    assert(Entry(0).0 & PRESENT == 0) by (bit_vector);
    assert(entry_at(after.mem, after.cr3, 511) == entry_at(mv.mem, mv.cr3, 511));
    assert(entry_at(after.mem, root, 511) == entry_at(mv.mem, root, 511));
    assert forall|f: u64, i: int|
        #![trigger new_roles.contains_key(f), entry_at(after.mem, f, i)]
        new_roles.contains_key(f) && 0 <= i < 512 && entry_at(after.mem, f, i).links() && !(
        new_roles[f] == TableRole::Root && i == 511) && !(new_roles[f] is First) implies {
        &&& new_roles.contains_key(entry_at(after.mem, f, i).frame_number())
        &&& new_roles[entry_at(after.mem, f, i).frame_number()] == child_role(new_roles[f], i)
    } by {
        if f != created && !(f == parent && i == index) {
            assert(roles.contains_key(f));
            assert(entry_at(mv.mem, f, i).links());
        }
    }
    assert forall|page: u64| index4(page) != 511 implies {
        &&& #[trigger] translate_page_spec(after.mem, root, page) == translate_page_spec(
            mv.mem,
            root,
            page,
        )
        &&& leaf_entry(after.mem, root, page) == leaf_entry(mv.mem, root, page)
        &&& way(after.mem, root, page) == way(mv.mem, root, page)
    } by {
        lemma_new_table_page(mv, roles, parent, index, created, after, page);
    }
}

/// One page's part of [`lemma_new_table`].
proof fn lemma_new_table_page(
    mv: MachineView,
    roles: Map<u64, TableRole>,
    parent: u64,
    index: int,
    created: u64,
    after: MachineView,
    page: u64,
)
    requires
        hierarchy_ok(mv, roles),
        roles.contains_key(parent),
        !(roles[parent] is First),
        !(roles[parent] == TableRole::Root && index == 511),
        0 <= index < 512,
        !entry_at(mv.mem, parent, index).present(),
        !roles.contains_key(created),
        created != mv.cr3,
        !entry_at(mv.mem, parent, index).huge(),
        created < FRAME_NUMBER_LIMIT,
        after == (MachineView { mem: with_new_table(mv.mem, parent, index, created), ..mv }),
        index4(page) != 511,
    ensures
        translate_page_spec(after.mem, recursive_root(mv), page) == translate_page_spec(
            mv.mem,
            recursive_root(mv),
            page,
        ),
        leaf_entry(after.mem, recursive_root(mv), page) == leaf_entry(
            mv.mem,
            recursive_root(mv),
            page,
        ),
        way(after.mem, recursive_root(mv), page) == way(mv.mem, recursive_root(mv), page),
{
    reveal(translate_page_spec);
    reveal(leaf_entry);
    reveal(way);
    assert(Entry(0).0 & crate::memory::paging::entry::HUGE_PAGE == 0) by (bit_vector);
    reveal(hierarchy_ok);
    let root = recursive_root(mv);
    assert(backed(mv.mem, parent));
    lemma_new_table_entries(mv.mem, parent, index, created);
    crate::memory::paging::entry::lemma_link_entry(created);
    assert(Entry(0).0 & PRESENT == 0) by (bit_vector);
    let w = walk(mv.mem, root, page);
    let v = walk(after.mem, root, page);
    let i4 = index4(page) as int;
    let i3 = index3(page) as int;
    let i2 = index2(page) as int;
    let i1 = index1(page) as int;
    assert(w.e4 == entry_at(mv.mem, root, i4));
    assert(v.e4 == entry_at(after.mem, root, i4));
    if root == parent && i4 == index {
        assert(v.e3 == Entry(0));
    } else {
        assert(v.e4 == w.e4);
        if w.e4.links() {
            let t3 = w.e4.frame_number();
            assert(roles.contains_key(t3) && roles[t3] == TableRole::Third(i4));
            assert(w.e3 == entry_at(mv.mem, t3, i3));
            if t3 == parent && i3 == index {
                assert(v.e2 == Entry(0));
            } else {
                assert(v.e3 == w.e3);
                if w.e3.links() {
                    let t2 = w.e3.frame_number();
                    assert(roles.contains_key(t2) && roles[t2] == TableRole::Second(i4, i3));
                    assert(w.e2 == entry_at(mv.mem, t2, i2));
                    if t2 == parent && i2 == index {
                        assert(v.e1 == Entry(0));
                    } else {
                        assert(v.e2 == w.e2);
                        if w.e2.links() {
                            let t1 = w.e2.frame_number();
                            assert(roles.contains_key(t1) && roles[t1] == TableRole::First(
                                i4,
                                i3,
                                i2,
                            ));
                            assert(v.e1 == w.e1);
                        }
                    }
                }
            }
        }
    }
}

/// Writing one slot of a table of the first level keeps the hierarchy sound
/// and changes the translation of no page but the ones that the slot maps.
proof fn lemma_leaf_written(
    mv: MachineView,
    roles: Map<u64, TableRole>,
    table: u64,
    slot: int,
    value: u64,
    after: MachineView,
)
    requires
        hierarchy_ok(mv, roles),
        roles.contains_key(table),
        roles[table] is First,
        0 <= slot < 512,
        after == (MachineView { mem: mv.mem.insert(word_address(table, slot), value), ..mv }),
    ensures
        hierarchy_ok(after, roles),
        recursive_root(after) == recursive_root(mv),
        forall|f: u64, i: int|
            0 <= i < 512 ==> #[trigger] entry_at(after.mem, f, i) == if f == table && i == slot {
                Entry(value)
            } else {
                entry_at(mv.mem, f, i)
            },
        forall|a: u64|
            a / 4096 != table ==> {
                &&& #[trigger] after.mem.contains_key(a) == mv.mem.contains_key(a)
                &&& mv.mem.contains_key(a) ==> after.mem[a] == mv.mem[a]
            },
{
    reveal(hierarchy_ok);
    let root = recursive_root(mv);
    assert(table < FRAME_NUMBER_LIMIT) by {
        assert(backed(mv.mem, table));
    }
    assert(word_address(table, slot) == table * 4096 + slot * 8);
    assert forall|f: u64, i: int| 0 <= i < 512 implies #[trigger] entry_at(after.mem, f, i) == if f
        == table && i == slot {
        Entry(value)
    } else {
        entry_at(mv.mem, f, i)
    } by {}
    assert forall|f: u64| #[trigger] roles.contains_key(f) implies backed(after.mem, f) by {
        assert(backed(mv.mem, f));
        assert forall|i: int| 0 <= i < 512 implies after.mem.contains_key(
            #[trigger] word_address(f, i),
        ) by {
            assert(mv.mem.contains_key(word_address(f, i)));
        }
    }
    assert(entry_at(after.mem, after.cr3, 511) == entry_at(mv.mem, mv.cr3, 511));
    assert(entry_at(after.mem, root, 511) == entry_at(mv.mem, root, 511));
    assert forall|f: u64, i: int|
        #![trigger roles.contains_key(f), entry_at(after.mem, f, i)]
        roles.contains_key(f) && 0 <= i < 512 && entry_at(after.mem, f, i).links() && !(roles[f]
            == TableRole::Root && i == 511) && !(roles[f] is First) implies {
        &&& roles.contains_key(entry_at(after.mem, f, i).frame_number())
        &&& roles[entry_at(after.mem, f, i).frame_number()] == child_role(roles[f], i)
    } by {
        assert(entry_at(mv.mem, f, i).links());
    }
}

/// What a write to the slot `(a, b, c, slot)` of the hierarchy does to the
/// translation of one page outside the range of the recursive mapping.
proof fn lemma_leaf_written_page(
    mv: MachineView,
    roles: Map<u64, TableRole>,
    table: u64,
    a: int,
    b: int,
    c: int,
    slot: int,
    value: u64,
    after: MachineView,
    page: u64,
)
    requires
        hierarchy_ok(mv, roles),
        roles.contains_key(table),
        roles[table] == TableRole::First(a, b, c),
        0 <= slot < 512,
        after == (MachineView { mem: mv.mem.insert(word_address(table, slot), value), ..mv }),
        index4(page) != 511,
    ensures
        ({
            let w = walk(mv.mem, recursive_root(mv), page);
            let v = walk(after.mem, recursive_root(mv), page);
            if index4(page) == a && index3(page) == b && index2(page) == c && index1(page)
                == slot {
                w.e4.links() && w.e3.links() && w.e2.links() && w.e2.frame_number() == table ==> v
                    == (Walk { e1: Entry(value), ..w })
            } else {
                &&& translate_page_spec(after.mem, recursive_root(mv), page)
                    == translate_page_spec(mv.mem, recursive_root(mv), page)
                &&& leaf_entry(after.mem, recursive_root(mv), page) == leaf_entry(
                    mv.mem,
                    recursive_root(mv),
                    page,
                )
                &&& way(after.mem, recursive_root(mv), page) == way(
                    mv.mem,
                    recursive_root(mv),
                    page,
                )
            }
        }),
{
    reveal(translate_page_spec);
    reveal(leaf_entry);
    reveal(way);
    lemma_leaf_written(mv, roles, table, slot, value, after);
    reveal(hierarchy_ok);
    let root = recursive_root(mv);
    let w = walk(mv.mem, root, page);
    let v = walk(after.mem, root, page);
    let i4 = index4(page) as int;
    let i3 = index3(page) as int;
    let i2 = index2(page) as int;
    let i1 = index1(page) as int;
    assert(w.e4 == entry_at(mv.mem, root, i4));
    assert(v.e4 == w.e4);
    if w.e4.links() {
        let t3 = w.e4.frame_number();
        assert(roles.contains_key(t3) && roles[t3] == TableRole::Third(i4));
        assert(w.e3 == entry_at(mv.mem, t3, i3));
        assert(v.e3 == w.e3);
        if w.e3.links() {
            let t2 = w.e3.frame_number();
            assert(roles.contains_key(t2) && roles[t2] == TableRole::Second(i4, i3));
            assert(w.e2 == entry_at(mv.mem, t2, i2));
            assert(v.e2 == w.e2);
            if w.e2.links() {
                let t1 = w.e2.frame_number();
                assert(roles.contains_key(t1) && roles[t1] == TableRole::First(i4, i3, i2));
                assert(w.e1 == entry_at(mv.mem, t1, i1));
                assert(v.e1 == entry_at(after.mem, t1, i1));
            }
        }
    }
}

/// A write that stays within one frame leaves the entries of every other
/// frame as they are.
proof fn lemma_entry_kept(
    before: Map<u64, u64>,
    after: Map<u64, u64>,
    written: u64,
    f: u64,
    i: int,
)
    requires
        forall|a: u64|
            a / 4096 != written ==> {
                &&& #[trigger] after.contains_key(a) == before.contains_key(a)
                &&& before.contains_key(a) ==> after[a] == before[a]
            },
        f != written,
        0 <= i < 512,
    ensures
        entry_at(after, f, i) == entry_at(before, f, i),
        f < FRAME_NUMBER_LIMIT ==> after.contains_key(word_address(f, i)) == before.contains_key(
            word_address(f, i),
        ),
{
    if f < FRAME_NUMBER_LIMIT {
        let a = word_address(f, i);
        assert(a == f * 4096 + i * 8);
        assert(a / 4096 == f);
        assert(after.contains_key(a) == before.contains_key(a));
    }
}

/// The tables that the boot code sets up, as memory holds them.
pub open spec fn boot_tables(mem: Map<u64, u64>, p4: u64, p3: u64, p2: u64) -> bool {
    &&& p4 < FRAME_NUMBER_LIMIT
    &&& p3 < FRAME_NUMBER_LIMIT
    &&& p2 < FRAME_NUMBER_LIMIT
    &&& p4 != p3
    &&& p4 != p2
    &&& p3 != p2
    &&& backed(mem, p4)
    &&& backed(mem, p3)
    &&& backed(mem, p2)
    &&& forall|i: int|
        0 <= i < 512 ==> #[trigger] entry_at(mem, p4, i) == if i == 0 {
            Entry(entry_value(p3, PRESENT | WRITABLE))
        } else if i == 511 {
            Entry(entry_value(p4, PRESENT | WRITABLE))
        } else {
            Entry(0)
        }
    &&& forall|i: int|
        0 <= i < 512 ==> #[trigger] entry_at(mem, p3, i) == if i == 0 {
            Entry(entry_value(p2, PRESENT | WRITABLE))
        } else {
            Entry(0)
        }
    &&& forall|i: int|
        0 <= i < 512 ==> #[trigger] entry_at(mem, p2, i) == Entry(
            entry_value((i * 512) as u64, (PRESENT | WRITABLE) | HUGE_PAGE),
        )
}

/// The tables of the boot code are a sound hierarchy.
proof fn lemma_boot(mv: MachineView, roles: Map<u64, TableRole>, p4: u64, p3: u64, p2: u64)
    requires
        boot_tables(mv.mem, p4, p3, p2),
        mv.cr3 == p4,
        roles == Map::<u64, TableRole>::empty().insert(p4, TableRole::Root).insert(
            p3,
            TableRole::Third(0),
        ).insert(p2, TableRole::Second(0, 0)),
    ensures
        hierarchy_ok(mv, roles),
        recursive_root(mv) == p4,
{
    let mem = mv.mem;
    lemma_link_entry(p4);
    lemma_link_entry(p3);
    lemma_link_entry(p2);
    assert(Entry(0).0 & PRESENT == 0) by (bit_vector);
    assert(entry_at(mem, p4, 511) == Entry(entry_value(p4, PRESENT | WRITABLE)));
    assert(entry_at(mem, p4, 0) == Entry(entry_value(p3, PRESENT | WRITABLE)));
    assert(entry_at(mem, p3, 0) == Entry(entry_value(p2, PRESENT | WRITABLE)));
    reveal(hierarchy_ok);
    assert forall|f: u64, i: int|
        #![trigger roles.contains_key(f), entry_at(mem, f, i)]
        roles.contains_key(f) && 0 <= i < 512 && entry_at(mem, f, i).links() && !(roles[f]
            == TableRole::Root && i == 511) && !(roles[f] is First) implies {
        &&& roles.contains_key(entry_at(mem, f, i).frame_number())
        &&& roles[entry_at(mem, f, i).frame_number()] == child_role(roles[f], i)
    } by {
        if f == p4 {
            assert(i == 0);
        } else if f == p3 {
            assert(i == 0);
        } else {
            assert(f == p2);
            lemma_huge_entry((i * 512) as u64);
        }
    }
}

/// What a page translates to in the tables of the boot code: itself within
/// the first GiB, nothing beyond.
proof fn lemma_boot_page(mv: MachineView, p4: u64, p3: u64, p2: u64, n: u64)
    requires
        boot_tables(mv.mem, p4, p3, p2),
        index4(n) != 511,
    ensures
        translate_page_spec(mv.mem, p4, n) == if n % 0x10_0000_0000 < 0x4_0000 {
            Ok::<Option<u64>, MemoryError>(Some((n % 0x10_0000_0000) as u64))
        } else {
            Ok(None)
        },
        leaf_entry(mv.mem, p4, n) is None,
{
    reveal(translate_page_spec);
    reveal(leaf_entry);
    let mem = mv.mem;
    lemma_link_entry(p4);
    lemma_link_entry(p3);
    lemma_link_entry(p2);
    assert(Entry(0).0 & PRESENT == 0) by (bit_vector);
    let w = walk(mem, p4, n);
    let i4 = index4(n) as int;
    let i3 = index3(n) as int;
    let i2 = index2(n) as int;
    assert(w.e4 == entry_at(mem, p4, i4));
    assert((n % 0x10_0000_0000 < 0x4_0000) == (i4 == 0 && i3 == 0)) by {
        assert(((n / 0x800_0000) % 512 == 0 && (n / 0x4_0000) % 512 == 0) == (n
            % 0x10_0000_0000 < 0x4_0000)) by (bit_vector);
    }
    if i4 == 0 {
        assert(w.e3 == entry_at(mem, p3, i3));
        if i3 == 0 {
            assert(w.e2 == entry_at(mem, p2, i2));
            lemma_huge_entry((i2 * 512) as u64);
            assert(n % 0x10_0000_0000 == (n / 512) % 512 * 512 + n % 512) by {
                assert(((n / 0x800_0000) % 512 == 0 && (n / 0x4_0000) % 512 == 0) ==> n
                    % 0x10_0000_0000 == (n / 512) % 512 * 512 + n % 512) by (bit_vector);
            }
            assert((i2 * 512) % 512 == 0);
        }
    }
}

/// The labelling `roles` fits the hierarchy whose root table lies in frame
/// `root`: the part of [`hierarchy_ok`] that does not speak of the
/// recursive entry.
#[verifier::opaque]
pub open spec fn tree_ok(mem: Map<u64, u64>, roles: Map<u64, TableRole>, root: u64) -> bool {
    &&& roles.contains_key(root)
    &&& roles[root] == TableRole::Root
    &&& forall|f: u64| #[trigger] roles.contains_key(f) ==> backed(mem, f)
    &&& forall|f: u64, i: int|
        #![trigger roles.contains_key(f), entry_at(mem, f, i)]
        roles.contains_key(f) && 0 <= i < 512 && entry_at(mem, f, i).links() && !(roles[f]
            == TableRole::Root && i == 511) && !(roles[f] is First) ==> {
            &&& roles.contains_key(entry_at(mem, f, i).frame_number())
            &&& roles[entry_at(mem, f, i).frame_number()] == child_role(roles[f], i)
        }
}

/// A hierarchy at rest: a tree of tables whose root names itself in its
/// last entry.
pub open spec fn dormant_ok(mem: Map<u64, u64>, roles: Map<u64, TableRole>, root: u64) -> bool {
    &&& tree_ok(mem, roles, root)
    &&& root < FRAME_NUMBER_LIMIT
    &&& entry_at(mem, root, 511).links()
    &&& entry_at(mem, root, 511).frame_number() == root
}

/// The hierarchy that the recursive mapping shows is a tree.
proof fn lemma_hierarchy_is_tree(mv: MachineView, roles: Map<u64, TableRole>)
    requires
        hierarchy_ok(mv, roles),
    ensures
        tree_ok(mv.mem, roles, recursive_root(mv)),
        recursion_ok(mv),
        mv.cr3 < FRAME_NUMBER_LIMIT,
        recursive_root(mv) < FRAME_NUMBER_LIMIT,
        mv.cr3 == recursive_root(mv) || !roles.contains_key(mv.cr3),
{
    reveal(hierarchy_ok);
    reveal(tree_ok);
    assert(backed(mv.mem, recursive_root(mv)));
}

/// A tree that the recursive mapping shows is a sound hierarchy.
proof fn lemma_tree_is_hierarchy(mv: MachineView, roles: Map<u64, TableRole>)
    requires
        tree_ok(mv.mem, roles, recursive_root(mv)),
        recursion_ok(mv),
        mv.cr3 < FRAME_NUMBER_LIMIT,
        mv.cr3 == recursive_root(mv) || !roles.contains_key(mv.cr3),
    ensures
        hierarchy_ok(mv, roles),
{
    reveal(hierarchy_ok);
    reveal(tree_ok);
}

/// Memory `after` holds the tables of `roles` as `mem` does, but perhaps
/// for the last entry of the root table.
pub open spec fn tables_kept(
    mem: Map<u64, u64>,
    after: Map<u64, u64>,
    roles: Map<u64, TableRole>,
    root: u64,
) -> bool {
    &&& after.contains_key(word_address(root, 511))
    &&& forall|a: u64|
        roles.contains_key((a / 4096) as u64) && a != word_address(root, 511) ==> {
            &&& #[trigger] after.contains_key(a) == mem.contains_key(a)
            &&& mem.contains_key(a) ==> after[a] == mem[a]
        }
}

/// Every page outside the range of the recursive mapping translates in the
/// second hierarchy as in the first, has the same mapping, and has the same
/// on its way.
#[verifier::opaque]
pub open spec fn kept(mem1: Map<u64, u64>, root1: u64, mem2: Map<u64, u64>, root2: u64) -> bool {
    forall|q: u64|
        index4(q) != 511 ==> {
            &&& #[trigger] translate_page_spec(mem2, root2, q) == translate_page_spec(
                mem1,
                root1,
                q,
            )
            &&& leaf_entry(mem2, root2, q) == leaf_entry(mem1, root1, q)
            &&& way(mem2, root2, q) == way(mem1, root1, q)
        }
}

/// In the hierarchy with the root table in frame `root`, no entry that maps
/// a huge page stands where a table would have to be, and every slot of a
/// table of the first level that is in use is a present mapping.
#[verifier::opaque]
pub open spec fn plain(mem: Map<u64, u64>, root: u64) -> bool {
    forall|q: u64|
        index4(q) != 511 ==> {
            &&& !(#[trigger] way(mem, root, q)).0
            &&& way(mem, root, q).1.0 == 0 || way(mem, root, q).1.present()
        }
}

/// A hierarchy that is kept stays plain.
pub proof fn lemma_plain_kept(mem1: Map<u64, u64>, root1: u64, mem2: Map<u64, u64>, root2: u64)
    requires
        kept(mem1, root1, mem2, root2),
        plain(mem1, root1),
    ensures
        plain(mem2, root2),
{
    reveal(kept);
    reveal(plain);
    assert forall|q: u64| index4(q) != 511 implies {
        &&& !(#[trigger] way(mem2, root2, q)).0
        &&& way(mem2, root2, q).1.0 == 0 || way(mem2, root2, q).1.present()
    } by {
        assert(translate_page_spec(mem2, root2, q) == translate_page_spec(mem1, root1, q));
        assert(way(mem2, root2, q) == way(mem1, root1, q));
    }
}

/// What [`kept`] says of one page.
pub proof fn lemma_kept_page(mem1: Map<u64, u64>, root1: u64, mem2: Map<u64, u64>, root2: u64, q: u64)
    requires
        kept(mem1, root1, mem2, root2),
        index4(q) != 511,
    ensures
        translate_page_spec(mem2, root2, q) == translate_page_spec(mem1, root1, q),
        leaf_entry(mem2, root2, q) == leaf_entry(mem1, root1, q),
        way(mem2, root2, q) == way(mem1, root1, q),
{
    reveal(kept);
}

/// [`kept`] composes.
pub proof fn lemma_kept_trans(
    mem1: Map<u64, u64>,
    root1: u64,
    mem2: Map<u64, u64>,
    root2: u64,
    mem3: Map<u64, u64>,
    root3: u64,
)
    requires
        kept(mem1, root1, mem2, root2),
        kept(mem2, root2, mem3, root3),
    ensures
        kept(mem1, root1, mem3, root3),
        kept(mem1, root1, mem1, root1),
{
    reveal(kept);
}

/// A tree whose tables are kept stays a tree, and its translations stay.
proof fn lemma_tree_kept(
    mem: Map<u64, u64>,
    after: Map<u64, u64>,
    roles: Map<u64, TableRole>,
    root: u64,
)
    requires
        tree_ok(mem, roles, root),
        tables_kept(mem, after, roles, root),
    ensures
        tree_ok(after, roles, root),
        kept(mem, root, after, root),
        forall|f: u64, i: int|
            roles.contains_key(f) && 0 <= i < 512 && !(f == root && i == 511) ==> #[trigger] entry_at(
                after,
                f,
                i,
            ) == entry_at(mem, f, i),
{
    reveal(translate_page_spec);
    reveal(leaf_entry);
    reveal(tree_ok);
    assert forall|f: u64, i: int|
        roles.contains_key(f) && 0 <= i < 512 && !(f == root && i == 511) implies #[trigger] entry_at(
        after,
        f,
        i,
    ) == entry_at(mem, f, i) by {
        assert(backed(mem, f));
        let a = word_address(f, i);
        assert(a == f * 4096 + i * 8);
        assert(a / 4096 == f);
        assert(word_address(root, 511) == root * 4096 + 511 * 8) by {
            assert(backed(mem, root));
        }
        assert(after.contains_key(a) == mem.contains_key(a));
    }
    assert forall|f: u64| #[trigger] roles.contains_key(f) implies backed(after, f) by {
        assert(backed(mem, f));
        assert forall|i: int| 0 <= i < 512 implies after.contains_key(
            #[trigger] word_address(f, i),
        ) by {
            let a = word_address(f, i);
            assert(a == f * 4096 + i * 8);
            assert(a / 4096 == f);
            assert(mem.contains_key(a));
        }
    }
    assert forall|f: u64, i: int|
        #![trigger roles.contains_key(f), entry_at(after, f, i)]
        roles.contains_key(f) && 0 <= i < 512 && entry_at(after, f, i).links() && !(roles[f]
            == TableRole::Root && i == 511) && !(roles[f] is First) implies {
        &&& roles.contains_key(entry_at(after, f, i).frame_number())
        &&& roles[entry_at(after, f, i).frame_number()] == child_role(roles[f], i)
    } by {
        assert(entry_at(mem, f, i).links());
    }
    assert(kept(mem, root, after, root)) by {
        reveal(kept);
        reveal(way);
        assert forall|q: u64| index4(q) != 511 implies {
            &&& #[trigger] translate_page_spec(after, root, q) == translate_page_spec(mem, root, q)
            &&& leaf_entry(after, root, q) == leaf_entry(mem, root, q)
            &&& way(after, root, q) == way(mem, root, q)
        } by {
            let w = walk(mem, root, q);
            let v = walk(after, root, q);
            let i4 = index4(q) as int;
            let i3 = index3(q) as int;
            let i2 = index2(q) as int;
            let i1 = index1(q) as int;
            assert(w.e4 == entry_at(mem, root, i4));
            assert(v.e4 == w.e4);
            if w.e4.links() {
                let t3 = w.e4.frame_number();
                assert(roles.contains_key(t3) && roles[t3] == TableRole::Third(i4));
                assert(w.e3 == entry_at(mem, t3, i3));
                assert(v.e3 == w.e3);
                if w.e3.links() {
                    let t2 = w.e3.frame_number();
                    assert(roles.contains_key(t2) && roles[t2] == TableRole::Second(i4, i3));
                    assert(w.e2 == entry_at(mem, t2, i2));
                    assert(v.e2 == w.e2);
                    if w.e2.links() {
                        let t1 = w.e2.frame_number();
                        assert(roles.contains_key(t1) && roles[t1] == TableRole::First(
                            i4,
                            i3,
                            i2,
                        ));
                        assert(w.e1 == entry_at(mem, t1, i1));
                        assert(v.e1 == w.e1);
                    }
                }
            }
        }
    }
}

/// A hierarchy that the processor does not use: the frame of its root
/// table. The root table names itself in its last entry, so that the
/// hierarchy can be made the active one.
pub struct InactivePageTable {
    p4_frame: Frame,
    roles: Ghost<Map<u64, TableRole>>,
}

impl InactivePageTable {
    /// The frame of the root table.
    pub closed spec fn frame(&self) -> Frame {
        self.p4_frame
    }

    /// The frame with this number holds a table of the hierarchy.
    pub closed spec fn is_table(&self, frame: u64) -> bool {
        self.roles@.contains_key(frame)
    }

    /// In memory `mem` the hierarchy is a tree of whole tables whose root
    /// names itself in its last entry.
    pub closed spec fn wf(&self, mem: Map<u64, u64>) -> bool {
        dormant_ok(mem, self.roles@, self.p4_frame.number)
    }

    /// The frame of the root table.
    pub fn p4_frame(&self) -> (frame: Frame)
        ensures
            frame == self.frame(),
    {
        self.p4_frame
    }

    /// What soundness says to the outside.
    pub proof fn lemma_wf(&self, mem: Map<u64, u64>)
        requires
            self.wf(mem),
        ensures
            self.is_table(self.frame().number),
            self.frame().number < FRAME_NUMBER_LIMIT,
            forall|f: u64| #[trigger] self.is_table(f) ==> backed(mem, f),
    {
        reveal(tree_ok);
    }

    /// A hierarchy at rest stays sound, with its translations, as long as
    /// no word of its tables changes.
    pub proof fn lemma_kept(&self, mem: Map<u64, u64>, after: Map<u64, u64>)
        requires
            self.wf(mem),
            forall|a: u64|
                self.is_table((a / 4096) as u64) ==> {
                    &&& #[trigger] after.contains_key(a) == mem.contains_key(a)
                    &&& mem.contains_key(a) ==> after[a] == mem[a]
                },
        ensures
            self.wf(after),
            kept(mem, self.frame().number, after, self.frame().number),
    {
        let root = self.p4_frame.number;
        assert(self.roles@.contains_key(root) && backed(mem, root) && mem.contains_key(
            word_address(root, 511),
        )) by {
            reveal(tree_ok);
        }
        assert(word_address(root, 511) == root * 4096 + 511 * 8);
        assert(word_address(root, 511) / 4096 == root);
        assert(self.is_table((word_address(root, 511) / 4096) as u64));
        assert(after.contains_key(word_address(root, 511)));
        assert(after[word_address(root, 511)] == mem[word_address(root, 511)]);
        lemma_tree_kept(mem, after, self.roles@, root);
    }
}

/// The active hierarchy while the recursive mapping shows another one: the
/// frame of its root table, and the table through which that frame is
/// still reached.
pub struct ParkedTable {
    p4_frame: Frame,
    window: Table<Level1>,
    roles: Ghost<Map<u64, TableRole>>,
}

impl ParkedTable {
    /// The frame of the root table.
    pub closed spec fn frame(&self) -> Frame {
        self.p4_frame
    }

    /// The frame with this number holds a table of the hierarchy.
    pub closed spec fn is_table(&self, frame: u64) -> bool {
        self.roles@.contains_key(frame)
    }

    /// Number of the page through which the root table is reached.
    pub closed spec fn window_page(&self) -> u64 {
        self.window.page()
    }

    /// In memory `mem` the hierarchy is a tree of whole tables, and it maps
    /// the page of the table `window` to the frame of its own root table.
    pub closed spec fn wf(&self, mem: Map<u64, u64>) -> bool {
        &&& tree_ok(mem, self.roles@, self.p4_frame.number)
        &&& self.p4_frame.number < FRAME_NUMBER_LIMIT
        &&& self.window.address() % 4096 == 0
        &&& index4(self.window.page()) != 511
        &&& leaf_entry(mem, self.p4_frame.number, self.window.page()) == Some(
            Entry(entry_value(self.p4_frame.number, crate::memory::paging::entry::WRITABLE | PRESENT)),
        )
    }

    /// A parked hierarchy stays sound as long as no word of its tables
    /// changes.
    pub proof fn lemma_kept(&self, mem: Map<u64, u64>, after: Map<u64, u64>)
        requires
            self.wf(mem),
            forall|a: u64|
                self.is_table((a / 4096) as u64) ==> {
                    &&& #[trigger] after.contains_key(a) == mem.contains_key(a)
                    &&& mem.contains_key(a) ==> after[a] == mem[a]
                },
        ensures
            self.wf(after),
            kept(mem, self.frame().number, after, self.frame().number),
    {
        let root = self.p4_frame.number;
        assert(self.roles@.contains_key(root) && backed(mem, root) && mem.contains_key(
            word_address(root, 511),
        )) by {
            reveal(tree_ok);
        }
        assert(word_address(root, 511) == root * 4096 + 511 * 8);
        assert(word_address(root, 511) / 4096 == root);
        assert(self.is_table((word_address(root, 511) / 4096) as u64));
        assert(after.contains_key(word_address(root, 511)));
        assert(after[word_address(root, 511)] == mem[word_address(root, 511)]);
        lemma_tree_kept(mem, after, self.roles@, root);
        lemma_kept_page(mem, root, after, root, self.window.page());
    }
}

/// The root table that the root register names holds the recursive entry
/// and nothing else: every slot was written, the last one links to the
/// table itself, and the others are unused.
pub open spec fn recursive_only(mv: MachineView) -> bool {
    &&& backed(mv.mem, mv.cr3)
    &&& forall|i: int| 0 <= i < 511 ==> (#[trigger] entry_at(mv.mem, mv.cr3, i)).0 == 0
    &&& entry_at(mv.mem, mv.cr3, 511).links()
    &&& entry_at(mv.mem, mv.cr3, 511).frame_number() == mv.cr3
}

/// `frames` is finite and holds at most `count` frames.
pub open spec fn at_most(frames: Set<u64>, count: nat) -> bool {
    frames.finite() && frames.len() <= count
}

/// A set within three given frames holds at most three.
pub proof fn lemma_at_most_three(frames: Set<u64>, x: u64, y: u64, z: u64)
    requires
        forall|n: u64| #[trigger] frames.contains(n) ==> n == x || n == y || n == z,
    ensures
        at_most(frames, 3),
{
    let three = Set::<u64>::empty().insert(x).insert(y).insert(z);
    assert(frames.subset_of(three));
    vstd::set_lib::lemma_len_subset(frames, three);
}

/// A set with fewer than four frames holds at most three.
pub proof fn lemma_fewer_at_most(frames: Set<u64>)
    requires
        fewer_than(frames, 4),
    ensures
        at_most(frames, 3),
{
    let x = choose|x: u64| frames.contains(x);
    let y = choose|y: u64| frames.contains(y) && y != x;
    let z = choose|z: u64| frames.contains(z) && z != x && z != y;
    assert forall|n: u64| #[trigger] frames.contains(n) implies n == x || n == y || n == z by {
        if n != x && n != y && n != z {
            assert(frames.contains(x));
            assert(frames.contains(y) && y != x);
            assert(frames.contains(z) && z != x && z != y);
        }
    }
    lemma_at_most_three(frames, x, y, z);
}

/// One frame more than at most `count` frames is at most `count + 1`.
pub proof fn lemma_at_most_one_more(frames: Set<u64>, rest: Set<u64>, frame: u64, count: nat)
    requires
        at_most(rest, count),
        forall|n: u64| #[trigger] frames.contains(n) ==> n == frame || rest.contains(n),
    ensures
        at_most(frames, count + 1),
{
    assert(frames.subset_of(rest.insert(frame)));
    vstd::set_lib::lemma_len_subset(frames, rest.insert(frame));
}

/// What leaves a set in two steps is at most what leaves in the first and
/// what leaves in the second.
pub proof fn lemma_at_most_steps(a: Set<u64>, b: Set<u64>, c: Set<u64>, m: nat, n: nat)
    requires
        at_most(a.difference(b), m),
        at_most(b.difference(c), n),
    ensures
        at_most(a.difference(c), m + n),
{
    let both = a.difference(b).union(b.difference(c));
    vstd::set_lib::lemma_len_union(a.difference(b), b.difference(c));
    assert(a.difference(c).subset_of(both));
    vstd::set_lib::lemma_len_subset(a.difference(c), both);
}

/// `frames` can pay for `count` tables: it holds that many frames, and none
/// whose number no entry can hold.
pub open spec fn can_supply(frames: Set<u64>, count: nat) -> bool {
    &&& !fewer_than(frames, count)
    &&& forall|n: u64| #[trigger] frames.contains(n) ==> n < FRAME_NUMBER_LIMIT
}

/// A set with fewer frames than one count has fewer than a greater count.
pub proof fn lemma_fewer_rises(frames: Set<u64>, count: nat, more: nat)
    requires
        fewer_than(frames, count),
        count <= more,
    ensures
        fewer_than(frames, more),
{
}

/// `frames` holds fewer than `count` frames, for a count up to four.
pub open spec fn fewer_than(frames: Set<u64>, count: nat) -> bool {
    if count == 0 {
        false
    } else if count == 1 {
        forall|a: u64| !#[trigger] frames.contains(a)
    } else if count == 2 {
        forall|a: u64, b: u64|
            #![trigger frames.contains(a), frames.contains(b)]
            frames.contains(a) && frames.contains(b) ==> a == b
    } else if count == 3 {
        forall|a: u64, b: u64, c: u64|
            #![trigger frames.contains(a), frames.contains(b), frames.contains(c)]
            frames.contains(a) && frames.contains(b) && frames.contains(c) ==> a == b || a == c
                || b == c
    } else {
        forall|a: u64, b: u64, c: u64, d: u64|
            #![trigger frames.contains(a), frames.contains(b), frames.contains(c), frames.contains(d)]
            frames.contains(a) && frames.contains(b) && frames.contains(c) && frames.contains(d)
                ==> a == b || a == c || a == d || b == c || b == d || c == d
    }
}


/// The handle to the hierarchy that the recursive mapping shows. It owns
/// the machine; all changes to the page tables go through it.
pub struct Mapper {
    machine: Machine,
    roles: Ghost<Map<u64, TableRole>>,
}

impl View for Mapper {
    type V = MachineView;

    closed spec fn view(&self) -> MachineView {
        self.machine@
    }
}

impl Mapper {
    /// The frame with this number holds a table of the hierarchy.
    pub closed spec fn is_table(&self, frame: u64) -> bool {
        self.roles@.contains_key(frame)
    }

    /// Frame number of the root table of the hierarchy.
    pub open spec fn root(&self) -> u64 {
        recursive_root(self@)
    }

    /// The recursive mapping is in place and the hierarchy is a tree of
    /// whole tables.
    pub closed spec fn wf(&self) -> bool {
        hierarchy_ok(self.machine@, self.roles@)
    }

    /// The hierarchy is the one that the processor uses.
    pub open spec fn active(&self) -> bool {
        self.root() == self@.cr3
    }

    /// What the mapping code makes of `page`.
    pub open spec fn translation(&self, page: Page) -> Result<Option<u64>, MemoryError> {
        translate_page_spec(self@.mem, self.root(), page.number)
    }

    /// What the mapping code makes of a virtual address: the physical
    /// address at the same offset into the frame of its page.
    pub open spec fn address_translation(&self, address: u64) -> Result<Option<u64>, MemoryError> {
        match self.translation(Page { number: (address / 4096) as u64 }) {
            Ok(Some(frame)) => Ok(Some((frame * 4096 + address % 4096) as u64)),
            Ok(None) => Ok(None),
            Err(e) => Err(e),
        }
    }

    /// The entry that maps `page` as a 4 KiB page, if there is one.
    pub open spec fn mapping(&self, page: Page) -> Option<Entry> {
        leaf_entry(self@.mem, self.root(), page.number)
    }

    /// Every word outside the frames that hold tables of the hierarchy is
    /// as it was in `before`.
    #[verifier::opaque]
    pub open spec fn untouched_outside(&self, before: &Mapper) -> bool {
        forall|a: u64|
            !self.is_table((a / 4096) as u64) ==> {
                &&& #[trigger] self@.mem.contains_key(a) == before@.mem.contains_key(a)
                &&& before@.mem.contains_key(a) ==> self@.mem[a] == before@.mem[a]
            }
    }

    /// The tables of `before` are still tables, and each further table was
    /// taken from the frames in `given`.
    #[verifier::opaque]
    pub open spec fn tables_from(&self, before: &Mapper, given: Set<u64>) -> bool {
        &&& forall|f: u64| before.is_table(f) ==> #[trigger] self.is_table(f)
        &&& forall|f: u64| #[trigger] self.is_table(f) && !before.is_table(f) ==> given.contains(f)
    }

    /// The hierarchy grew out of `before`: the root, the root register and
    /// the cache are the same, the tables of `before` are still tables,
    /// each further table was taken from the frames in `given`, and memory
    /// outside the tables is untouched.
    pub open spec fn grown_from(&self, before: &Mapper, given: Set<u64>) -> bool {
        &&& self@.cr3 == before@.cr3
        &&& self@.tlb == before@.tlb
        &&& self.root() == before.root()
        &&& self.tables_from(before, given)
        &&& self.untouched_outside(before)
    }

    /// Every page outside the range of the recursive mapping, but for the
    /// pages of the slot of `except`, translates as in `before` and has the
    /// mapping it had there.
    #[verifier::opaque]
    pub open spec fn same_translations(&self, before: &Mapper, except: Option<Page>) -> bool {
        forall|q: Page|
            !q.is_recursive() && !(except matches Some(p) && q.same_slot(p)) ==> {
                &&& #[trigger] self.translation(q) == before.translation(q)
                &&& self.mapping(q) == before.mapping(q)
                &&& way(self@.mem, self.root(), q.number) == way(
                    before@.mem,
                    before.root(),
                    q.number,
                )
            }
    }

    /// Nothing changed: a hierarchy grew out of itself.
    pub proof fn lemma_grown_refl(&self, given: Set<u64>)
        ensures
            self.grown_from(self, given),
            self.same_translations(self, None),
    {
        reveal(Mapper::untouched_outside);
        reveal(Mapper::tables_from);
        reveal(Mapper::same_translations);
    }

    /// Growth composes.
    pub proof fn lemma_grown_trans(
        &self,
        middle: &Mapper,
        before: &Mapper,
        first: Set<u64>,
        second: Set<u64>,
    )
        requires
            middle.grown_from(before, first),
            self.grown_from(middle, second),
        ensures
            self.grown_from(before, first.union(second)),
    {
        reveal(Mapper::untouched_outside);
        reveal(Mapper::tables_from);
    }

    /// A larger set of given frames serves as well.
    pub proof fn lemma_grown_wider(&self, before: &Mapper, given: Set<u64>, wider: Set<u64>)
        requires
            self.grown_from(before, given),
            given.subset_of(wider),
        ensures
            self.grown_from(before, wider),
    {
        reveal(Mapper::tables_from);
    }

    /// Kept translations compose.
    pub proof fn lemma_same_translations_trans(
        &self,
        middle: &Mapper,
        before: &Mapper,
        except: Option<Page>,
    )
        requires
            middle.same_translations(before, None),
            self.same_translations(middle, except),
        ensures
            self.same_translations(before, except),
    {
        reveal(Mapper::same_translations);
    }

    /// What kept translations say of one page.
    pub proof fn lemma_same_translation(&self, before: &Mapper, except: Option<Page>, q: Page)
        requires
            self.same_translations(before, except),
            !q.is_recursive(),
            !(except matches Some(p) && q.same_slot(p)),
        ensures
            self.translation(q) == before.translation(q),
            self.mapping(q) == before.mapping(q),
            self.huge_in_way(q) == before.huge_in_way(q),
            self.slot(q) == before.slot(q),
    {
        reveal(Mapper::same_translations);
        reveal(way);
    }

    /// What growth says of one frame and of one word.
    pub proof fn lemma_grown(&self, before: &Mapper, given: Set<u64>, f: u64, a: u64)
        requires
            self.grown_from(before, given),
        ensures
            before.is_table(f) ==> self.is_table(f),
            self.is_table(f) && !before.is_table(f) ==> given.contains(f),
            !self.is_table((a / 4096) as u64) ==> {
                &&& self@.mem.contains_key(a) == before@.mem.contains_key(a)
                &&& before@.mem.contains_key(a) ==> self@.mem[a] == before@.mem[a]
            },
    {
        reveal(Mapper::untouched_outside);
        reveal(Mapper::tables_from);
    }

    /// `table` names a table of the hierarchy with the role `role`, and on
    /// the way to it the hardware reads nothing but the recursive entries
    /// and tables above it.
    #[verifier::opaque]
    pub closed spec fn handle_ok<L: TableLevel>(&self, table: &Table<L>, role: TableRole) -> bool {
        let mv = self@;
        let frame = table.frame(mv);
        &&& table.valid(mv)
        &&& table.recursive(mv)
        &&& self.roles@.contains_key(frame)
        &&& self.roles@[frame] == role
        &&& forall|f: u64|
            on_path(mv, table.page(), f) ==> f == mv.cr3 || self.roles@.contains_key(f)
        &&& forall|f: u64, i: int| #[trigger]
            walk_reads(mv.mem, mv.cr3, table.page(), f, i) ==> {
                ||| f == mv.cr3 && i == 511
                ||| self.roles@.contains_key(f) && rank(self.roles@[f]) > rank(role)
                ||| f == frame && role == TableRole::Root && i == 511
            }
    }

    /// A huge-page entry stands on the way to `page` where a table is
    /// needed.
    pub open spec fn huge_in_way(&self, page: Page) -> bool {
        let w = walk(self@.mem, self.root(), page.number);
        ||| !w.e4.links() && w.e4.huge()
        ||| w.e4.links() && !w.e3.links() && w.e3.huge()
        ||| w.e4.links() && w.e3.links() && !w.e2.links() && w.e2.huge()
    }

    /// The three tables on the way to `page` exist.
    pub open spec fn has_tables(&self, page: Page) -> bool {
        tables_exist(self@.mem, self.root(), page.number)
    }

    /// The entry in the slot of `page`, whatever it holds, if the three
    /// tables on the way exist; an unused entry else.
    pub open spec fn slot(&self, page: Page) -> Entry {
        if self.has_tables(page) {
            walk(self@.mem, self.root(), page.number).e1
        } else {
            Entry(0)
        }
    }

    /// The hierarchy is plain: see [`plain`].
    pub open spec fn plain(&self) -> bool {
        plain(self@.mem, self.root())
    }

    /// In a plain hierarchy no huge page is in the way of a page, its
    /// translation never fails, and its slot is in use where it is mapped
    /// and nowhere else.
    pub proof fn lemma_plain_page(&self, page: Page)
        requires
            self.plain(),
            !page.is_recursive(),
        ensures
            !self.huge_in_way(page),
            self.translation(page) is Ok,
            self.slot(page).0 != 0 <==> self.mapping(page) is Some,
            self.translation(page) matches Ok(Some(_)) <==> self.mapping(page) is Some,
    {
        reveal(plain);
        reveal(way);
        reveal(translate_page_spec);
        reveal(leaf_entry);
        let w = way(self@.mem, self.root(), page.number);
        assert(!w.0);
        assert(Entry(0).0 & PRESENT == 0) by (bit_vector);
        let e = walk(self@.mem, self.root(), page.number).e1.0;
        assert(e & PRESENT != 0 ==> e != 0) by (bit_vector);
    }

    /// A plain hierarchy stays plain where all pages but one keep what is
    /// on their way, and that one has a present mapping or an unused slot.
    pub proof fn lemma_plain_after(&self, before: &Mapper, except: Option<Page>)
        requires
            before.plain(),
            self.same_translations(before, except),
            except matches Some(p) ==> !self.huge_in_way(p) && (self.slot(p).0 == 0
                || self.slot(p).present()),
        ensures
            self.plain(),
    {
        reveal(plain);
        reveal(way);
        reveal(Mapper::same_translations);
        assert forall|q: u64| index4(q) != 511 implies {
            &&& !(#[trigger] way(self@.mem, self.root(), q)).0
            &&& way(self@.mem, self.root(), q).1.0 == 0 || way(self@.mem, self.root(), q).1.present()
        } by {
            let page = Page { number: q };
            if except matches Some(p) && page.same_slot(p) {
                let p = except->Some_0;
                self.lemma_same_slot(page, p);
            } else {
                assert(self.translation(page) == before.translation(page));
                assert(way(before@.mem, before.root(), q).1.0 == 0 || way(
                    before@.mem,
                    before.root(),
                    q,
                ).1.present());
            }
        }
    }

    /// The tables that one mapping makes are at most three.
    pub proof fn lemma_made_at_most(
        &self,
        start: &Mapper,
        page: Page,
        before: Set<u64>,
        after: Set<u64>,
    )
        requires
            self.made_tables(start, page, before, after),
        ensures
            at_most(before.difference(after), 3),
    {
        let w = walk(self@.mem, self.root(), page.number);
        lemma_at_most_three(
            before.difference(after),
            w.e4.frame_number(),
            w.e3.frame_number(),
            w.e2.frame_number(),
        );
    }

    /// A plain hierarchy stays plain when a page is mapped or unmapped in
    /// it, and when such a call fails.
    pub proof fn lemma_plain_stays(&self, before: &Mapper, page: Page, done: bool)
        requires
            self.same_translations(
                before,
                if done {
                    Some(page)
                } else {
                    None
                },
            ),
            done ==> self.mapping(page) is Some || (self.has_tables(page) && self.slot(page).0
                == 0),
        ensures
            before.plain() ==> self.plain(),
    {
        if before.plain() {
            if done {
                reveal(leaf_entry);
                self.lemma_plain_after(before, Some(page));
            } else {
                self.lemma_plain_after(before, None);
            }
        }
    }

    /// How many of the three tables on the way to `page` do not exist.
    pub open spec fn missing_tables(&self, page: Page) -> nat {
        let w = walk(self@.mem, self.root(), page.number);
        if !w.e4.links() {
            3
        } else if !w.e3.links() {
            2
        } else if !w.e2.links() {
            1
        } else {
            0
        }
    }

    /// `frame` holds a table on the way to `page` that `start` did not
    /// have on that way.
    pub open spec fn new_on_way(&self, start: &Mapper, page: Page, frame: u64) -> bool {
        let w0 = walk(start@.mem, start.root(), page.number);
        let w = walk(self@.mem, self.root(), page.number);
        ||| !w0.e4.links() && w.e4.links() && frame == w.e4.frame_number()
        ||| !(w0.e4.links() && w0.e3.links()) && w.e4.links() && w.e3.links() && frame
            == w.e3.frame_number()
        ||| !(w0.e4.links() && w0.e3.links() && w0.e2.links()) && w.e4.links() && w.e3.links()
            && w.e2.links() && frame == w.e2.frame_number()
    }

    /// `page` can be mapped to frame `frame` with tables from `frames`: no
    /// huge page is in the way, the slot of the page is unused, the number
    /// of the frame fits in an entry, and `frames` can pay for the tables
    /// that are missing on the way.
    pub open spec fn can_map(&self, page: Page, frame: u64, frames: Set<u64>) -> bool {
        &&& !self.huge_in_way(page)
        &&& self.slot(page).0 == 0
        &&& frame < FRAME_NUMBER_LIMIT
        &&& can_supply(frames, self.missing_tables(page))
    }

    /// Every frame of `before` that is not in `after` holds a table on the
    /// way to `page` that `start` did not have.
    pub open spec fn made_tables(
        &self,
        start: &Mapper,
        page: Page,
        before: Set<u64>,
        after: Set<u64>,
    ) -> bool {
        forall|n: u64|
            #[trigger] before.contains(n) && !after.contains(n) ==> self.is_table(n)
                && !start.is_table(n) && self.new_on_way(start, page, n)
    }

    /// What a sound handle says of its table.
    proof fn lemma_handle<L: TableLevel>(&self, table: &Table<L>, role: TableRole)
        requires
            self.wf(),
            self.handle_ok(table, role),
        ensures
            self.roles@.contains_key(self.root()),
            self.roles@[self.root()] == TableRole::Root,
            table.valid(self@),
            table.recursive(self@),
            self.roles@.contains_key(table.frame(self@)),
            self.roles@[table.frame(self@)] == role,
            self.is_table(table.frame(self@)),
            role != TableRole::Root ==> forall|i: int|
                0 <= i < 512 ==> #[trigger] table.writable_at(self@, i),
            forall|i: int| 0 <= i < 511 ==> #[trigger] table.writable_at(self@, i),
    {
        reveal(Mapper::handle_ok);
        reveal(hierarchy_ok);
        assert forall|i: int| 0 <= i < 512 && (role != TableRole::Root || i != 511) implies
            #[trigger] table.writable_at(self@, i) by {
            if walk_reads(self@.mem, self@.cr3, table.page(), table.frame(self@), i) {
            }
        }
    }

    /// What well-formedness says to the outside: the recursive mapping is
    /// in place, the root is a table, and tables are whole.
    pub proof fn lemma_wf(&self)
        requires
            self.wf(),
        ensures
            recursion_ok(self@),
            self.is_table(self.root()),
            self@.cr3 < FRAME_NUMBER_LIMIT,
            self.active() || !self.is_table(self@.cr3),
            forall|f: u64| #[trigger] self.is_table(f) ==> backed(self@.mem, f),
    {
        reveal(hierarchy_ok);
    }

    /// Takes over a machine whose root table holds the recursive entry and
    /// nothing else. `None`, with the machine dropped, where the root table
    /// is not of that form.
    pub fn new(machine: Machine) -> (mapper: Option<Mapper>)
        ensures
            mapper matches Some(m) ==> {
                &&& m.wf()
                &&& m.active()
                &&& m@ == machine@
                &&& forall|f: u64| m.is_table(f) <==> f == machine@.cr3
                &&& forall|page: Page|
                    !page.is_recursive() ==> #[trigger] m.translation(page) == Ok::<
                        Option<u64>,
                        MemoryError,
                    >(None)
            },
            mapper is Some <==> recursive_only(machine@),
    {
        proof {
            reveal(translate_page_spec);
            reveal(leaf_entry);
        }
        let root = machine.cr3();
        if root.number >= FRAME_NUMBER_LIMIT {
            return None;
        }
        let mut index: usize = 0;
        while index < 512
            invariant
                0 <= index <= 512,
                root.number == machine@.cr3,
                root.number < FRAME_NUMBER_LIMIT,
                forall|i: int|
                    0 <= i < index ==> machine@.mem.contains_key(
                        #[trigger] word_address(root.number, i),
                    ),
                forall|i: int|
                    0 <= i < index && i < 511 ==> (#[trigger] entry_at(
                        machine@.mem,
                        machine@.cr3,
                        i,
                    )).0 == 0,
                index == 512 ==> {
                    &&& entry_at(machine@.mem, machine@.cr3, 511).links()
                    &&& entry_at(machine@.mem, machine@.cr3, 511).frame_number() == machine@.cr3
                },
            decreases 512 - index,
        {
            let value = match machine.read_physical(root.number * PAGE_SIZE + (index as u64) * 8) {
                Some(value) => value,
                None => {
                    assert(!machine@.mem.contains_key(word_address(root.number, index as int)));
                    return None;
                },
            };
            assert(entry_at(machine@.mem, machine@.cr3, index as int) == Entry(value));
            if index < 511 {
                if value != 0 {
                    return None;
                }
            } else {
                let entry = Entry(value);
                let links = entry.flags().contains(EntryFlags::present()) && !entry.flags().contains(
                    EntryFlags::huge_page(),
                );
                match entry.pointed_frame() {
                    Some(frame) => {
                        if !links || frame.number != root.number {
                            return None;
                        }
                    },
                    None => {
                        return None;
                    },
                }
            }
            index += 1;
        }
        let ghost roles = Map::<u64, TableRole>::empty().insert(root.number, TableRole::Root);
        let mapper = Mapper { machine, roles: Ghost(roles) };
        proof {
            reveal(hierarchy_ok);
            assert(Entry(0).0 & PRESENT == 0) by (bit_vector);
            assert forall|page: Page| !page.is_recursive() implies #[trigger] mapper.translation(
                page,
            ) == Ok::<Option<u64>, MemoryError>(None) by {
                assert(entry_at(mapper@.mem, mapper@.cr3, index4(page.number) as int).0 == 0);
            }
        }
        Some(mapper)
    }

    /// Writes a table into `frame`: `first` into slot 0, `last` into slot
    /// 511, and unused entries between them.
    fn write_table(machine: &mut Machine, frame: Frame, first: Entry, last: Entry)
        requires
            frame.number < FRAME_NUMBER_LIMIT,
        ensures
            final(machine)@.cr3 == old(machine)@.cr3,
            final(machine)@.tlb == old(machine)@.tlb,
            backed(final(machine)@.mem, frame.number),
            forall|i: int|
                0 <= i < 512 ==> #[trigger] entry_at(final(machine)@.mem, frame.number, i) == if i
                    == 0 {
                    first
                } else if i == 511 {
                    last
                } else {
                    Entry(0)
                },
            forall|a: u64|
                a / 4096 != frame.number ==> {
                    &&& #[trigger] final(machine)@.mem.contains_key(a) == old(machine)@.mem.contains_key(a)
                    &&& old(machine)@.mem.contains_key(a) ==> final(machine)@.mem[a] == old(machine)@.mem[a]
                },
    {
        let mut index: usize = 0;
        while index < 512
            invariant
                0 <= index <= 512,
                frame.number < FRAME_NUMBER_LIMIT,
                machine@.cr3 == old(machine)@.cr3,
                machine@.tlb == old(machine)@.tlb,
                forall|i: int|
                    0 <= i < index ==> machine@.mem.contains_key(
                        #[trigger] word_address(frame.number, i),
                    ),
                forall|i: int|
                    0 <= i < index ==> #[trigger] entry_at(machine@.mem, frame.number, i) == if i
                        == 0 {
                        first
                    } else if i == 511 {
                        last
                    } else {
                        Entry(0)
                    },
                forall|a: u64|
                    a / 4096 != frame.number ==> {
                        &&& #[trigger] machine@.mem.contains_key(a) == old(machine)@.mem.contains_key(a)
                        &&& old(machine)@.mem.contains_key(a) ==> machine@.mem[a] == old(machine)@.mem[a]
                    },
            decreases 512 - index,
        {
            let entry = if index == 0 {
                first
            } else if index == 511 {
                last
            } else {
                Entry(0)
            };
            let ghost before = machine@.mem;
            machine.write_physical(frame.number * PAGE_SIZE + (index as u64) * 8, entry.0);
            proof {
                assert((frame.number * 4096 + index * 8) / 4096 == frame.number);
                assert(machine@.mem == before.insert(
                    (frame.number * 4096 + index * 8) as u64,
                    entry.0,
                ));
                assert forall|i: int| 0 <= i < index + 1 implies #[trigger] entry_at(
                    machine@.mem,
                    frame.number,
                    i,
                ) == if i == 0 {
                    first
                } else if i == 511 {
                    last
                } else {
                    Entry(0)
                } by {
                    lemma_entry_after_write(
                        before,
                        frame.number,
                        index as int,
                        entry.0,
                        frame.number,
                        i,
                    );
                }
                assert forall|i: int| 0 <= i < index + 1 implies machine@.mem.contains_key(
                    #[trigger] word_address(frame.number, i),
                ) by {
                    if i < index {
                        assert(before.contains_key(word_address(frame.number, i)));
                    }
                }
            }
            index += 1;
        }
    }

    /// Writes a table into `frame` whose entry `i` maps the 2 MiB page that
    /// starts at frame `512 * i`, writable.
    fn write_huge_table(machine: &mut Machine, frame: Frame)
        requires
            frame.number < FRAME_NUMBER_LIMIT,
        ensures
            final(machine)@.cr3 == old(machine)@.cr3,
            final(machine)@.tlb == old(machine)@.tlb,
            backed(final(machine)@.mem, frame.number),
            forall|i: int|
                0 <= i < 512 ==> #[trigger] entry_at(final(machine)@.mem, frame.number, i)
                    == Entry(entry_value((i * 512) as u64, (PRESENT | WRITABLE) | HUGE_PAGE)),
            forall|a: u64|
                a / 4096 != frame.number ==> {
                    &&& #[trigger] final(machine)@.mem.contains_key(a) == old(machine)@.mem.contains_key(a)
                    &&& old(machine)@.mem.contains_key(a) ==> final(machine)@.mem[a] == old(machine)@.mem[a]
                },
    {
        let flags = EntryFlags::present().union(EntryFlags::writable()).union(
            EntryFlags::huge_page(),
        );
        let mut index: usize = 0;
        while index < 512
            invariant
                0 <= index <= 512,
                frame.number < FRAME_NUMBER_LIMIT,
                flags@ == (PRESENT | WRITABLE) | HUGE_PAGE,
                machine@.cr3 == old(machine)@.cr3,
                machine@.tlb == old(machine)@.tlb,
                forall|i: int|
                    0 <= i < index ==> machine@.mem.contains_key(
                        #[trigger] word_address(frame.number, i),
                    ),
                forall|i: int|
                    0 <= i < index ==> #[trigger] entry_at(machine@.mem, frame.number, i)
                        == Entry(entry_value((i * 512) as u64, (PRESENT | WRITABLE) | HUGE_PAGE)),
                forall|a: u64|
                    a / 4096 != frame.number ==> {
                        &&& #[trigger] machine@.mem.contains_key(a) == old(machine)@.mem.contains_key(a)
                        &&& old(machine)@.mem.contains_key(a) ==> machine@.mem[a] == old(machine)@.mem[a]
                    },
            decreases 512 - index,
        {
            let mut entry = Entry(0);
            entry.set(Frame { number: (index as u64) * 512 }, flags);
            let ghost before = machine@.mem;
            machine.write_physical(frame.number * PAGE_SIZE + (index as u64) * 8, entry.0);
            proof {
                assert((frame.number * 4096 + index * 8) / 4096 == frame.number);
                assert(machine@.mem == before.insert(
                    (frame.number * 4096 + index * 8) as u64,
                    entry.0,
                ));
                assert forall|i: int| 0 <= i < index + 1 implies #[trigger] entry_at(
                    machine@.mem,
                    frame.number,
                    i,
                ) == Entry(entry_value((i * 512) as u64, (PRESENT | WRITABLE) | HUGE_PAGE)) by {
                    lemma_entry_after_write(
                        before,
                        frame.number,
                        index as int,
                        entry.0,
                        frame.number,
                        i,
                    );
                }
                assert forall|i: int| 0 <= i < index + 1 implies machine@.mem.contains_key(
                    #[trigger] word_address(frame.number, i),
                ) by {
                    if i < index {
                        assert(before.contains_key(word_address(frame.number, i)));
                    }
                }
            }
            index += 1;
        }
    }

    /// A machine in the state in which the boot code hands over: the root
    /// table in frame `p4` with the recursive entry, and the first GiB
    /// mapped to itself with 2 MiB pages through the tables in `p3` and
    /// `p2`. `None` unless the three frames differ and fit an entry.
    pub fn boot(p4: Frame, p3: Frame, p2: Frame) -> (mapper: Option<Mapper>)
        ensures
            mapper is Some <==> {
                &&& p4.number < FRAME_NUMBER_LIMIT
                &&& p3.number < FRAME_NUMBER_LIMIT
                &&& p2.number < FRAME_NUMBER_LIMIT
                &&& p4 != p3
                &&& p4 != p2
                &&& p3 != p2
            },
            mapper matches Some(m) ==> {
                &&& m.wf()
                &&& m.active()
                &&& m@.cr3 == p4.number
                &&& m@.tlb == Map::<u64, u64>::empty()
                &&& boot_tables(m@.mem, p4.number, p3.number, p2.number)
                &&& forall|f: u64| m.is_table(f) <==> f == p4.number || f == p3.number || f
                    == p2.number
                &&& forall|page: Page|
                    !page.is_recursive() ==> {
                        &&& #[trigger] m.translation(page) == if page.number % 0x10_0000_0000
                            < 0x4_0000 {
                            Ok::<Option<u64>, MemoryError>(
                                Some((page.number % 0x10_0000_0000) as u64),
                            )
                        } else {
                            Ok(None)
                        }
                        &&& m.mapping(page) is None
                    }
            },
    {
        if p4.number >= FRAME_NUMBER_LIMIT || p3.number >= FRAME_NUMBER_LIMIT || p2.number
            >= FRAME_NUMBER_LIMIT || p4.number == p3.number || p4.number == p2.number || p3.number
            == p2.number {
            return None;
        }
        let mut machine = Machine::new(p4);
        let link = EntryFlags::present().union(EntryFlags::writable());
        let mut to_p3 = Entry(0);
        let mut to_p4 = Entry(0);
        let mut to_p2 = Entry(0);
        to_p3.set(p3, link);
        to_p4.set(p4, link);
        to_p2.set(p2, link);
        Self::write_table(&mut machine, p4, to_p3, to_p4);
        let ghost m1 = machine@.mem;
        Self::write_table(&mut machine, p3, to_p2, Entry(0));
        let ghost m2 = machine@.mem;
        Self::write_huge_table(&mut machine, p2);
        let ghost roles = Map::<u64, TableRole>::empty().insert(p4.number, TableRole::Root).insert(
            p3.number,
            TableRole::Third(0),
        ).insert(p2.number, TableRole::Second(0, 0));
        let mapper = Mapper { machine, roles: Ghost(roles) };
        proof {
            let mem = mapper@.mem;
            assert forall|i: int| 0 <= i < 512 implies #[trigger] entry_at(mem, p4.number, i)
                == entry_at(m1, p4.number, i) by {
                lemma_entry_kept(m1, m2, p3.number, p4.number, i);
                lemma_entry_kept(m2, mem, p2.number, p4.number, i);
            }
            assert forall|i: int| 0 <= i < 512 implies #[trigger] entry_at(mem, p3.number, i)
                == entry_at(m2, p3.number, i) by {
                lemma_entry_kept(m2, mem, p2.number, p3.number, i);
            }
            assert(backed(mem, p4.number)) by {
                assert forall|i: int| 0 <= i < 512 implies mem.contains_key(
                    #[trigger] word_address(p4.number, i),
                ) by {
                    assert(m1.contains_key(word_address(p4.number, i)));
                    lemma_entry_kept(m1, m2, p3.number, p4.number, i);
                    lemma_entry_kept(m2, mem, p2.number, p4.number, i);
                }
            }
            assert(backed(mem, p3.number)) by {
                assert forall|i: int| 0 <= i < 512 implies mem.contains_key(
                    #[trigger] word_address(p3.number, i),
                ) by {
                    assert(m2.contains_key(word_address(p3.number, i)));
                    lemma_entry_kept(m2, mem, p2.number, p3.number, i);
                }
            }
            lemma_boot(mapper@, roles, p4.number, p3.number, p2.number);
            assert forall|page: Page| !page.is_recursive() implies {
                &&& #[trigger] mapper.translation(page) == if page.number % 0x10_0000_0000
                    < 0x4_0000 {
                    Ok::<Option<u64>, MemoryError>(Some((page.number % 0x10_0000_0000) as u64))
                } else {
                    Ok(None)
                }
                &&& mapper.mapping(page) is None
            } by {
                lemma_boot_page(mapper@, p4.number, p3.number, p2.number, page.number);
            }
        }
        Some(mapper)
    }

    /// Gives the machine back.
    pub fn into_machine(self) -> (machine: Machine)
        ensures
            machine@ == self@,
    {
        self.machine
    }

    /// The machine, to look at.
    pub fn machine(&self) -> (machine: &Machine)
        ensures
            machine@ == self@,
    {
        &self.machine
    }

    /// The root table.
    pub fn p4(&self) -> (table: Table<Level4>)
        requires
            self.wf(),
        ensures
            table.address() == P4,
            table.valid(self@),
            table.recursive(self@),
            table.frame(self@) == self.root(),
            self.handle_ok(&table, TableRole::Root),
    {
        proof {
            reveal(hierarchy_ok);
            reveal(Mapper::handle_ok);
            lemma_root_address();
            lemma_root_walk(self@, (P4 / 4096) as u64);
        }
        Table::at(P4)
    }

    /// The table behind entry `index` of `table`, made if it is missing, and
    /// the labelling kept up.
    fn create_level<L: HierarchicalLevel, A: FrameAllocator>(
        &mut self,
        table: &Table<L>,
        index: usize,
        allocator: &mut A,
        Ghost(role): Ghost<TableRole>,
    ) -> (result: Result<Table<L::NextLevel>, MemoryError>)
        requires
            old(self).wf(),
            index < 512,
            old(self).handle_ok(table, role),
            !(role is First),
            !(role == TableRole::Root && index == 511),
            old(allocator).wf(),
            forall|n: u64| #[trigger]
                old(allocator).available().contains(n) ==> !old(self).is_table(n) && n != old(self)@.cr3,
        ensures
            final(self).wf(),
            final(allocator).wf(),
            final(allocator).available().subset_of(old(allocator).available()),
            forall|n: u64| #[trigger]
                final(allocator).available().contains(n) ==> !final(self).is_table(n) && n
                    != final(self)@.cr3,
            final(self).grown_from(
                old(self),
                old(allocator).available().difference(final(allocator).available()),
            ),
            final(self).same_translations(old(self), None),
            final(self).handle_ok(table, role),
            table.frame(final(self)@) == table.frame(old(self)@),
            forall|f: u64, i: int|
                #![trigger entry_at(final(self)@.mem, f, i)]
                old(self).is_table(f) && 0 <= i < 512 && !(f == table.frame(old(self)@) && i
                    == index) ==> entry_at(final(self)@.mem, f, i) == entry_at(
                    old(self)@.mem,
                    f,
                    i,
                ),
            match result {
                Ok(next) => {
                    let slot = entry_at(old(self)@.mem, table.frame(old(self)@), index as int);
                    let after = entry_at(final(self)@.mem, table.frame(old(self)@), index as int);
                    let frame = next.frame(final(self)@);
                    &&& is_child_page(table.page(), next.page(), index as int)
                    &&& final(self).handle_ok(&next, child_role(role, index as int))
                    &&& after.links()
                    &&& after.frame_number() == frame
                    &&& slot.links() ==> {
                        &&& final(self)@ == old(self)@
                        &&& final(allocator).available() == old(allocator).available()
                    }
                    &&& !slot.links() ==> {
                        &&& !slot.present()
                        &&& !slot.huge()
                        &&& !old(self).is_table(frame)
                        &&& final(self).is_table(frame)
                        &&& old(allocator).available().contains(frame)
                        &&& final(allocator).available() == old(allocator).available().remove(
                            frame,
                        )
                        &&& forall|i: int|
                            0 <= i < 512 ==> #[trigger] entry_at(final(self)@.mem, frame, i)
                                == Entry(0)
                    }
                },
                Err(e) => {
                    let slot = entry_at(old(self)@.mem, table.frame(old(self)@), index as int);
                    &&& !slot.links()
                    &&& final(self)@ == old(self)@
                    &&& match e {
                        MemoryError::UnsupportedHugePage => {
                            &&& slot.huge()
                            &&& final(allocator).available() == old(allocator).available()
                        },
                        MemoryError::FramesExhausted => {
                            &&& !slot.huge()
                            &&& old(allocator).available() =~= Set::<u64>::empty()
                            &&& final(allocator).available() =~= Set::<u64>::empty()
                        },
                        MemoryError::MisalignedFrame => {
                            &&& !slot.huge()
                            &&& exists|n: u64|
                                n >= FRAME_NUMBER_LIMIT && #[trigger] old(allocator).available().contains(n) && !final(allocator).available().contains(
                                    n,
                                )
                        },
                        _ => false,
                    }
                },
            },
    {
        let ghost before = self.machine@;
        let ghost start = *self;
        let ghost roles = self.roles@;
        let ghost parent = table.frame(before);
        proof {
            reveal(hierarchy_ok);
            reveal(Mapper::handle_ok);
            assert(backed(before.mem, parent));
            assert(table.writable_at(before, index as int)) by {
                if walk_reads(before.mem, before.cr3, table.page(), parent, index as int) {
                }
            }
        }
        let result = table.try_next_table_create(&mut self.machine, index, allocator);
        proof {
            let after = self.machine@;
            let slot = entry_at(before.mem, parent, index as int);
            reveal(Mapper::untouched_outside);
            reveal(Mapper::tables_from);
            reveal(Mapper::same_translations);
            match &result {
                Ok(next) => {
                    let created = next.frame(after);
                    if slot.links() {
                        assert(roles.contains_key(created));
                    } else {
                        assert(!slot.present());
                        lemma_new_table_entries(before.mem, parent, index as int, created);
                        lemma_new_table(before, roles, parent, index as int, created, after);
                        self.roles@ = roles.insert(created, child_role(role, index as int));
                        assert(entry_at(after.mem, after.cr3, 511) == entry_at(
                            before.mem,
                            before.cr3,
                            511,
                        ));
                        crate::memory::paging::entry::lemma_link_entry(created);
                    }
                    assert(self.handle_ok(next, child_role(role, index as int))) by {
                        let v = walk(after.mem, after.cr3, next.page());
                        let w = walk(after.mem, after.cr3, table.page());
                        assert(w.e4 == entry_at(after.mem, after.cr3, 511));
                        assert(w.e3 == entry_at(after.mem, recursive_root(after), 511));
                        assert(v.e3 == w.e2);
                        assert(v.e2 == w.e1);
                        L::depth_bounds();
                        L::next_depth();
                        assert forall|f: u64, i: int| #[trigger]
                            walk_reads(after.mem, after.cr3, next.page(), f, i) implies {
                            ||| f == after.cr3 && i == 511
                            ||| self.roles@.contains_key(f) && rank(self.roles@[f]) > rank(
                                child_role(role, index as int),
                            )
                            ||| f == created && child_role(role, index as int) == TableRole::Root
                                && i == 511
                        } by {
                            if f == after.cr3 && i == index4(next.page()) {
                            } else if f == v.e4.frame_number() && i == index3(next.page()) {
                                assert(walk_reads(after.mem, after.cr3, table.page(), f, i));
                            } else if f == v.e3.frame_number() && i == index2(next.page()) {
                                assert(walk_reads(after.mem, after.cr3, table.page(), f, i));
                            } else {
                                assert(f == parent);
                            }
                        }
                    }
                },
                Err(_) => {},
            }
        }
        result
    }

    /// The table of the second level on the way to `page`, with the tables
    /// on the way made where they are missing.
    #[verifier::rlimit(40)]
    fn second_table_create<A: FrameAllocator>(&mut self, page: Page, allocator: &mut A) -> (result:
        Result<Table<Level2>, MemoryError>)
        requires
            old(self).wf(),
            !page.is_recursive(),
            old(allocator).wf(),
            forall|n: u64| #[trigger]
                old(allocator).available().contains(n) ==> !old(self).is_table(n) && n != old(self)@.cr3,
        ensures
            final(self).wf(),
            final(allocator).wf(),
            final(allocator).available().subset_of(old(allocator).available()),
            forall|n: u64| #[trigger]
                final(allocator).available().contains(n) ==> !final(self).is_table(n) && n
                    != final(self)@.cr3,
            final(self).grown_from(
                old(self),
                old(allocator).available().difference(final(allocator).available()),
            ),
            final(self).same_translations(old(self), None),
            !(result matches Err(MemoryError::MisalignedFrame)) ==> final(self).made_tables(
                old(self),
                page,
                old(allocator).available(),
                final(allocator).available(),
            ),
            match result {
                Ok(p2) => {
                    let w0 = walk(old(self)@.mem, old(self).root(), page.number);
                    let w = walk(final(self)@.mem, final(self).root(), page.number);
                    &&& final(self).handle_ok(
                        &p2,
                        TableRole::Second(index4(page.number) as int, index3(page.number) as int),
                    )
                    &&& w.e4.links()
                    &&& w.e3.links()
                    &&& w.e3.frame_number() == p2.frame(final(self)@)
                    &&& !(!w0.e4.links() && w0.e4.huge())
                    &&& !(w0.e4.links() && !w0.e3.links() && w0.e3.huge())
                    &&& w0.e4.links() && w0.e3.links() ==> {
                        &&& final(self)@ == old(self)@
                        &&& final(allocator).available() == old(allocator).available()
                    }
                    &&& !(w0.e4.links() && w0.e3.links()) ==> forall|i: int|
                        0 <= i < 512 ==> #[trigger] entry_at(
                            final(self)@.mem,
                            p2.frame(final(self)@),
                            i,
                        ) == Entry(0)
                },
                Err(e) => {
                    let w0 = walk(old(self)@.mem, old(self).root(), page.number);
                    let blocked = (!w0.e4.links() && w0.e4.huge()) || (w0.e4.links()
                        && !w0.e3.links() && w0.e3.huge());
                    &&& !(w0.e4.links() && w0.e3.links())
                    &&& match e {
                        MemoryError::UnsupportedHugePage => {
                            &&& blocked
                            &&& final(self)@ == old(self)@
                            &&& final(allocator).available() == old(allocator).available()
                        },
                        MemoryError::FramesExhausted => {
                            &&& !blocked
                            &&& final(allocator).available() =~= Set::<u64>::empty()
                            &&& fewer_than(
                                old(allocator).available(),
                                old(self).missing_tables(page),
                            )
                        },
                        MemoryError::MisalignedFrame => {
                            &&& !blocked
                            &&& exists|n: u64|
                                n >= FRAME_NUMBER_LIMIT && #[trigger] old(allocator).available().contains(n) && !final(allocator).available().contains(
                                    n,
                                )
                        },
                        _ => false,
                    }
                },
            },
    {
        let ghost s0 = *self;
        let ghost a0 = allocator.available();
        let ghost root = self.root();
        let ghost i4 = index4(page.number) as int;
        let ghost i3 = index3(page.number) as int;
        let ghost w0 = walk(s0@.mem, root, page.number);
        let p4 = self.p4();
        let p3 = match self.create_level(&p4, page.p4_index(), allocator, Ghost(TableRole::Root)) {
            Ok(p3) => p3,
            Err(e) => {
                return Err(e);
            },
        };
        let ghost s1 = *self;
        let ghost a1 = allocator.available();
        proof {
            s1.lemma_handle(&p3, TableRole::Third(i4));
            s1.lemma_handle(&p4, TableRole::Root);
            assert(entry_at(s1@.mem, p3.frame(s1@), i3) == if w0.e4.links() {
                w0.e3
            } else {
                Entry(0)
            });
            assert(Entry(0).0 & PRESENT == 0 && Entry(0).0 & crate::memory::paging::entry::HUGE_PAGE
                == 0) by (bit_vector);
        }
        let p2 = match self.create_level(
            &p3,
            page.p3_index(),
            allocator,
            Ghost(TableRole::Third(i4)),
        ) {
            Ok(p2) => p2,
            Err(e) => {
                proof {
                    let a2 = allocator.available();
                    self.lemma_same_translations_trans(&s1, &s0, None);
                    self.lemma_grown_trans(&s1, &s0, a0.difference(a1), a1.difference(a2));
                    self.lemma_grown_wider(
                        &s0,
                        a0.difference(a1).union(a1.difference(a2)),
                        a0.difference(a2),
                    );
                    reveal(Mapper::tables_from);
                    assert(walk(self@.mem, root, page.number).e4 == entry_at(s1@.mem, root, i4));
                }
                return Err(e);
            },
        };
        proof {
            let a2 = allocator.available();
            reveal(Mapper::tables_from);
            self.lemma_same_translations_trans(&s1, &s0, None);
            self.lemma_grown_trans(&s1, &s0, a0.difference(a1), a1.difference(a2));
            self.lemma_grown_wider(
                &s0,
                a0.difference(a1).union(a1.difference(a2)),
                a0.difference(a2),
            );
            self.lemma_handle(&p3, TableRole::Third(i4));
            self.lemma_handle(&p2, TableRole::Second(i4, i3));
            assert(entry_at(self@.mem, root, i4) == entry_at(s1@.mem, root, i4));
        }
        Ok(p2)
    }

    /// The table of the first level on the way to `page`, with the tables
    /// on the way made where they are missing.
    #[verifier::rlimit(40)]
    fn leaf_table_create<A: FrameAllocator>(&mut self, page: Page, allocator: &mut A) -> (result:
        Result<Table<Level1>, MemoryError>)
        requires
            old(self).wf(),
            !page.is_recursive(),
            old(allocator).wf(),
            forall|n: u64| #[trigger]
                old(allocator).available().contains(n) ==> !old(self).is_table(n) && n != old(self)@.cr3,
        ensures
            final(self).wf(),
            final(allocator).wf(),
            final(allocator).available().subset_of(old(allocator).available()),
            forall|n: u64| #[trigger]
                final(allocator).available().contains(n) ==> !final(self).is_table(n) && n
                    != final(self)@.cr3,
            final(self).grown_from(
                old(self),
                old(allocator).available().difference(final(allocator).available()),
            ),
            final(self).same_translations(old(self), None),
            !(result matches Err(MemoryError::MisalignedFrame)) ==> final(self).made_tables(
                old(self),
                page,
                old(allocator).available(),
                final(allocator).available(),
            ),
            match result {
                Ok(p1) => {
                    let w = walk(final(self)@.mem, final(self).root(), page.number);
                    &&& final(self).handle_ok(
                        &p1,
                        TableRole::First(
                            index4(page.number) as int,
                            index3(page.number) as int,
                            index2(page.number) as int,
                        ),
                    )
                    &&& final(self).has_tables(page)
                    &&& w.e2.frame_number() == p1.frame(final(self)@)
                    &&& !old(self).huge_in_way(page)
                    &&& final(self).slot(page) == old(self).slot(page)
                    &&& old(self).has_tables(page) ==> {
                        &&& final(self)@ == old(self)@
                        &&& final(allocator).available() == old(allocator).available()
                    }
                },
                Err(e) => {
                    &&& !old(self).has_tables(page)
                    &&& match e {
                        MemoryError::UnsupportedHugePage => {
                            &&& old(self).huge_in_way(page)
                            &&& final(self)@ == old(self)@
                            &&& final(allocator).available() == old(allocator).available()
                        },
                        MemoryError::FramesExhausted => {
                            &&& !old(self).huge_in_way(page)
                            &&& final(allocator).available() =~= Set::<u64>::empty()
                            &&& fewer_than(
                                old(allocator).available(),
                                old(self).missing_tables(page),
                            )
                        },
                        MemoryError::MisalignedFrame => {
                            &&& !old(self).huge_in_way(page)
                            &&& exists|n: u64|
                                n >= FRAME_NUMBER_LIMIT && #[trigger] old(allocator).available().contains(n) && !final(allocator).available().contains(
                                    n,
                                )
                        },
                        _ => false,
                    }
                },
            },
    {
        let ghost s0 = *self;
        let ghost a0 = allocator.available();
        let ghost root = self.root();
        let ghost i4 = index4(page.number) as int;
        let ghost i3 = index3(page.number) as int;
        let ghost i2 = index2(page.number) as int;
        let ghost w0 = walk(s0@.mem, root, page.number);
        let p2 = match self.second_table_create(page, allocator) {
            Ok(p2) => p2,
            Err(e) => {
                return Err(e);
            },
        };
        let ghost s2 = *self;
        let ghost a2 = allocator.available();
        let ghost w2 = walk(s2@.mem, root, page.number);
        proof {
            s2.lemma_handle(&p2, TableRole::Second(i4, i3));
            assert(entry_at(s2@.mem, p2.frame(s2@), i2) == if w0.e4.links() && w0.e3.links() {
                w0.e2
            } else {
                Entry(0)
            });
            assert(Entry(0).0 & PRESENT == 0 && Entry(0).0 & crate::memory::paging::entry::HUGE_PAGE
                == 0) by (bit_vector);
        }
        let p1 = match self.create_level(
            &p2,
            page.p2_index(),
            allocator,
            Ghost(TableRole::Second(i4, i3)),
        ) {
            Ok(p1) => p1,
            Err(e) => {
                proof {
                    let a3 = allocator.available();
                    self.lemma_same_translations_trans(&s2, &s0, None);
                    self.lemma_grown_trans(&s2, &s0, a0.difference(a2), a2.difference(a3));
                    self.lemma_grown_wider(
                        &s0,
                        a0.difference(a2).union(a2.difference(a3)),
                        a0.difference(a3),
                    );
                    reveal(Mapper::tables_from);
                    assert(walk(self@.mem, root, page.number) == w2);
                    assert(w2.e2 == entry_at(s2@.mem, p2.frame(s2@), i2));
                }
                return Err(e);
            },
        };
        proof {
            let a3 = allocator.available();
            reveal(Mapper::tables_from);
            self.lemma_same_translations_trans(&s2, &s0, None);
            self.lemma_grown_trans(&s2, &s0, a0.difference(a2), a2.difference(a3));
            self.lemma_grown_wider(
                &s0,
                a0.difference(a2).union(a2.difference(a3)),
                a0.difference(a3),
            );
            self.lemma_handle(&p2, TableRole::Second(i4, i3));
            self.lemma_handle(&p1, TableRole::First(i4, i3, i2));
            self.lemma_path_entries(&s2, page, p2.frame(s2@), i2);
            assert(w2.e2 == entry_at(s2@.mem, p2.frame(s2@), i2));
        }
        Ok(p1)
    }

    /// After a write to slot `index` of the table of the second level on
    /// the way to `page`, the entries above it on the way are as before.
    proof fn lemma_path_entries(&self, before: &Mapper, page: Page, table: u64, index: int)
        requires
            before.wf(),
            !page.is_recursive(),
            self.root() == before.root(),
            ({
                let w = walk(before@.mem, before.root(), page.number);
                w.e4.links() && w.e3.links() && w.e3.frame_number() == table
            }),
            forall|f: u64, i: int|
                #![trigger entry_at(self@.mem, f, i)]
                before.is_table(f) && 0 <= i < 512 && !(f == table && i == index) ==> entry_at(
                    self@.mem,
                    f,
                    i,
                ) == entry_at(before@.mem, f, i),
        ensures
            walk(self@.mem, self.root(), page.number).e4 == walk(
                before@.mem,
                before.root(),
                page.number,
            ).e4,
            walk(self@.mem, self.root(), page.number).e3 == walk(
                before@.mem,
                before.root(),
                page.number,
            ).e3,
            walk(self@.mem, self.root(), page.number).e2 == entry_at(
                self@.mem,
                table,
                index2(page.number) as int,
            ),
    {
        reveal(hierarchy_ok);
        let root = before.root();
        let w = walk(before@.mem, root, page.number);
        let i4 = index4(page.number) as int;
        let i3 = index3(page.number) as int;
        assert(w.e4 == entry_at(before@.mem, root, i4));
        let t3 = w.e4.frame_number();
        assert(before.roles@.contains_key(t3) && before.roles@[t3] == TableRole::Third(i4));
        assert(w.e3 == entry_at(before@.mem, t3, i3));
        assert(before.roles@.contains_key(table) && before.roles@[table] == TableRole::Second(
            i4,
            i3,
        ));
        assert(entry_at(self@.mem, root, i4) == entry_at(before@.mem, root, i4));
        assert(entry_at(self@.mem, t3, i3) == entry_at(before@.mem, t3, i3));
    }

    /// The table of the first level on the way to `page`, if the three
    /// tables on the way exist.
    fn leaf_table(&self, page: Page) -> (result: Option<Table<Level1>>)
        requires
            self.wf(),
            !page.is_recursive(),
        ensures
            match result {
                Some(p1) => {
                    &&& self.handle_ok(
                        &p1,
                        TableRole::First(
                            index4(page.number) as int,
                            index3(page.number) as int,
                            index2(page.number) as int,
                        ),
                    )
                    &&& self.has_tables(page)
                    &&& walk(self@.mem, self.root(), page.number).e2.frame_number() == p1.frame(
                        self@,
                    )
                },
                None => !self.has_tables(page),
            },
    {
        let ghost w = walk(self@.mem, self.root(), page.number);
        let ghost i4 = index4(page.number) as int;
        let ghost i3 = index3(page.number) as int;
        let ghost i2 = index2(page.number) as int;
        let p4 = self.p4();
        proof {
            reveal(hierarchy_ok);
            reveal(Mapper::handle_ok);
        }
        let p3 = match p4.next_table(&self.machine, page.p4_index()) {
            Some(p3) => p3,
            None => {
                return None;
            },
        };
        let p2 = match p3.next_table(&self.machine, page.p3_index()) {
            Some(p2) => p2,
            None => {
                return None;
            },
        };
        let p1 = match p2.next_table(&self.machine, page.p2_index()) {
            Some(p1) => p1,
            None => {
                return None;
            },
        };
        proof {
            let mv = self@;
            let root = self.root();
            let t3 = w.e4.frame_number();
            let t2 = w.e3.frame_number();
            let t1 = w.e2.frame_number();
            assert(self.roles@.contains_key(t3) && self.roles@[t3] == TableRole::Third(i4));
            assert(self.roles@.contains_key(t2) && self.roles@[t2] == TableRole::Second(i4, i3));
            assert(self.roles@.contains_key(t1) && self.roles@[t1] == TableRole::First(i4, i3, i2));
            let v = walk(mv.mem, mv.cr3, p1.page());
            assert(v.e4 == entry_at(mv.mem, mv.cr3, 511));
            assert(v.e3 == entry_at(mv.mem, root, i4));
            assert(v.e2 == entry_at(mv.mem, t3, i3));
            assert(v.e1 == entry_at(mv.mem, t2, i2));
        }
        Some(p1)
    }

    /// Maps `page` to `frame` with `flags` and the present flag, with the
    /// tables that are missing on the way made from frames of `allocator`.
    /// The page must be free to be mapped and the allocator must be able to
    /// pay for the tables: see [`Mapper::can_map`].
    pub fn map_to<A: FrameAllocator>(
        &mut self,
        page: Page,
        frame: Frame,
        flags: EntryFlags,
        allocator: &mut A,
    )
        requires
            old(self).wf(),
            !page.is_recursive(),
            old(allocator).wf(),
            forall|n: u64| #[trigger]
                old(allocator).available().contains(n) ==> !old(self).is_table(n) && n != old(self)@.cr3,
            old(self).can_map(page, frame.number, old(allocator).available()),
        ensures
            final(self).wf(),
            final(allocator).wf(),
            final(allocator).available().subset_of(old(allocator).available()),
            forall|n: u64| #[trigger]
                final(allocator).available().contains(n) ==> !final(self).is_table(n) && n
                    != final(self)@.cr3,
            final(self).grown_from(
                old(self),
                old(allocator).available().difference(final(allocator).available()),
            ),
            final(self).same_translations(old(self), Some(page)),
            old(self).plain() ==> final(self).plain(),
            final(self).mapping(page) == Some(Entry(entry_value(frame.number, flags@ | PRESENT))),
            final(self).translation(page) == Ok::<Option<u64>, MemoryError>(Some(frame.number)),
            final(self).made_tables(
                old(self),
                page,
                old(allocator).available(),
                final(allocator).available(),
            ),
    {
        match self.try_map_to(page, frame, flags, allocator) {
            Ok(()) => {},
            Err(_) => vstd::pervasive::unreached(),
        }
    }

    /// Maps `page` to `frame` with `flags`; the `PRESENT` flag is added.
    /// Tables that are missing on the way are made from frames of
    /// `allocator`.
    ///
    /// The page must lie outside the range that the recursive mapping
    /// reserves. The call fails with `UnsupportedHugePage` where a huge
    /// page stands in the way, with `DoubleMapping` where the slot of the
    /// page is in use, with `MisalignedFrame` where a frame does not fit an
    /// entry, and with `FramesExhausted` where a table is missing and the
    /// allocator has no frame. No other page changes its translation.
    pub fn try_map_to<A: FrameAllocator>(
        &mut self,
        page: Page,
        frame: Frame,
        flags: EntryFlags,
        allocator: &mut A,
    ) -> (result: Result<(), MemoryError>)
        requires
            old(self).wf(),
            !page.is_recursive(),
            old(allocator).wf(),
            forall|n: u64| #[trigger]
                old(allocator).available().contains(n) ==> !old(self).is_table(n) && n != old(self)@.cr3,
        ensures
            final(self).wf(),
            final(allocator).wf(),
            final(allocator).available().subset_of(old(allocator).available()),
            forall|n: u64| #[trigger]
                final(allocator).available().contains(n) ==> !final(self).is_table(n) && n
                    != final(self)@.cr3,
            final(self).grown_from(
                old(self),
                old(allocator).available().difference(final(allocator).available()),
            ),
            final(self).same_translations(
                old(self),
                if result is Ok {
                    Some(page)
                } else {
                    None
                },
            ),
            old(self).plain() ==> final(self).plain(),
            old(self).can_map(page, frame.number, old(allocator).available()) ==> result is Ok,
            match result {
                Ok(()) => {
                    &&& frame.number < FRAME_NUMBER_LIMIT
                    &&& !old(self).huge_in_way(page)
                    &&& old(self).slot(page).0 == 0
                    &&& final(self).mapping(page) == Some(
                        Entry(entry_value(frame.number, flags@ | PRESENT)),
                    )
                    &&& final(self).translation(page) == Ok::<Option<u64>, MemoryError>(
                        Some(frame.number),
                    )
                },
                Err(e) => match e {
                    MemoryError::UnsupportedHugePage => {
                        &&& old(self).huge_in_way(page)
                        &&& final(self)@ == old(self)@
                        &&& final(allocator).available() == old(allocator).available()
                    },
                    MemoryError::DoubleMapping => {
                        &&& old(self).has_tables(page)
                        &&& old(self).slot(page).0 != 0
                        &&& final(self)@ == old(self)@
                        &&& final(allocator).available() == old(allocator).available()
                    },
                    MemoryError::MisalignedFrame => {
                        &&& !old(self).huge_in_way(page)
                        &&& old(self).slot(page).0 == 0
                        &&& frame.number >= FRAME_NUMBER_LIMIT || exists|n: u64|
                            n >= FRAME_NUMBER_LIMIT && #[trigger] old(allocator).available().contains(n) && !final(allocator).available().contains(n)
                    },
                    MemoryError::FramesExhausted => {
                        &&& !old(self).huge_in_way(page)
                        &&& !old(self).has_tables(page)
                        &&& final(allocator).available() =~= Set::<u64>::empty()
                        &&& fewer_than(old(allocator).available(), old(self).missing_tables(page))
                    },
                    _ => false,
                },
            },
            old(self).has_tables(page) ==> result == (if old(self).slot(page).0 != 0 {
                Err::<(), MemoryError>(MemoryError::DoubleMapping)
            } else if frame.number >= FRAME_NUMBER_LIMIT {
                Err(MemoryError::MisalignedFrame)
            } else {
                Ok(())
            }),
            old(self).has_tables(page) ==> final(allocator).available() == old(allocator).available(),
            !(result matches Err(MemoryError::MisalignedFrame)) ==> final(self).made_tables(
                old(self),
                page,
                old(allocator).available(),
                final(allocator).available(),
            ),
    {
        proof {
            reveal(translate_page_spec);
            reveal(leaf_entry);
        }
        let ghost s0 = *self;
        let p1 = match self.leaf_table_create(page, allocator) {
            Ok(p1) => p1,
            Err(e) => {
                proof {
                    self.lemma_plain_stays(&s0, page, false);
                }
                return Err(e);
            },
        };
        let ghost s3 = *self;
        let ghost i4 = index4(page.number) as int;
        let ghost i3 = index3(page.number) as int;
        let ghost i2 = index2(page.number) as int;
        let ghost i1 = index1(page.number) as int;
        let ghost role = TableRole::First(i4, i3, i2);
        proof {
            s3.lemma_handle(&p1, role);
        }
        let mut entry = p1.entry(&self.machine, page.p1_index());
        if !entry.is_unused() {
            proof {
                self.lemma_plain_stays(&s0, page, false);
            }
            return Err(MemoryError::DoubleMapping);
        }
        let flag_bits = flags.bits();
        assert(flag_bits == flags@);
        match entry.try_set(frame, flags.union(EntryFlags::present())) {
            Ok(()) => {},
            Err(e) => {
                proof {
                    self.lemma_plain_stays(&s0, page, false);
                }
                return Err(e);
            },
        }
        p1.set_entry(&mut self.machine, page.p1_index(), entry);
        proof {
            let table = p1.frame(s3@);
            let value = entry.0;
            lemma_present_entry(frame.number, flags@);
            lemma_leaf_written(s3@, s3.roles@, table, i1, value, self@);
            lemma_leaf_written_page(
                s3@,
                s3.roles@,
                table,
                i4,
                i3,
                i2,
                i1,
                value,
                self@,
                page.number,
            );
            assert(self.same_translations(&s3, Some(page))) by {
                reveal(Mapper::same_translations);
                assert forall|q: Page| !q.is_recursive() && !q.same_slot(page) implies {
                    &&& #[trigger] self.translation(q) == s3.translation(q)
                    &&& self.mapping(q) == s3.mapping(q)
                    &&& way(self@.mem, self.root(), q.number) == way(
                        s3@.mem,
                        s3.root(),
                        q.number,
                    )
                } by {
                    lemma_leaf_written_page(
                        s3@,
                        s3.roles@,
                        table,
                        i4,
                        i3,
                        i2,
                        i1,
                        value,
                        self@,
                        q.number,
                    );
                }
            }
            self.lemma_same_translations_trans(&s3, &s0, Some(page));
            assert(self.grown_from(&s3, Set::<u64>::empty())) by {
                reveal(Mapper::untouched_outside);
                reveal(Mapper::tables_from);
            }
            let given = old(allocator).available().difference(allocator.available());
            self.lemma_grown_trans(&s3, &s0, given, Set::<u64>::empty());
            self.lemma_grown_wider(&s0, given.union(Set::<u64>::empty()), given);
            self.lemma_plain_stays(&s0, page, true);
        }
        Ok(())
    }

    /// Maps `page` to a frame taken from `allocator`, with `flags`. The
    /// page must be free to be mapped, and the allocator must hold a frame
    /// for the page and one for each table that is missing on the way.
    pub fn map<A: FrameAllocator>(&mut self, page: Page, flags: EntryFlags, allocator: &mut A)
        requires
            old(self).wf(),
            !page.is_recursive(),
            old(allocator).wf(),
            forall|n: u64| #[trigger]
                old(allocator).available().contains(n) ==> !old(self).is_table(n) && n != old(self)@.cr3,
            !old(self).huge_in_way(page),
            old(self).slot(page).0 == 0,
            can_supply(old(allocator).available(), old(self).missing_tables(page) + 1),
        ensures
            final(self).wf(),
            final(allocator).wf(),
            final(allocator).available().subset_of(old(allocator).available()),
            forall|n: u64| #[trigger]
                final(allocator).available().contains(n) ==> !final(self).is_table(n) && n
                    != final(self)@.cr3,
            final(self).grown_from(
                old(self),
                old(allocator).available().difference(final(allocator).available()),
            ),
            final(self).same_translations(old(self), Some(page)),
            old(self).plain() ==> final(self).plain(),
            ({
                &&& final(self).translation(page) matches Ok(Some(n))
                &&& old(allocator).upcoming() == Some(n)
                &&& old(allocator).available().contains(n)
                &&& !final(allocator).available().contains(n)
                &&& !final(self).is_table(n)
                &&& final(self).mapping(page) == Some(Entry(entry_value(n, flags@ | PRESENT)))
                &&& final(self).made_tables(
                    old(self),
                    page,
                    old(allocator).available().remove(n),
                    final(allocator).available(),
                )
            }),
    {
        match self.try_map(page, flags, allocator) {
            Ok(()) => {},
            Err(_) => vstd::pervasive::unreached(),
        }
    }

    /// Maps `page` to a frame taken from `allocator`, with `flags`.
    ///
    /// Fails with `FramesExhausted` where the allocator has no frame for
    /// the page, and as [`Mapper::try_map_to`] does. The frame that was taken
    /// is not given back on failure.
    pub fn try_map<A: FrameAllocator>(&mut self, page: Page, flags: EntryFlags, allocator: &mut A) -> (result:
        Result<(), MemoryError>)
        requires
            old(self).wf(),
            !page.is_recursive(),
            old(allocator).wf(),
            forall|n: u64| #[trigger]
                old(allocator).available().contains(n) ==> !old(self).is_table(n) && n != old(self)@.cr3,
        ensures
            final(self).wf(),
            final(allocator).wf(),
            final(allocator).available().subset_of(old(allocator).available()),
            forall|n: u64| #[trigger]
                final(allocator).available().contains(n) ==> !final(self).is_table(n) && n
                    != final(self)@.cr3,
            final(self).grown_from(
                old(self),
                old(allocator).available().difference(final(allocator).available()),
            ),
            final(self).same_translations(
                old(self),
                if result is Ok {
                    Some(page)
                } else {
                    None
                },
            ),
            old(self).plain() ==> final(self).plain(),
            !old(self).huge_in_way(page) && old(self).slot(page).0 == 0 && can_supply(
                old(allocator).available(),
                old(self).missing_tables(page) + 1,
            ) ==> result is Ok,
            match result {
                Ok(()) => {
                    &&& final(self).translation(page) matches Ok(Some(n))
                    &&& old(allocator).upcoming() == Some(n)
                    &&& old(allocator).available().contains(n)
                    &&& !final(allocator).available().contains(n)
                    &&& !final(self).is_table(n)
                    &&& final(self).mapping(page) == Some(Entry(entry_value(n, flags@ | PRESENT)))
                    &&& !old(self).huge_in_way(page)
                    &&& old(self).slot(page).0 == 0
                    &&& final(self).made_tables(
                        old(self),
                        page,
                        old(allocator).available().remove(n),
                        final(allocator).available(),
                    )
                },
                Err(e) => match e {
                    MemoryError::UnsupportedHugePage => {
                        &&& old(self).huge_in_way(page)
                        &&& final(self)@ == old(self)@
                    },
                    MemoryError::DoubleMapping => {
                        &&& old(self).has_tables(page)
                        &&& old(self).slot(page).0 != 0
                        &&& final(self)@ == old(self)@
                    },
                    MemoryError::MisalignedFrame => exists|n: u64|
                        n >= FRAME_NUMBER_LIMIT && #[trigger] old(allocator).available().contains(
                            n,
                        ) && !final(allocator).available().contains(n),
                    MemoryError::FramesExhausted => {
                        &&& final(allocator).available() =~= Set::<u64>::empty()
                        &&& fewer_than(
                            old(allocator).available(),
                            old(self).missing_tables(page) + 1,
                        )
                    },
                    _ => false,
                },
            },
    {
        let ghost s0 = *self;
        let ghost a0 = allocator.available();
        let frame = match allocator.allocate_frame() {
            Some(frame) => frame,
            None => {
                proof {
                    self.lemma_grown_refl(a0.difference(allocator.available()));
                    self.lemma_plain_stays(&s0, page, false);
                }
                return Err(MemoryError::FramesExhausted);
            },
        };
        let ghost a1 = allocator.available();
        let result = self.try_map_to(page, frame, flags, allocator);
        proof {
            let a2 = allocator.available();
            self.lemma_grown_wider(&s0, a1.difference(a2), a0.difference(a2));
            self.lemma_grown(&s0, a0.difference(a2), frame.number, 0);
            self.lemma_grown(&s0, a1.difference(a2), frame.number, 0);
        }
        result
    }

    /// Maps the page with the number of `frame` to `frame`, with `flags`,
    /// under the conditions of [`Mapper::map_to`].
    pub fn identity_map<A: FrameAllocator>(&mut self, frame: Frame, flags: EntryFlags, allocator: &mut A)
        requires
            old(self).wf(),
            !(Page { number: frame.number }).is_recursive(),
            old(allocator).wf(),
            forall|n: u64| #[trigger]
                old(allocator).available().contains(n) ==> !old(self).is_table(n) && n != old(self)@.cr3,
            old(self).can_map(
                Page { number: frame.number },
                frame.number,
                old(allocator).available(),
            ),
        ensures
            final(self).wf(),
            final(allocator).wf(),
            final(allocator).available().subset_of(old(allocator).available()),
            forall|n: u64| #[trigger]
                final(allocator).available().contains(n) ==> !final(self).is_table(n) && n
                    != final(self)@.cr3,
            final(self).grown_from(
                old(self),
                old(allocator).available().difference(final(allocator).available()),
            ),
            final(self).same_translations(old(self), Some(Page { number: frame.number })),
            old(self).plain() ==> final(self).plain(),
            final(self).mapping(Page { number: frame.number }) == Some(
                Entry(entry_value(frame.number, flags@ | PRESENT)),
            ),
            final(self).translation(Page { number: frame.number }) == Ok::<
                Option<u64>,
                MemoryError,
            >(Some(frame.number)),
            final(self).made_tables(
                old(self),
                Page { number: frame.number },
                old(allocator).available(),
                final(allocator).available(),
            ),
    {
        match self.try_identity_map(frame, flags, allocator) {
            Ok(()) => {},
            Err(_) => vstd::pervasive::unreached(),
        }
    }

    /// Maps the page whose address is that of `frame` to `frame`, with
    /// `flags`.
    ///
    /// Fails with `MisalignedFrame`, before anything is changed, where the
    /// frame's address does not fit in 64 bits, and as [`Mapper::try_map_to`]
    /// does.
    pub fn try_identity_map<A: FrameAllocator>(
        &mut self,
        frame: Frame,
        flags: EntryFlags,
        allocator: &mut A,
    ) -> (result: Result<(), MemoryError>)
        requires
            old(self).wf(),
            !(Page { number: frame.number }).is_recursive(),
            old(allocator).wf(),
            forall|n: u64| #[trigger]
                old(allocator).available().contains(n) ==> !old(self).is_table(n) && n != old(self)@.cr3,
        ensures
            final(self).wf(),
            final(allocator).wf(),
            final(allocator).available().subset_of(old(allocator).available()),
            forall|n: u64| #[trigger]
                final(allocator).available().contains(n) ==> !final(self).is_table(n) && n
                    != final(self)@.cr3,
            final(self).grown_from(
                old(self),
                old(allocator).available().difference(final(allocator).available()),
            ),
            final(self).same_translations(
                old(self),
                if result is Ok {
                    Some(Page { number: frame.number })
                } else {
                    None
                },
            ),
            old(self).plain() ==> final(self).plain(),
            old(self).can_map(
                Page { number: frame.number },
                frame.number,
                old(allocator).available(),
            ) ==> result is Ok,
            match result {
                Ok(()) => {
                    let page = Page { number: frame.number };
                    &&& frame.number < FRAME_NUMBER_LIMIT
                    &&& !old(self).huge_in_way(page)
                    &&& old(self).slot(page).0 == 0
                    &&& final(self).mapping(page) == Some(
                        Entry(entry_value(frame.number, flags@ | PRESENT)),
                    )
                    &&& final(self).translation(page) == Ok::<Option<u64>, MemoryError>(
                        Some(frame.number),
                    )
                },
                Err(e) => {
                    let page = Page { number: frame.number };
                    match e {
                        MemoryError::UnsupportedHugePage => {
                            &&& old(self).huge_in_way(page)
                            &&& final(self)@ == old(self)@
                            &&& final(allocator).available() == old(allocator).available()
                        },
                        MemoryError::DoubleMapping => {
                            &&& old(self).has_tables(page)
                            &&& old(self).slot(page).0 != 0
                            &&& final(self)@ == old(self)@
                            &&& final(allocator).available() == old(allocator).available()
                        },
                        MemoryError::MisalignedFrame => {
                            ||| frame.number >= FRAME_NUMBER_LIMIT
                            ||| exists|n: u64|
                                n >= FRAME_NUMBER_LIMIT && #[trigger] old(allocator).available().contains(n) && !final(allocator).available().contains(
                                    n,
                                )
                        },
                        MemoryError::FramesExhausted => {
                            &&& !old(self).huge_in_way(page)
                            &&& !old(self).has_tables(page)
                            &&& final(allocator).available() =~= Set::<u64>::empty()
                            &&& fewer_than(
                                old(allocator).available(),
                                old(self).missing_tables(page),
                            )
                        },
                        _ => false,
                    }
                },
            },
            !(result matches Err(MemoryError::MisalignedFrame)) ==> final(self).made_tables(
                old(self),
                Page { number: frame.number },
                old(allocator).available(),
                final(allocator).available(),
            ),
            frame.number > crate::memory::MAX_FRAME_NUMBER ==> {
                &&& result == Err::<(), MemoryError>(MemoryError::MisalignedFrame)
                &&& final(self)@ == old(self)@
                &&& final(allocator).available() == old(allocator).available()
            },
    {
        if frame.number > crate::memory::MAX_FRAME_NUMBER {
            proof {
                self.lemma_grown_refl(
                    old(allocator).available().difference(allocator.available()),
                );
                self.lemma_plain_stays(old(self), Page { number: frame.number }, false);
            }
            return Err(MemoryError::MisalignedFrame);
        }
        let page = Page::containing_address(frame.start_address());
        self.try_map_to(page, frame, flags, allocator)
    }

    /// Unmaps `page`, which must be mapped as a 4 KiB page: its entry is
    /// cleared and its translation leaves the translation cache. The frame
    /// is not given back to the allocator.
    pub fn unmap<A: FrameAllocator>(&mut self, page: Page, allocator: &mut A)
        requires
            old(self).wf(),
            !page.is_recursive(),
            old(self).mapping(page) is Some,
        ensures
            final(self).wf(),
            *final(allocator) == *old(allocator),
            final(self)@.cr3 == old(self)@.cr3,
            final(self).root() == old(self).root(),
            forall|f: u64| final(self).is_table(f) == old(self).is_table(f),
            final(self).untouched_outside(old(self)),
            final(self).mapping(page) is None,
            final(self).translation(page) == Ok::<Option<u64>, MemoryError>(None),
            final(self)@.tlb == old(self)@.tlb.remove(page.number),
            final(self).same_translations(old(self), Some(page)),
            old(self).plain() ==> final(self).plain(),
            final(self).has_tables(page),
            final(self).slot(page).0 == 0,
    {
        proof {
            self.lemma_mapping_facts(page);
        }
        match self.try_unmap(page, allocator) {
            Ok(()) => {},
            Err(_) => vstd::pervasive::unreached(),
        }
    }

    /// Unmaps `page`: clears its slot and drops its cached translation.
    /// Tables that become empty stay where they are, and no frame goes back
    /// to `allocator`.
    ///
    /// The page must lie outside the range that the recursive mapping
    /// reserves. The call fails, and changes nothing, with `UnmappedUnmap`
    /// where the page is not mapped, with `UnsupportedHugePage` where a
    /// huge page maps it, and with `MisalignedFrame` where its translation
    /// fails so.
    pub fn try_unmap<A: FrameAllocator>(&mut self, page: Page, allocator: &mut A) -> (result: Result<
        (),
        MemoryError,
    >)
        requires
            old(self).wf(),
            !page.is_recursive(),
        ensures
            final(self).wf(),
            *final(allocator) == *old(allocator),
            final(self)@.cr3 == old(self)@.cr3,
            final(self).root() == old(self).root(),
            forall|f: u64| final(self).is_table(f) == old(self).is_table(f),
            final(self).untouched_outside(old(self)),
            old(self).plain() ==> final(self).plain(),
            old(self).mapping(page) is Some <==> result is Ok,
            match result {
                Ok(()) => {
                    &&& old(self).mapping(page) is Some
                    &&& final(self).mapping(page) is None
                    &&& final(self).translation(page) == Ok::<Option<u64>, MemoryError>(None)
                    &&& final(self)@.tlb == old(self)@.tlb.remove(page.number)
                    &&& final(self).same_translations(old(self), Some(page))
                    &&& final(self).has_tables(page)
                    &&& final(self).slot(page).0 == 0
                },
                Err(e) => {
                    &&& final(self)@ == old(self)@
                    &&& match e {
                        MemoryError::UnmappedUnmap => old(self).translation(page) == Ok::<
                            Option<u64>,
                            MemoryError,
                        >(None),
                        MemoryError::MisalignedFrame => old(self).translation(page) is Err,
                        MemoryError::UnsupportedHugePage => {
                            &&& old(self).translation(page) matches Ok(Some(_))
                            &&& old(self).mapping(page) is None
                        },
                        _ => false,
                    }
                },
            },
    {
        proof {
            reveal(translate_page_spec);
            reveal(leaf_entry);
        }
        let ghost s0 = *self;
        proof {
            reveal(Mapper::untouched_outside);
        }
        match self.try_translate_page(page) {
            Ok(Some(_)) => {},
            Ok(None) => {
                return Err(MemoryError::UnmappedUnmap);
            },
            Err(e) => {
                return Err(e);
            },
        }
        let p1 = match self.leaf_table(page) {
            Some(p1) => p1,
            None => {
                return Err(MemoryError::UnsupportedHugePage);
            },
        };
        let ghost i4 = index4(page.number) as int;
        let ghost i3 = index3(page.number) as int;
        let ghost i2 = index2(page.number) as int;
        let ghost i1 = index1(page.number) as int;
        proof {
            self.lemma_handle(&p1, TableRole::First(i4, i3, i2));
        }
        let mut entry = p1.entry(&self.machine, page.p1_index());
        entry.set_unused();
        p1.set_entry(&mut self.machine, page.p1_index(), entry);
        let ghost s1 = *self;
        self.machine.flush(page);
        proof {
            let table = p1.frame(s0@);
            assert(Entry(0).0 & PRESENT == 0) by (bit_vector);
            lemma_leaf_written(s0@, s0.roles@, table, i1, 0, s1@);
            lemma_leaf_written_page(s0@, s0.roles@, table, i4, i3, i2, i1, 0, s1@, page.number);
            reveal(hierarchy_ok);
            assert(self.same_translations(&s0, Some(page))) by {
                reveal(Mapper::same_translations);
                assert forall|q: Page| !q.is_recursive() && !q.same_slot(page) implies {
                    &&& #[trigger] self.translation(q) == s0.translation(q)
                    &&& self.mapping(q) == s0.mapping(q)
                    &&& way(self@.mem, self.root(), q.number) == way(
                        s0@.mem,
                        s0.root(),
                        q.number,
                    )
                } by {
                    lemma_leaf_written_page(
                        s0@,
                        s0.roles@,
                        table,
                        i4,
                        i3,
                        i2,
                        i1,
                        0,
                        s1@,
                        q.number,
                    );
                }
            }
            self.lemma_plain_stays(&s0, page, true);
        }
        Ok(())
    }

    /// What untouched memory says of one word.
    pub proof fn lemma_untouched(&self, before: &Mapper, a: u64)
        requires
            self.untouched_outside(before),
            !self.is_table((a / 4096) as u64),
        ensures
            self@.mem.contains_key(a) == before@.mem.contains_key(a),
            before@.mem.contains_key(a) ==> self@.mem[a] == before@.mem[a],
    {
        reveal(Mapper::untouched_outside);
        assert(self@.mem.contains_key(a) == before@.mem.contains_key(a));
    }

    /// Pages of one slot translate alike.
    pub proof fn lemma_same_slot(&self, p: Page, q: Page)
        requires
            p.same_slot(q),
        ensures
            self.translation(p) == self.translation(q),
            self.mapping(p) == self.mapping(q),
            self.slot(p) == self.slot(q),
            self.has_tables(p) == self.has_tables(q),
            self.huge_in_way(p) == self.huge_in_way(q),
    {
        reveal(translate_page_spec);
        reveal(leaf_entry);
    }

    /// A mapped page has no unused slot, and an unmapped one no mapping.
    pub proof fn lemma_mapping_facts(&self, p: Page)
        ensures
            self.mapping(p) is Some ==> self.translation(p) matches Ok(Some(_)),
            self.mapping(p) matches Some(e) ==> self.slot(p) == e && e.0 != 0,
            self.translation(p) == Ok::<Option<u64>, MemoryError>(None) ==> self.mapping(p)
                is None,
    {
        reveal(translate_page_spec);
        reveal(leaf_entry);
        let e = walk(self@.mem, self.root(), p.number).e1;
        assert(e.0 & PRESENT != 0 ==> e.0 != 0) by {
            let v = e.0;
            assert(v & 0x1 != 0 ==> v != 0) by (bit_vector);
        }
    }

    /// Round trip: where a page maps to a frame, as it does after
    /// [`Mapper::map_to`], every address of the page translates to the
    /// address at the same offset into the frame.
    pub proof fn lemma_round_trip(&self, page: Page, frame: Frame, k: u64)
        requires
            self.translation(page) == Ok::<Option<u64>, MemoryError>(Some(frame.number)),
            page.number <= crate::memory::MAX_FRAME_NUMBER,
            k < PAGE_SIZE,
        ensures
            self.address_translation((page.number * 4096 + k) as u64) == Ok::<
                Option<u64>,
                MemoryError,
            >(Some((frame.number * 4096 + k) as u64)),
    {
        let address = (page.number * 4096 + k) as u64;
        assert(address / 4096 == page.number);
        assert(address % 4096 == k);
    }

    /// A page that the active hierarchy does not map, and whose
    /// translation is not cached, as it is after [`Mapper::unmap`], cannot
    /// be reached by the processor.
    pub proof fn lemma_unmapped_faults(&self, page: Page)
        requires
            self.active(),
            self.translation(page) == Ok::<Option<u64>, MemoryError>(None),
            !self@.tlb.contains_key(page.number),
        ensures
            self@.lookup(page.number) is None,
    {
        lemma_translation_matches_hardware(self@.mem, self.root(), page.number);
    }

    /// A page that is mapped has its tables and a slot in use: exactly the
    /// state in which [`Mapper::try_map_to`] answers `DoubleMapping`, and which
    /// [`Mapper::map_to`] does not admit.
    pub proof fn lemma_mapped_twice(&self, page: Page)
        requires
            self.mapping(page) is Some,
        ensures
            self.has_tables(page),
            self.slot(page).0 != 0,
            forall|frame: u64, frames: Set<u64>| !#[trigger] self.can_map(page, frame, frames),
    {
        reveal(leaf_entry);
        self.lemma_mapping_facts(page);
    }

    /// A mapping survives the mapping of a page whose slot was unused.
    pub proof fn lemma_mapping_survives(&self, before: &Mapper, page: Page, other: Page)
        requires
            self.same_translations(before, Some(page)),
            before.slot(page).0 == 0,
            !other.is_recursive(),
            before.mapping(other) is Some,
        ensures
            !other.same_slot(page),
            self.mapping(other) == before.mapping(other),
            self.translation(other) == before.translation(other),
    {
        before.lemma_mapping_facts(other);
        if other.same_slot(page) {
            before.lemma_same_slot(other, page);
        } else {
            self.lemma_same_translation(before, Some(page), other);
        }
    }

    /// Kept translations, said of memory and roots.
    pub proof fn lemma_translations_kept(&self, before: &Mapper)
        ensures
            self.same_translations(before, None) <==> kept(
                before@.mem,
                before.root(),
                self@.mem,
                self.root(),
            ),
    {
        reveal(Mapper::same_translations);
        reveal(kept);
        if self.same_translations(before, None) {
            assert forall|q: u64| index4(q) != 511 implies {
                &&& #[trigger] translate_page_spec(self@.mem, self.root(), q)
                    == translate_page_spec(before@.mem, before.root(), q)
                &&& leaf_entry(self@.mem, self.root(), q) == leaf_entry(
                    before@.mem,
                    before.root(),
                    q,
                )
                &&& way(self@.mem, self.root(), q) == way(before@.mem, before.root(), q)
            } by {
                let page = Page { number: q };
                assert(self.translation(page) == before.translation(page));
            }
        }
    }

    /// A change of memory that touches no table of the hierarchy, nor the
    /// recursive entry of the active root table, leaves the hierarchy sound
    /// and its translations as they are.
    proof fn lemma_outside_write(mv: MachineView, roles: Map<u64, TableRole>, after: MachineView)
        requires
            hierarchy_ok(mv, roles),
            after.cr3 == mv.cr3,
            after.mem.contains_key(word_address(mv.cr3, 511)) == mv.mem.contains_key(
                word_address(mv.cr3, 511),
            ),
            after.mem[word_address(mv.cr3, 511)] == mv.mem[word_address(mv.cr3, 511)],
            forall|a: u64|
                roles.contains_key((a / 4096) as u64) ==> {
                    &&& #[trigger] after.mem.contains_key(a) == mv.mem.contains_key(a)
                    &&& mv.mem.contains_key(a) ==> after.mem[a] == mv.mem[a]
                },
        ensures
            hierarchy_ok(after, roles),
            recursive_root(after) == recursive_root(mv),
            kept(mv.mem, recursive_root(mv), after.mem, recursive_root(mv)),
            forall|f: u64, i: int|
                roles.contains_key(f) && 0 <= i < 512 ==> #[trigger] entry_at(after.mem, f, i)
                    == entry_at(mv.mem, f, i),
    {
        let root = recursive_root(mv);
        lemma_hierarchy_is_tree(mv, roles);
        assert(roles.contains_key(root) && backed(mv.mem, root)) by {
            reveal(tree_ok);
        }
        assert(word_address(root, 511) == root * 4096 + 511 * 8);
        assert(word_address(root, 511) / 4096 == root);
        assert(after.mem.contains_key(word_address(root, 511)));
        assert(entry_at(after.mem, mv.cr3, 511) == entry_at(mv.mem, mv.cr3, 511));
        assert(entry_at(after.mem, root, 511) == entry_at(mv.mem, root, 511));
        lemma_tree_kept(mv.mem, after.mem, roles, root);
        lemma_tree_is_hierarchy(after, roles);
    }

    /// Every frame that the way to a page outside the range of the
    /// recursive mapping passes through is a table of the active hierarchy,
    /// so a table in any other frame can be written through such a page.
    proof fn lemma_foreign_table(&self, table: &Table<Level1>)
        requires
            self.wf(),
            self.active(),
            table.valid(self@),
            index4(table.page()) != 511,
            !self.is_table(table.frame(self@)),
        ensures
            forall|i: int| 0 <= i < 512 ==> #[trigger] table.writable_at(self@, i),
            table.frame(self@) < FRAME_NUMBER_LIMIT,
            table.frame(self@) != self@.cr3,
    {
        reveal(hierarchy_ok);
        let mv = self@;
        let page = table.page();
        let w = walk(mv.mem, mv.cr3, page);
        let i4 = index4(page) as int;
        let i3 = index3(page) as int;
        let i2 = index2(page) as int;
        lemma_frame_number_bound(w.e1.0);
        assert(w.e4 == entry_at(mv.mem, mv.cr3, i4));
        let t3 = w.e4.frame_number();
        assert(self.roles@.contains_key(t3) && self.roles@[t3] == TableRole::Third(i4));
        assert(w.e3 == entry_at(mv.mem, t3, i3));
        let t2 = w.e3.frame_number();
        assert(self.roles@.contains_key(t2) && self.roles@[t2] == TableRole::Second(i4, i3));
        assert(w.e2 == entry_at(mv.mem, t2, i2));
        let t1 = w.e2.frame_number();
        assert(self.roles@.contains_key(t1) && self.roles@[t1] == TableRole::First(i4, i3, i2));
    }

    /// Makes the frame behind `table` the root table of a fresh hierarchy:
    /// clears it and lets its last entry name the frame itself. The frame
    /// must not hold a table of the active hierarchy, and `table` must be
    /// a page outside the range of the recursive mapping that is mapped to
    /// the frame.
    pub fn init_table(&mut self, table: &Table<Level1>, frame: Frame) -> (inactive:
        InactivePageTable)
        requires
            old(self).wf(),
            old(self).active(),
            table.valid(old(self)@),
            table.frame(old(self)@) == frame.number,
            index4(table.page()) != 511,
            !old(self).is_table(frame.number),
        ensures
            final(self).wf(),
            final(self).active(),
            final(self)@.cr3 == old(self)@.cr3,
            final(self)@.tlb == old(self)@.tlb,
            final(self).root() == old(self).root(),
            forall|f: u64| final(self).is_table(f) == old(self).is_table(f),
            final(self).same_translations(old(self), None),
            forall|a: u64|
                a / 4096 != frame.number ==> {
                    &&& #[trigger] final(self)@.mem.contains_key(a) == old(self)@.mem.contains_key(
                        a,
                    )
                    &&& old(self)@.mem.contains_key(a) ==> final(self)@.mem[a] == old(self)@.mem[a]
                },
            inactive.frame() == frame,
            inactive.wf(final(self)@.mem),
            forall|f: u64| inactive.is_table(f) <==> f == frame.number,
            forall|q: u64|
                index4(q) != 511 ==> {
                    &&& #[trigger] translate_page_spec(final(self)@.mem, frame.number, q) == Ok::<
                        Option<u64>,
                        MemoryError,
                    >(None)
                    &&& leaf_entry(final(self)@.mem, frame.number, q) == None::<Entry>
                },
            plain(final(self)@.mem, frame.number),
    {
        proof {
            reveal(translate_page_spec);
            reveal(leaf_entry);
        }
        let ghost s0 = *self;
        let ghost roles = self.roles@;
        proof {
            self.lemma_foreign_table(table);
        }
        table.zero(&mut self.machine);
        let ghost s1 = *self;
        proof {
            assert forall|a: u64| a / 4096 != frame.number implies {
                &&& #[trigger] s1@.mem.contains_key(a) == s0@.mem.contains_key(a)
                &&& s0@.mem.contains_key(a) ==> s1@.mem[a] == s0@.mem[a]
            } by {
                lemma_word_after_clear(s0@.mem, frame.number, a);
            }
            lemma_hierarchy_is_tree(s0@, roles);
            assert(roles.contains_key(s0@.cr3) && backed(s0@.mem, s0@.cr3)) by {
                reveal(tree_ok);
            }
            assert(word_address(s0@.cr3, 511) == s0@.cr3 * 4096 + 511 * 8);
            assert(word_address(s0@.cr3, 511) / 4096 == s0@.cr3);
            assert(s0@.mem.contains_key(word_address(s0@.cr3, 511)));
            assert(s1@.mem.contains_key(word_address(s0@.cr3, 511)));
            Self::lemma_outside_write(s0@, roles, s1@);
            s1.lemma_foreign_table(table);
        }
        let mut entry = Entry(0);
        entry.set(frame, EntryFlags::present().union(EntryFlags::writable()));
        table.set_entry(&mut self.machine, 511, entry);
        let ghost inactive_roles = Map::<u64, TableRole>::empty().insert(
            frame.number,
            TableRole::Root,
        );
        proof {
            let s2 = *self;
            let value = entry.0;
            lemma_link_entry(frame.number);
            assert(word_address(frame.number, 511) == frame.number * 4096 + 511 * 8);
            assert forall|a: u64| a / 4096 != frame.number implies {
                &&& #[trigger] s2@.mem.contains_key(a) == s0@.mem.contains_key(a)
                &&& s0@.mem.contains_key(a) ==> s2@.mem[a] == s0@.mem[a]
            } by {
                assert(s1@.mem.contains_key(a) == s0@.mem.contains_key(a));
            }
            assert(word_address(s1@.cr3, 511) / 4096 == s1@.cr3);
            assert(backed(s1@.mem, s1@.cr3)) by {
                reveal(hierarchy_ok);
            }
            assert(s1@.mem.contains_key(word_address(s1@.cr3, 511)));
            assert(s2@.mem.contains_key(word_address(s1@.cr3, 511)));
            Self::lemma_outside_write(s1@, roles, s2@);
            lemma_kept_trans(s0@.mem, s0.root(), s1@.mem, s0.root(), s2@.mem, s0.root());
            s2.lemma_translations_kept(&s0);
            assert forall|i: int| 0 <= i < 512 implies #[trigger] entry_at(
                s2@.mem,
                frame.number,
                i,
            ) == if i == 511 {
                Entry(value)
            } else {
                Entry(0)
            } by {
                lemma_entry_after_clear(s0@.mem, frame.number, frame.number, i);
                lemma_entry_after_write(s1@.mem, frame.number, 511, value, frame.number, i);
            }
            assert(backed(s2@.mem, frame.number)) by {
                assert forall|i: int| 0 <= i < 512 implies s2@.mem.contains_key(
                    #[trigger] word_address(frame.number, i),
                ) by {
                    lemma_entry_after_clear(s0@.mem, frame.number, frame.number, i);
                }
            }
            assert(Entry(0).0 & PRESENT == 0) by (bit_vector);
            assert(tree_ok(s2@.mem, inactive_roles, frame.number)) by {
                reveal(tree_ok);
            }
            assert forall|q: u64| index4(q) != 511 implies {
                &&& #[trigger] translate_page_spec(s2@.mem, frame.number, q) == Ok::<
                    Option<u64>,
                    MemoryError,
                >(None)
                &&& leaf_entry(s2@.mem, frame.number, q) == None::<Entry>
            } by {
                assert(entry_at(s2@.mem, frame.number, index4(q) as int) == Entry(0));
            }
            assert(plain(s2@.mem, frame.number)) by {
                reveal(plain);
                reveal(way);
                assert(Entry(0).0 & crate::memory::paging::entry::HUGE_PAGE == 0) by (bit_vector);
                assert forall|q: u64| index4(q) != 511 implies {
                    &&& !(#[trigger] way(s2@.mem, frame.number, q)).0
                    &&& way(s2@.mem, frame.number, q).1.0 == 0 || way(
                        s2@.mem,
                        frame.number,
                        q,
                    ).1.present()
                } by {
                    assert(entry_at(s2@.mem, frame.number, index4(q) as int) == Entry(0));
                }
            }
        }
        InactivePageTable { p4_frame: frame, roles: Ghost(inactive_roles) }
    }

    /// Lets the recursive mapping show the hierarchy `table` instead of the
    /// active one: the last entry of the active root table is pointed at
    /// the root of `table`, and the translation cache is emptied. The
    /// active hierarchy is handed back as parked; `window` is a page of it
    /// that maps the frame of its own root table.
    pub fn redirect(&mut self, table: InactivePageTable, window: Table<Level1>) -> (parked:
        ParkedTable)
        requires
            old(self).wf(),
            old(self).active(),
            table.wf(old(self)@.mem),
            forall|f: u64| table.is_table(f) ==> !old(self).is_table(f),
            window.address() % 4096 == 0,
            index4(window.page()) != 511,
            old(self).mapping(Page { number: window.page() }) == Some(
                Entry(entry_value(old(self)@.cr3, WRITABLE | PRESENT)),
            ),
        ensures
            final(self).wf(),
            final(self)@.cr3 == old(self)@.cr3,
            final(self)@.tlb == Map::<u64, u64>::empty(),
            final(self).root() == table.frame().number,
            final(self).root() != final(self)@.cr3,
            forall|f: u64| final(self).is_table(f) == table.is_table(f),
            kept(
                old(self)@.mem,
                table.frame().number,
                final(self)@.mem,
                table.frame().number,
            ),
            parked.frame().number == old(self)@.cr3,
            parked.window_page() == window.page(),
            parked.wf(final(self)@.mem),
            forall|f: u64| parked.is_table(f) == old(self).is_table(f),
            forall|a: u64|
                a != word_address(old(self)@.cr3, 511) ==> {
                    &&& #[trigger] final(self)@.mem.contains_key(a) == old(self)@.mem.contains_key(
                        a,
                    )
                    &&& old(self)@.mem.contains_key(a) ==> final(self)@.mem[a] == old(self)@.mem[a]
                },
    {
        proof {
            reveal(translate_page_spec);
            reveal(leaf_entry);
        }
        let ghost s0 = *self;
        let ghost roles = self.roles@;
        let ghost target = table.p4_frame.number;
        let p4 = self.p4();
        let backup = self.machine.cr3();
        let mut entry = Entry(0);
        entry.set(table.p4_frame, EntryFlags::present().union(EntryFlags::writable()));
        proof {
            lemma_hierarchy_is_tree(s0@, roles);
            assert(roles.contains_key(s0@.cr3) && backed(s0@.mem, s0@.cr3)) by {
                reveal(tree_ok);
            }
            assert(table.roles@.contains_key(target)) by {
                reveal(tree_ok);
            }
            lemma_root_address();
            lemma_root_walk(s0@, (P4 / 4096) as u64);
            lemma_link_entry(target);
        }
        let stored = self.machine.write(P4 + 511 * 8, entry.0);
        self.machine.flush_all();
        proof {
            let s1 = *self;
            let cr3 = s0@.cr3;
            let slot = word_address(cr3, 511);
            assert(slot == cr3 * 4096 + 511 * 8);
            assert(slot / 4096 == cr3);
            assert(!table.is_table(cr3)) by {
                if table.is_table(cr3) {
                    assert(!s0.is_table(cr3));
                }
            }
            assert(target != cr3);
            assert(s1@.mem == s0@.mem.insert(slot, entry.0));
            assert(entry_at(s1@.mem, cr3, 511) == entry);
            // The hierarchy of `table` is untouched.
            assert forall|a: u64| table.roles@.contains_key((a / 4096) as u64) implies {
                &&& #[trigger] s1@.mem.contains_key(a) == s0@.mem.contains_key(a)
                &&& s0@.mem.contains_key(a) ==> s1@.mem[a] == s0@.mem[a]
            } by {
                assert(a != slot);
            }
            assert(backed(s0@.mem, target) && s0@.mem.contains_key(word_address(target, 511))) by {
                reveal(tree_ok);
            }
            assert(word_address(target, 511) == target * 4096 + 511 * 8);
            assert(word_address(target, 511) / 4096 == target);
            lemma_tree_kept(s0@.mem, s1@.mem, table.roles@, target);
            assert(entry_at(s1@.mem, target, 511) == entry_at(s0@.mem, target, 511));
            lemma_tree_is_hierarchy(s1@, table.roles@);
            // The active hierarchy stays a tree: only its recursive entry
            // changed.
            assert(tables_kept(s0@.mem, s1@.mem, roles, cr3));
            lemma_tree_kept(s0@.mem, s1@.mem, roles, cr3);
            lemma_kept_page(s0@.mem, cr3, s1@.mem, cr3, window.page());
            self.roles@ = table.roles@;
        }
        ParkedTable { p4_frame: backup, window, roles: Ghost(roles) }
    }

    /// Undoes [`Mapper::redirect`]: the last entry of the active root
    /// table, reached through the parked hierarchy's own mapping of it, is
    /// pointed back at that table, and the translation cache is emptied.
    /// The hierarchy that the recursive mapping showed is handed back, at
    /// rest.
    pub fn restore(&mut self, parked: ParkedTable) -> (table: InactivePageTable)
        requires
            old(self).wf(),
            old(self)@.cr3 == parked.frame().number,
            old(self).root() != old(self)@.cr3,
            parked.wf(old(self)@.mem),
            forall|f: u64| parked.is_table(f) ==> !old(self).is_table(f),
        ensures
            final(self).wf(),
            final(self).active(),
            final(self)@.cr3 == old(self)@.cr3,
            final(self)@.tlb == Map::<u64, u64>::empty(),
            forall|f: u64| final(self).is_table(f) == parked.is_table(f),
            kept(
                old(self)@.mem,
                parked.frame().number,
                final(self)@.mem,
                parked.frame().number,
            ),
            !(Page { number: parked.window_page() }).is_recursive(),
            final(self).mapping(Page { number: parked.window_page() }) == Some(
                Entry(entry_value(old(self)@.cr3, WRITABLE | PRESENT)),
            ),
            table.frame().number == old(self).root(),
            table.wf(final(self)@.mem),
            forall|f: u64| table.is_table(f) == old(self).is_table(f),
            kept(old(self)@.mem, old(self).root(), final(self)@.mem, old(self).root()),
            forall|a: u64|
                a != word_address(old(self)@.cr3, 511) ==> {
                    &&& #[trigger] final(self)@.mem.contains_key(a) == old(self)@.mem.contains_key(
                        a,
                    )
                    &&& old(self)@.mem.contains_key(a) ==> final(self)@.mem[a] == old(self)@.mem[a]
                },
    {
        proof {
            reveal(translate_page_spec);
            reveal(leaf_entry);
        }
        let ghost s0 = *self;
        let ghost roles = self.roles@;
        let ghost cr3 = s0@.cr3;
        let ghost shown = s0.root();
        let window = parked.window;
        let shown_frame = match self.p4().entry(&self.machine, 511).pointed_frame() {
            Some(frame) => frame,
            None => {
                proof {
                    reveal(hierarchy_ok);
                }
                vstd::pervasive::unreached()
            },
        };
        let mut entry = Entry(0);
        entry.set(parked.p4_frame, EntryFlags::present().union(EntryFlags::writable()));
        proof {
            reveal(hierarchy_ok);
            lemma_link_entry(cr3);
            let w = walk(s0@.mem, cr3, window.page());
            assert(w.e1 == Entry(entry_value(cr3, WRITABLE | PRESENT)));
            assert(table_walk(s0@.mem, cr3, window.page()) == Some(cr3));
            assert(backed(s0@.mem, cr3)) by {
                reveal(tree_ok);
            }
        }
        let stored = self.machine.write(window.start_address() + 511 * 8, entry.0);
        self.machine.flush_all();
        proof {
            let s1 = *self;
            let slot = word_address(cr3, 511);
            assert(slot == cr3 * 4096 + 511 * 8);
            assert(s1@.mem == s0@.mem.insert(slot, entry.0));
            assert(entry_at(s1@.mem, cr3, 511) == entry);
            assert(tables_kept(s0@.mem, s1@.mem, parked.roles@, cr3));
            lemma_tree_kept(s0@.mem, s1@.mem, parked.roles@, cr3);
            lemma_kept_page(s0@.mem, cr3, s1@.mem, cr3, window.page());
            lemma_tree_is_hierarchy(s1@, parked.roles@);
            // The hierarchy that was shown is untouched.
            lemma_hierarchy_is_tree(s0@, roles);
            assert(backed(s0@.mem, shown) && s0@.mem.contains_key(word_address(shown, 511))) by {
                reveal(tree_ok);
            }
            assert(word_address(shown, 511) == shown * 4096 + 511 * 8);
            assert(word_address(shown, 511) / 4096 == shown);
            assert forall|a: u64| roles.contains_key((a / 4096) as u64) implies {
                &&& #[trigger] s1@.mem.contains_key(a) == s0@.mem.contains_key(a)
                &&& s0@.mem.contains_key(a) ==> s1@.mem[a] == s0@.mem[a]
            } by {
                assert(a != slot);
            }
            lemma_tree_kept(s0@.mem, s1@.mem, roles, shown);
            assert(entry_at(s1@.mem, shown, 511) == entry_at(s0@.mem, shown, 511));
            self.roles@ = parked.roles@;
        }
        InactivePageTable { p4_frame: shown_frame, roles: Ghost(roles) }
    }

    /// Makes the hierarchy `new_table` the one that the processor uses, and
    /// hands back the one that was in use, at rest. The translation cache
    /// is emptied.
    pub fn switch(&mut self, new_table: InactivePageTable) -> (old_table: InactivePageTable)
        requires
            old(self).wf(),
            old(self).active(),
            new_table.wf(old(self)@.mem),
            forall|f: u64| new_table.is_table(f) ==> !old(self).is_table(f),
        ensures
            final(self).wf(),
            final(self).active(),
            final(self)@.cr3 == new_table.frame().number,
            final(self)@.tlb == Map::<u64, u64>::empty(),
            final(self)@.mem == old(self)@.mem,
            forall|f: u64| final(self).is_table(f) == new_table.is_table(f),
            old_table.frame().number == old(self)@.cr3,
            old_table.wf(final(self)@.mem),
            forall|f: u64| old_table.is_table(f) == old(self).is_table(f),
    {
        let ghost s0 = *self;
        let ghost roles = self.roles@;
        let old_table = InactivePageTable { p4_frame: self.machine.cr3(), roles: Ghost(roles) };
        self.machine.set_cr3(new_table.p4_frame);
        proof {
            lemma_hierarchy_is_tree(s0@, roles);
            reveal(hierarchy_ok);
            self.roles@ = new_table.roles@;
            assert(recursion_ok(self@));
            lemma_tree_is_hierarchy(self@, new_table.roles@);
        }
        old_table
    }

    /// The entry that maps `page` as a 4 KiB page, with its flags, or `None`
    /// where no such entry is present.
    pub fn page_entry(&self, page: Page) -> (entry: Option<Entry>)
        requires
            self.wf(),
            !page.is_recursive(),
        ensures
            entry == self.mapping(page),
    {
        proof {
            reveal(leaf_entry);
        }
        match self.leaf_table(page) {
            Some(p1) => {
                proof {
                    self.lemma_handle(
                        &p1,
                        TableRole::First(
                            index4(page.number) as int,
                            index3(page.number) as int,
                            index2(page.number) as int,
                        ),
                    );
                }
                let entry = p1.entry(&self.machine, page.p1_index());
                match entry.pointed_frame() {
                    Some(_) => Some(entry),
                    None => None,
                }
            },
            None => None,
        }
    }

    /// Translates a virtual address as the processor does on a memory
    /// access: with the cached translation if the page is cached, else with
    /// the one that the active root table gives, which is then cached.
    pub fn access(&mut self, address: VirtualAddress) -> (physical: Option<PhysicalAddress>)
        requires
            old(self).wf(),
        ensures
            final(self).wf(),
            forall|f: u64| final(self).is_table(f) == old(self).is_table(f),
            physical == match old(self)@.lookup((address / 4096) as u64) {
                Some(frame) => Some((frame * 4096 + address % 4096) as u64),
                None => None::<u64>,
            },
            final(self)@ == match old(self)@.lookup((address / 4096) as u64) {
                Some(frame) => MachineView {
                    tlb: old(self)@.tlb.insert((address / 4096) as u64, frame),
                    ..old(self)@
                },
                None => old(self)@,
            },
    {
        proof {
            reveal(hierarchy_ok);
        }
        self.machine.access(address)
    }

    /// The physical address that `virtual_address` translates to, `None`
    /// where it is not mapped. The address must not lie in a huge page
    /// whose frame is misaligned.
    pub fn translate(&self, virtual_address: VirtualAddress) -> (result: Option<PhysicalAddress>)
        requires
            self.wf(),
            self.address_translation(virtual_address) is Ok,
        ensures
            Ok::<Option<PhysicalAddress>, MemoryError>(result) == self.address_translation(
                virtual_address,
            ),
    {
        match self.try_translate(virtual_address) {
            Ok(address) => address,
            Err(_) => vstd::pervasive::unreached(),
        }
    }

    /// The physical address that a virtual address maps to, or `None` where
    /// its page is not mapped.
    pub fn try_translate(&self, virtual_address: VirtualAddress) -> (result: Result<
        Option<PhysicalAddress>,
        MemoryError,
    >)
        requires
            self.wf(),
        ensures
            result == self.address_translation(virtual_address),
    {
        proof {
            reveal(translate_page_spec);
            reveal(leaf_entry);
        }
        let offset = virtual_address % PAGE_SIZE;
        match self.try_translate_page(Page::containing_address(virtual_address)) {
            Ok(Some(frame)) => Ok(Some(frame.number * PAGE_SIZE + offset)),
            Ok(None) => Ok(None),
            Err(e) => Err(e),
        }
    }

    /// The frame that `page` is mapped to, `None` where it is not mapped.
    /// The page must not lie in a huge page whose frame is misaligned.
    pub fn translate_page(&self, page: Page) -> (result: Option<Frame>)
        requires
            self.wf(),
            self.translation(page) is Ok,
        ensures
            result == match self.translation(page) {
                Ok(Some(n)) => Some(Frame { number: n }),
                _ => None,
            },
            result matches Some(f) ==> f.number < 2 * FRAME_NUMBER_LIMIT,
    {
        match self.try_translate_page(page) {
            Ok(frame) => frame,
            Err(_) => vstd::pervasive::unreached(),
        }
    }

    /// The frame that a page maps to, or `None` where it is not mapped.
    /// Huge pages of 1 GiB and of 2 MiB are followed; a huge page whose
    /// frame is not aligned to its size gives `MisalignedFrame`.
    pub fn try_translate_page(&self, page: Page) -> (result: Result<Option<Frame>, MemoryError>)
        requires
            self.wf(),
        ensures
            result == match self.translation(page) {
                Ok(Some(n)) => Ok(Some(Frame { number: n })),
                Ok(None) => Ok(None),
                Err(e) => Err(e),
            },
            result matches Ok(Some(f)) ==> f.number < 2 * FRAME_NUMBER_LIMIT,
    {
        proof {
            reveal(translate_page_spec);
            reveal(leaf_entry);
        }
        let ghost w = walk(self@.mem, self.root(), page.number);
        proof {
            lemma_frame_number_bound(w.e3.0);
            lemma_frame_number_bound(w.e2.0);
            lemma_frame_number_bound(w.e1.0);
        }
        let p3 = match self.p4().next_table(&self.machine, page.p4_index()) {
            Some(p3) => p3,
            None => {
                return Ok(None);
            },
        };
        let p3_entry = p3.entry(&self.machine, page.p3_index());
        assert(p3_entry == w.e3);
        if let Some(p2) = p3.next_table(&self.machine, page.p3_index()) {
            let p2_entry = p2.entry(&self.machine, page.p2_index());
            assert(p2_entry == w.e2);
            if let Some(p1) = p2.next_table(&self.machine, page.p2_index()) {
                let p1_entry = p1.entry(&self.machine, page.p1_index());
                assert(p1_entry == w.e1);
                if let Some(frame) = p1_entry.pointed_frame() {
                    return Ok(Some(frame));
                }
            }
        }
        // No 4 KiB mapping: the page may lie in a huge page.
        if let Some(start_frame) = p3_entry.pointed_frame() {
            if p3_entry.flags().contains(EntryFlags::huge_page()) {
                // The frame of a 1 GiB page must be 1 GiB aligned.
                if start_frame.number % (ENTRY_COUNT * ENTRY_COUNT) != 0 {
                    return Err(MemoryError::MisalignedFrame);
                }
                return Ok(
                    Some(
                        Frame {
                            number: start_frame.number + (page.p2_index() as u64) * ENTRY_COUNT + (
                            page.p1_index() as u64),
                        },
                    ),
                );
            }
        }
        if let Some(p2) = p3.next_table(&self.machine, page.p3_index()) {
            let p2_entry = p2.entry(&self.machine, page.p2_index());
            if let Some(start_frame) = p2_entry.pointed_frame() {
                if p2_entry.flags().contains(EntryFlags::huge_page()) {
                    // The frame of a 2 MiB page must be 2 MiB aligned.
                    if start_frame.number % ENTRY_COUNT != 0 {
                        return Err(MemoryError::MisalignedFrame);
                    }
                    return Ok(Some(Frame { number: start_frame.number + (page.p1_index() as u64) }));
                }
            }
        }
        Ok(None)
    }
}

} // verus!
