//! A model of the machine that the page tables live in: physical memory as
//! 64-bit words, the register that names the root table, and the cache of
//! translations.
//!
//! A word of memory that was never written is not part of the model's
//! memory; reading it fails. Translation follows the hardware: four table
//! levels, with huge pages at the third and second level. The flags of the
//! entries are kept as they are written; the model does not refuse a store
//! to a page that is not writable, nor a fetch from one that is not
//! executable.
//!
//! Loads and stores take their translation fresh from the tables. Only
//! [`Machine::access`] goes through the translation cache, and so shows
//! what a stale cache would do.
use std::collections::HashMap;
use vstd::prelude::*;
use crate::memory::paging::entry::{
    lemma_frame_number_bound, Entry, EntryFlags, FRAME_NUMBER_LIMIT,
};
use crate::memory::paging::{index1, index2, index3, index4, Page, VirtualAddress};
use crate::memory::{Frame, PhysicalAddress, MAX_FRAME_NUMBER, PAGE_SIZE};

verus! {

/// The machine state: memory, root register, translation cache.
pub struct Machine {
    mem: HashMap<u64, u64>,
    cr3: u64,
    tlb: HashMap<u64, u64>,
}

/// What a [`Machine`] holds. `mem` maps the physical address of each word
/// that was written to its value; `cr3` is the frame number of the root
/// table; `tlb` maps page numbers to the frame numbers cached for them.
pub struct MachineView {
    pub mem: Map<u64, u64>,
    pub cr3: u64,
    pub tlb: Map<u64, u64>,
}

impl View for Machine {
    type V = MachineView;

    closed spec fn view(&self) -> MachineView {
        MachineView { mem: self.mem@, cr3: self.cr3, tlb: self.tlb@ }
    }
}

/// Physical address of word `index` of frame `frame`.
pub open spec fn word_address(frame: u64, index: int) -> u64 {
    (frame * 4096 + index * 8) as u64
}

/// The entry in slot `index` of the table in `frame`. A slot that was never
/// written reads as unused, and so does any slot of a frame whose address
/// no entry can hold.
pub open spec fn entry_at(mem: Map<u64, u64>, frame: u64, index: int) -> Entry {
    if frame < FRAME_NUMBER_LIMIT && mem.contains_key(word_address(frame, index)) {
        Entry(mem[word_address(frame, index)])
    } else {
        Entry(0)
    }
}

/// Every slot of the table in `frame` has been written.
pub open spec fn backed(mem: Map<u64, u64>, frame: u64) -> bool {
    &&& frame < FRAME_NUMBER_LIMIT
    &&& forall|i: int| 0 <= i < 512 ==> mem.contains_key(#[trigger] word_address(frame, i))
}

/// The four entries that the translation of a page reads, from the root
/// down. Each one is read from the frame that the one before names,
/// whatever its flags say.
pub struct Walk {
    pub e4: Entry,
    pub e3: Entry,
    pub e2: Entry,
    pub e1: Entry,
}

pub open spec fn walk(mem: Map<u64, u64>, root: u64, page: u64) -> Walk {
    let e4 = entry_at(mem, root, index4(page) as int);
    let e3 = entry_at(mem, e4.frame_number(), index3(page) as int);
    let e2 = entry_at(mem, e3.frame_number(), index2(page) as int);
    let e1 = entry_at(mem, e2.frame_number(), index1(page) as int);
    Walk { e4, e3, e2, e1 }
}

/// The translation of `page` reads slot `index` of the table in `frame`.
pub open spec fn walk_reads(mem: Map<u64, u64>, root: u64, page: u64, frame: u64, index: int) -> bool {
    let w = walk(mem, root, page);
    ||| (frame == root && index == index4(page))
    ||| (frame == w.e4.frame_number() && index == index3(page))
    ||| (frame == w.e3.frame_number() && index == index2(page))
    ||| (frame == w.e2.frame_number() && index == index1(page))
}

/// The frame that the hardware translates `page` to from the root table in
/// frame `root`, or `None` where the access would fault.
pub open spec fn hardware_translate(mem: Map<u64, u64>, root: u64, page: u64) -> Option<u64> {
    let w = walk(mem, root, page);
    if !w.e4.links() {
        None
    } else if !w.e3.present() {
        None
    } else if w.e3.huge() {
        Some(((w.e3.frame_number() / 0x4_0000) * 0x4_0000 + index2(page) * 512 + index1(page)) as u64)
    } else if !w.e2.present() {
        None
    } else if w.e2.huge() {
        Some(((w.e2.frame_number() / 512) * 512 + index1(page)) as u64)
    } else if !w.e1.present() {
        None
    } else {
        Some(w.e1.frame_number())
    }
}

/// The frame of the table that `page` names when every entry on the way,
/// the last one too, links to a table.
pub open spec fn table_walk(mem: Map<u64, u64>, root: u64, page: u64) -> Option<u64> {
    let w = walk(mem, root, page);
    if w.e4.links() && w.e3.links() && w.e2.links() && w.e1.links() {
        Some(w.e1.frame_number())
    } else {
        None
    }
}

impl MachineView {
    /// The word that a load from the virtual address sees, or `None` where
    /// the address is not word aligned, does not translate, or names a word
    /// that was never written.
    pub open spec fn read(self, address: u64) -> Option<u64> {
        if address % 8 != 0 {
            None
        } else {
            match hardware_translate(self.mem, self.cr3, address / 4096) {
                Some(frame) => {
                    let physical = (frame * 4096 + address % 4096) as u64;
                    if self.mem.contains_key(physical) {
                        Some(self.mem[physical])
                    } else {
                        None
                    }
                },
                None => None,
            }
        }
    }

    /// The physical address that a store to the virtual address reaches, or
    /// `None` where the address is not word aligned or does not translate.
    pub open spec fn store_target(self, address: u64) -> Option<u64> {
        if address % 8 != 0 {
            None
        } else {
            match hardware_translate(self.mem, self.cr3, address / 4096) {
                Some(frame) => Some((frame * 4096 + address % 4096) as u64),
                None => None,
            }
        }
    }

    /// The frame that the processor uses for `page`: the cached one if the
    /// cache holds the page, else the one that the tables give. A frame
    /// beyond the physical address space counts as a fault.
    pub open spec fn lookup(self, page: u64) -> Option<u64> {
        let frame = if self.tlb.contains_key(page) {
            Some(self.tlb[page])
        } else {
            hardware_translate(self.mem, self.cr3, page)
        };
        match frame {
            Some(n) => if n <= MAX_FRAME_NUMBER {
                Some(n)
            } else {
                None
            },
            None => None,
        }
    }
}

impl Machine {
    /// A machine with empty memory and an empty cache whose root register
    /// names `root`.
    pub fn new(root: Frame) -> (machine: Machine)
        ensures
            machine@.mem == Map::<u64, u64>::empty(),
            machine@.cr3 == root.number,
            machine@.tlb == Map::<u64, u64>::empty(),
    {
        Machine { mem: HashMap::new(), cr3: root.number, tlb: HashMap::new() }
    }

    /// The frame of the root table.
    pub fn cr3(&self) -> (root: Frame)
        ensures
            root.number == self@.cr3,
    {
        Frame { number: self.cr3 }
    }

    /// Makes `root` the root table. As on the processor, this empties the
    /// translation cache.
    pub fn set_cr3(&mut self, root: Frame)
        ensures
            final(self)@ == (MachineView {
                cr3: root.number,
                tlb: Map::<u64, u64>::empty(),
                ..old(self)@
            }),
    {
        broadcast use vstd::std_specs::hash::group_hash_axioms;

        self.cr3 = root.number;
        self.tlb.clear();
    }

    /// The word at a physical address, if it was ever written.
    pub fn read_physical(&self, address: PhysicalAddress) -> (value: Option<u64>)
        ensures
            value == if self@.mem.contains_key(address) {
                Some(self@.mem[address])
            } else {
                None
            },
    {
        broadcast use vstd::std_specs::hash::group_hash_axioms;

        match self.mem.get(&address) {
            Some(v) => Some(*v),
            None => None,
        }
    }

    /// Writes the word at a physical address.
    pub fn write_physical(&mut self, address: PhysicalAddress, value: u64)
        ensures
            final(self)@ == (MachineView {
                mem: old(self)@.mem.insert(address, value),
                ..old(self)@
            }),
    {
        broadcast use vstd::std_specs::hash::group_hash_axioms;

        self.mem.insert(address, value);
    }

    /// The entry in slot `index` of the table in `frame`.
    pub fn entry(&self, frame: Frame, index: usize) -> (entry: Entry)
        requires
            index < 512,
        ensures
            entry == entry_at(self@.mem, frame.number, index as int),
    {
        if frame.number >= FRAME_NUMBER_LIMIT {
            return Entry(0);
        }
        match self.read_physical(frame.number * PAGE_SIZE + (index as u64) * 8) {
            Some(value) => Entry(value),
            None => Entry(0),
        }
    }

    /// The frame that the tables translate `page` to, as the hardware walks
    /// them; `None` where the access would fault. The cache takes no part.
    pub fn translate_page(&self, page: Page) -> (frame: Option<Frame>)
        ensures
            frame == match hardware_translate(self@.mem, self@.cr3, page.number) {
                Some(n) => Some(Frame { number: n }),
                None => None::<Frame>,
            },
            frame matches Some(f) ==> f.number < 2 * FRAME_NUMBER_LIMIT,
    {
        let e4 = self.entry(Frame { number: self.cr3 }, page.p4_index());
        proof {
            let w = walk(self@.mem, self@.cr3, page.number);
            lemma_frame_number_bound(w.e4.0);
            lemma_frame_number_bound(w.e3.0);
            lemma_frame_number_bound(w.e2.0);
            lemma_frame_number_bound(w.e1.0);
        }
        let t3 = match e4.pointed_frame() {
            Some(frame) => frame,
            None => {
                return None;
            },
        };
        if e4.flags().contains(EntryFlags::huge_page()) {
            return None;
        }
        let e3 = self.entry(t3, page.p3_index());
        let t2 = match e3.pointed_frame() {
            Some(frame) => frame,
            None => {
                return None;
            },
        };
        if e3.flags().contains(EntryFlags::huge_page()) {
            let base = (t2.number / 0x4_0000) * 0x4_0000;
            return Some(
                Frame { number: base + (page.p2_index() as u64) * 512 + (page.p1_index() as u64) },
            );
        }
        let e2 = self.entry(t2, page.p2_index());
        let t1 = match e2.pointed_frame() {
            Some(frame) => frame,
            None => {
                return None;
            },
        };
        if e2.flags().contains(EntryFlags::huge_page()) {
            let base = (t1.number / 512) * 512;
            return Some(Frame { number: base + (page.p1_index() as u64) });
        }
        let e1 = self.entry(t1, page.p1_index());
        e1.pointed_frame()
    }

    /// Loads the word at a virtual address, as the processor would with a
    /// translation fresh from the tables.
    pub fn read(&self, address: VirtualAddress) -> (value: Option<u64>)
        ensures
            value == self@.read(address),
    {
        if address % 8 != 0 {
            return None;
        }
        match self.translate_page(Page::containing_address(address)) {
            Some(frame) => self.read_physical(frame.number * PAGE_SIZE + address % PAGE_SIZE),
            None => None,
        }
    }

    /// Stores a word at a virtual address. Returns whether the address
    /// translated; memory changes only if it did.
    pub fn write(&mut self, address: VirtualAddress, value: u64) -> (stored: bool)
        ensures
            stored == old(self)@.store_target(address).is_some(),
            final(self)@ == match old(self)@.store_target(address) {
                Some(physical) => MachineView {
                    mem: old(self)@.mem.insert(physical, value),
                    ..old(self)@
                },
                None => old(self)@,
            },
    {
        if address % 8 != 0 {
            return false;
        }
        match self.translate_page(Page::containing_address(address)) {
            Some(frame) => {
                self.write_physical(frame.number * PAGE_SIZE + address % PAGE_SIZE, value);
                true
            },
            None => false,
        }
    }

    /// Translates a virtual address as the processor does on a memory
    /// access: from the cache if the page is cached, else from the tables,
    /// and then the translation is cached.
    pub fn access(&mut self, address: VirtualAddress) -> (physical: Option<PhysicalAddress>)
        ensures
            physical == match old(self)@.lookup(address / 4096) {
                Some(frame) => Some((frame * 4096 + address % 4096) as u64),
                None => None::<u64>,
            },
            final(self)@ == match old(self)@.lookup(address / 4096) {
                Some(frame) => MachineView {
                    tlb: old(self)@.tlb.insert(address / 4096, frame),
                    ..old(self)@
                },
                None => old(self)@,
            },
    {
        broadcast use vstd::std_specs::hash::group_hash_axioms;

        let page = Page::containing_address(address);
        let cached = match self.tlb.get(&page.number) {
            Some(frame) => Some(*frame),
            None => None,
        };
        let frame = match cached {
            Some(frame) => Some(frame),
            None => match self.translate_page(page) {
                Some(frame) => Some(frame.number),
                None => None,
            },
        };
        match frame {
            Some(frame) => {
                if frame > MAX_FRAME_NUMBER {
                    return None;
                }
                self.tlb.insert(page.number, frame);
                Some(frame * PAGE_SIZE + address % PAGE_SIZE)
            },
            None => None,
        }
    }

    /// Drops the cached translation of one page.
    pub fn flush(&mut self, page: Page)
        ensures
            final(self)@ == (MachineView {
                tlb: old(self)@.tlb.remove(page.number),
                ..old(self)@
            }),
    {
        broadcast use vstd::std_specs::hash::group_hash_axioms;

        self.tlb.remove(&page.number);
    }

    /// Drops every cached translation.
    pub fn flush_all(&mut self)
        ensures
            final(self)@ == (MachineView { tlb: Map::<u64, u64>::empty(), ..old(self)@ }),
    {
        broadcast use vstd::std_specs::hash::group_hash_axioms;

        self.tlb.clear();
    }
}

} // verus!
