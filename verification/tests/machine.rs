use kernel_memory::memory::machine::Machine;
use kernel_memory::memory::paging::Page;
use kernel_memory::memory::Frame;

const P: u64 = 0x1;
const W: u64 = 0x2;
const HUGE: u64 = 0x80;

fn put(machine: &mut Machine, frame: u64, index: u64, value: u64) {
    machine.write_physical(frame * 4096 + index * 8, value);
}

/// Root table in frame 1; tables in frames 2, 3 and 4 under the first
/// entry of each level.
fn four_levels() -> Machine {
    let mut machine = Machine::new(Frame { number: 1 });
    put(&mut machine, 1, 0, (2 << 12) | P | W);
    put(&mut machine, 2, 0, (3 << 12) | P | W);
    put(&mut machine, 3, 0, (4 << 12) | P | W);
    put(&mut machine, 4, 5, (0x77 << 12) | P);
    machine
}

fn page(p4: u64, p3: u64, p2: u64, p1: u64) -> Page {
    Page { number: (p4 << 27) | (p3 << 18) | (p2 << 9) | p1 }
}

#[test]
fn new_machine_is_empty() {
    let machine = Machine::new(Frame { number: 9 });
    assert_eq!(machine.cr3(), Frame { number: 9 });
    assert_eq!(machine.read_physical(0), None);
    assert_eq!(machine.read_physical(9 * 4096), None);
    assert_eq!(machine.translate_page(Page { number: 0 }), None);
}

#[test]
fn physical_words_are_kept() {
    let mut machine = Machine::new(Frame { number: 0 });
    machine.write_physical(0x1000, 7);
    machine.write_physical(0x1008, 8);
    machine.write_physical(0x1000, 9);
    assert_eq!(machine.read_physical(0x1000), Some(9));
    assert_eq!(machine.read_physical(0x1008), Some(8));
    assert_eq!(machine.read_physical(0x1010), None);
}

#[test]
fn entry_reads_unwritten_slots_as_unused() {
    let machine = four_levels();
    assert_eq!(machine.entry(Frame { number: 1 }, 0).0, (2 << 12) | P | W);
    assert_eq!(machine.entry(Frame { number: 1 }, 1).0, 0);
    assert_eq!(machine.entry(Frame { number: 1 << 40 }, 0).0, 0);
}

#[test]
fn translation_walks_four_levels() {
    let machine = four_levels();
    assert_eq!(machine.translate_page(page(0, 0, 0, 5)), Some(Frame { number: 0x77 }));
    assert_eq!(machine.translate_page(page(0, 0, 0, 4)), None);
    assert_eq!(machine.translate_page(page(0, 0, 1, 5)), None);
    assert_eq!(machine.translate_page(page(0, 1, 0, 5)), None);
    assert_eq!(machine.translate_page(page(1, 0, 0, 5)), None);
}

#[test]
fn translation_stops_at_an_entry_that_is_not_present() {
    let mut machine = four_levels();
    put(&mut machine, 3, 0, 4 << 12);
    assert_eq!(machine.translate_page(page(0, 0, 0, 5)), None);
}

#[test]
fn huge_flag_in_the_root_table_faults() {
    let mut machine = four_levels();
    put(&mut machine, 1, 0, (2 << 12) | P | HUGE);
    assert_eq!(machine.translate_page(page(0, 0, 0, 5)), None);
}

#[test]
fn two_mebibyte_pages_add_the_lowest_index() {
    let mut machine = four_levels();
    put(&mut machine, 3, 1, (0x400 << 12) | P | HUGE);
    assert_eq!(machine.translate_page(page(0, 0, 1, 7)), Some(Frame { number: 0x407 }));
    assert_eq!(machine.translate_page(page(0, 0, 1, 511)), Some(Frame { number: 0x5ff }));
    // The low bits of the frame number take no part.
    put(&mut machine, 3, 2, (0x403 << 12) | P | HUGE);
    assert_eq!(machine.translate_page(page(0, 0, 2, 7)), Some(Frame { number: 0x407 }));
}

#[test]
fn one_gibibyte_pages_add_the_two_lowest_indices() {
    let mut machine = four_levels();
    put(&mut machine, 2, 1, (0x40000 << 12) | P | HUGE);
    assert_eq!(
        machine.translate_page(page(0, 1, 3, 4)),
        Some(Frame { number: 0x40000 + 3 * 512 + 4 })
    );
    put(&mut machine, 2, 2, (0x40123 << 12) | P | HUGE);
    assert_eq!(machine.translate_page(page(0, 2, 0, 0)), Some(Frame { number: 0x40000 }));
}

#[test]
fn loads_go_through_the_tables() {
    let mut machine = four_levels();
    machine.write_physical(0x77 * 4096 + 0x10, 0xdead);
    assert_eq!(machine.read(5 * 4096 + 0x10), Some(0xdead));
    // Not word aligned.
    assert_eq!(machine.read(5 * 4096 + 0x11), None);
    // Translates, but the word was never written.
    assert_eq!(machine.read(5 * 4096 + 0x18), None);
    // Does not translate.
    assert_eq!(machine.read(6 * 4096), None);
}

#[test]
fn stores_go_through_the_tables() {
    let mut machine = four_levels();
    assert!(machine.write(5 * 4096 + 0x20, 42));
    assert_eq!(machine.read_physical(0x77 * 4096 + 0x20), Some(42));
    assert_eq!(machine.read(5 * 4096 + 0x20), Some(42));
    assert!(!machine.write(6 * 4096, 1));
    assert!(!machine.write(5 * 4096 + 1, 1));
    assert_eq!(machine.read_physical(6 * 4096), None);
}

#[test]
fn access_fills_the_translation_cache() {
    let mut machine = four_levels();
    assert_eq!(machine.access(5 * 4096 + 0x123), Some(0x77 * 4096 + 0x123));
    // The tables change, the cache does not.
    put(&mut machine, 4, 5, 0);
    assert_eq!(machine.translate_page(page(0, 0, 0, 5)), None);
    assert_eq!(machine.access(5 * 4096 + 0x456), Some(0x77 * 4096 + 0x456));
    machine.flush(Page { number: 5 });
    assert_eq!(machine.access(5 * 4096 + 0x456), None);
}

#[test]
fn faulting_accesses_are_not_cached() {
    let mut machine = four_levels();
    assert_eq!(machine.access(6 * 4096), None);
    put(&mut machine, 4, 6, (0x88 << 12) | P);
    assert_eq!(machine.access(6 * 4096), Some(0x88 * 4096));
}

#[test]
fn flush_drops_one_page_and_flush_all_drops_all() {
    let mut machine = four_levels();
    put(&mut machine, 4, 6, (0x88 << 12) | P);
    assert_eq!(machine.access(5 * 4096), Some(0x77 * 4096));
    assert_eq!(machine.access(6 * 4096), Some(0x88 * 4096));
    put(&mut machine, 4, 5, 0);
    put(&mut machine, 4, 6, 0);
    machine.flush(Page { number: 5 });
    assert_eq!(machine.access(5 * 4096), None);
    assert_eq!(machine.access(6 * 4096), Some(0x88 * 4096));
    machine.flush_all();
    assert_eq!(machine.access(6 * 4096), None);
}

#[test]
fn loading_the_root_register_empties_the_cache() {
    let mut machine = four_levels();
    assert_eq!(machine.access(5 * 4096), Some(0x77 * 4096));
    put(&mut machine, 9, 0, (2 << 12) | P | W);
    put(&mut machine, 4, 5, (0x99 << 12) | P);
    machine.set_cr3(Frame { number: 9 });
    assert_eq!(machine.cr3(), Frame { number: 9 });
    assert_eq!(machine.access(5 * 4096), Some(0x99 * 4096));
}
