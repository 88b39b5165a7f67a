use kernel_memory::memory::paging::{Page, RECURSIVE_FIRST_PAGE, RECURSIVE_START};
use kernel_memory::memory::{Frame, MAX_FRAME_NUMBER, PAGE_SIZE};

#[test]
fn frame_containing_address_truncates() {
    assert_eq!(Frame::containing_address(0).number, 0);
    assert_eq!(Frame::containing_address(4095).number, 0);
    assert_eq!(Frame::containing_address(4096).number, 1);
    assert_eq!(Frame::containing_address(0xb8000).number, 0xb8);
    assert_eq!(Frame::containing_address(u64::MAX).number, MAX_FRAME_NUMBER);
}

#[test]
fn frame_start_address_is_number_times_page_size() {
    assert_eq!(PAGE_SIZE, 4096);
    assert_eq!(Frame { number: 0 }.start_address(), 0);
    assert_eq!(Frame { number: 0xb8 }.start_address(), 0xb8000);
    assert_eq!(Frame { number: MAX_FRAME_NUMBER }.start_address(), 0xffff_ffff_ffff_f000);
}

#[test]
fn frames_are_ordered_by_number() {
    assert!(Frame { number: 3 } < Frame { number: 4 });
    assert!(Frame { number: 4 } == Frame { number: 4 });
    assert!(Frame { number: 5 } > Frame { number: 4 });
}

#[test]
fn frame_range_is_inclusive_and_rising() {
    let mut iter = Frame::range_inclusive(Frame { number: 7 }, Frame { number: 9 });
    assert_eq!(iter.next(), Some(Frame { number: 7 }));
    assert_eq!(iter.next(), Some(Frame { number: 8 }));
    assert_eq!(iter.next(), Some(Frame { number: 9 }));
    assert_eq!(iter.next(), None);
    assert_eq!(iter.next(), None);
}

#[test]
fn frame_range_with_end_before_start_is_empty() {
    let mut iter = Frame::range_inclusive(Frame { number: 9 }, Frame { number: 7 });
    assert_eq!(iter.next(), None);
}

#[test]
fn page_containing_address_truncates() {
    assert_eq!(Page::containing_address(0x1234).number, 1);
    assert_eq!(Page::containing_address(0xcafebabe000).number, 0xcafebabe);
    assert_eq!(Page::containing_address(0xcafebabefff).number, 0xcafebabe);
    assert_eq!(Page { number: 0xcafebabe }.start_address(), 0xcafebabe000);
}

#[test]
fn page_indices_are_the_four_groups_of_nine_bits() {
    // 0o_123_456_712_345 is p4 = 0o123, p3 = 0o456, p2 = 0o712, p1 = 0o345.
    let page = Page { number: 0o123_456_712_345 };
    assert_eq!(page.p4_index(), 0o123);
    assert_eq!(page.p3_index(), 0o456);
    assert_eq!(page.p2_index(), 0o712);
    assert_eq!(page.p1_index(), 0o345);
}

#[test]
fn page_indices_of_the_scratch_page() {
    let page = Page { number: 0xcafebabe };
    assert_eq!(page.p4_index(), 25);
    assert_eq!(page.p3_index(), 191);
    assert_eq!(page.p2_index(), 349);
    assert_eq!(page.p1_index(), 190);
}

#[test]
fn page_indices_ignore_the_bits_above_the_low_36() {
    let low = Page { number: 0o777_000_111_222 };
    let high = Page { number: 0o777_000_111_222 + (1 << 36) };
    assert_eq!(low.p4_index(), high.p4_index());
    assert_eq!(low.p3_index(), high.p3_index());
    assert_eq!(low.p2_index(), high.p2_index());
    assert_eq!(low.p1_index(), high.p1_index());
}

#[test]
fn recursive_range_starts_at_the_last_root_entry() {
    assert_eq!(RECURSIVE_START, 511 << 39);
    assert_eq!(RECURSIVE_FIRST_PAGE, RECURSIVE_START / 4096);
    assert_eq!(Page { number: RECURSIVE_FIRST_PAGE }.p4_index(), 511);
    assert_eq!(Page { number: RECURSIVE_FIRST_PAGE - 1 }.p4_index(), 510);
}

#[test]
fn page_range_is_inclusive_and_rising() {
    let mut iter = Page::range_inclusive(Page { number: 1 }, Page { number: 2 });
    assert_eq!(iter.next(), Some(Page { number: 1 }));
    assert_eq!(iter.next(), Some(Page { number: 2 }));
    assert_eq!(iter.next(), None);
}
