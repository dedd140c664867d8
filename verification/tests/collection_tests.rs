use arith_front::collections::{History, HISTORY_CAPACITY};
use arith_front::lexer::iterators::ByteTracker;
use arith_front::lexer::range::MyRange;

#[test]
fn history_push_and_prev() {
    let mut h = History::new();
    assert!(h.is_empty());
    assert_eq!(0, h.len());
    for v in 1..=20usize {
        h.push(v);
    }
    assert_eq!(HISTORY_CAPACITY, h.len());
    assert!(!h.is_empty());
    // prev(k) is the value pushed k pushes ago
    assert_eq!(20, h.prev(1));
    assert_eq!(19, h.prev(2));
    assert_eq!(5, h.prev(16));
}

#[test]
fn history_clear_and_clone() {
    let mut h = History::new();
    h.push(7);
    h.push(8);
    let copy = h.clone();
    assert_eq!(2, copy.len());
    assert_eq!(8, copy.prev(1));
    h.clear();
    assert!(h.is_empty());
    assert_eq!(2, copy.len());
    let fresh = History::default();
    assert!(fresh.is_empty());
}

#[test]
fn range_grows_and_clears() {
    let mut r = MyRange::new();
    assert!(r.is_empty());
    assert_eq!(0, r.len());

    let mut r = MyRange::start_at_and_include(3, '7');
    assert_eq!(1, r.len());
    r.expand(4, '8');
    assert_eq!(2, r.len());
    assert!(!r.is_empty());
    r.clear_right();
    assert!(r.is_empty());

    let mut r = MyRange::start_at(5);
    r.expand(5, '1');
    assert_eq!(1, r.len());
    r.clear_left();
    assert!(r.is_empty());

    let r = MyRange::default();
    assert_eq!(0, r.len());
}

#[test]
fn range_as_text_slices_by_bytes() {
    let text = "123+324";
    let mut r = MyRange::start_at_and_include(0, '1');
    r.expand(1, '2');
    r.expand(2, '3');
    assert_eq!("123", r.as_text(text));

    let mut r = MyRange::start_at_and_include(4, '3');
    r.expand(5, '2');
    r.expand(6, '4');
    assert_eq!("324", r.as_text(text));
}

#[test]
fn range_as_text_multibyte_offsets() {
    // 'á' takes two bytes, so the digit starts at byte offset 2.
    let text = "á1";
    let r = MyRange::start_at_and_include(2, '1');
    assert_eq!("1", r.as_text(text));
}

#[test]
fn byte_tracker_positions_and_history() {
    let chars: Vec<char> = "á1".chars().collect();
    let mut t = ByteTracker::new(chars);

    let first = t.next().unwrap();
    assert_eq!('á', first.glyph);
    assert_eq!(0, first.pos);
    assert_eq!(2, first.aux.position_lbound().prev(1));
    assert_eq!(2, first.aux.position_ubound().prev(1));

    let second = t.next().unwrap();
    assert_eq!('1', second.glyph);
    assert_eq!(2, second.pos);
    // the snapshot remembers both characters, newest first
    assert_eq!(3, second.aux.position_lbound().prev(1));
    assert_eq!(2, second.aux.position_lbound().prev(2));
    assert_eq!(1, second.aux.position_ubound().prev(1));
    assert_eq!(2, second.aux.position_ubound().prev(2));

    assert!(t.next().is_none());
    assert!(t.next().is_none());
}
