use fall::text::{TextRange, TextUnit};
use std::cmp::Ordering;

fn range(start: u32, end: u32) -> TextRange {
    TextRange::from_to(TextUnit(start), TextUnit(end))
}

#[test]
fn text_unit_counts_bytes() {
    assert_eq!(TextUnit::zero(), TextUnit(0));
    assert_eq!(TextUnit::zero().as_u32(), 0);
    assert_eq!(TextUnit::from_usize(17), TextUnit(17));
    assert_eq!(TextUnit::from_usize(17).as_u32(), 17);
    assert_eq!(TextUnit::measure(""), TextUnit(0));
    assert_eq!(TextUnit::measure("abc"), TextUnit(3));
    // bytes, not characters
    assert_eq!(TextUnit::measure("é€"), TextUnit(5));
}

#[test]
fn text_unit_from_usize_keeps_the_low_bits() {
    assert_eq!(TextUnit::from_usize(u32::MAX as usize), TextUnit(u32::MAX));
    if usize::BITS > 32 {
        let wide = (1u64 << 32) + 5;
        assert_eq!(TextUnit::from_usize(wide as usize), TextUnit(5));
        assert_eq!(TextUnit::from_usize((1u64 << 32) as usize), TextUnit(0));
    }
}

#[test]
fn text_unit_arithmetic() {
    assert_eq!(TextUnit(3) + 4u32, TextUnit(7));
    assert_eq!(TextUnit(3) + TextUnit(4), TextUnit(7));
    assert_eq!(TextUnit(7) - 4u32, TextUnit(3));
    assert_eq!(TextUnit(7) - TextUnit(7), TextUnit(0));
    let mut unit = TextUnit(10);
    unit += TextUnit(5);
    assert_eq!(unit, TextUnit(15));
    assert_eq!(TextUnit::sum(&[]), TextUnit(0));
    assert_eq!(TextUnit::sum(&[TextUnit(1), TextUnit(2), TextUnit(39)]), TextUnit(42));
}

#[test]
fn text_unit_order_is_the_order_of_offsets() {
    assert!(TextUnit(1) < TextUnit(2));
    assert!(TextUnit(2) <= TextUnit(2));
    assert!(TextUnit(3) > TextUnit(2));
    assert_eq!(TextUnit(5).max(TextUnit(9)), TextUnit(9));
}

#[test]
fn text_range_constructors_and_accessors() {
    let empty = TextRange::empty_at(TextUnit(7));
    assert_eq!(empty.start(), TextUnit(7));
    assert_eq!(empty.end(), TextUnit(7));
    assert_eq!(empty.len(), TextUnit(0));
    assert!(empty.is_empty());

    let r = range(2, 9);
    assert_eq!(r.start(), TextUnit(2));
    assert_eq!(r.end(), TextUnit(9));
    assert_eq!(r.len(), TextUnit(7));
    assert!(!r.is_empty());
    assert_eq!(r, TextRange { start: TextUnit(2), end: TextUnit(9) });
}

#[test]
fn text_range_is_half_open() {
    let r = range(2, 9);
    assert!(!r.contains(TextUnit(1)));
    assert!(r.contains(TextUnit(2)));
    assert!(r.contains(TextUnit(5)));
    assert!(r.contains(TextUnit(8)));
    assert!(!r.contains(TextUnit(9)));
    assert!(!r.contains(TextUnit(10)));
    assert!(!TextRange::empty_at(TextUnit(4)).contains(TextUnit(4)));
}

#[test]
fn text_ranges_touch_where_one_ends_and_the_other_starts() {
    assert!(range(2, 5).touches(range(5, 9)));
    assert!(range(5, 9).touches(range(2, 5)));
    assert!(range(5, 5).touches(range(5, 5)));
    assert!(!range(2, 5).touches(range(6, 9)));
    assert!(!range(2, 5).touches(range(4, 9)));
    assert!(!range(2, 5).touches(range(2, 5)));
}

#[test]
fn text_range_subranges() {
    let r = range(2, 9);
    assert!(r.is_subrange_of(r));
    assert!(range(2, 3).is_subrange_of(r));
    assert!(range(9, 9).is_subrange_of(r));
    assert!(!range(1, 3).is_subrange_of(r));
    assert!(!range(8, 10).is_subrange_of(r));
    assert!(!r.is_subrange_of(range(3, 9)));
}

#[test]
fn text_range_moves_by_an_offset() {
    assert_eq!(range(2, 9) + TextUnit(10), range(12, 19));
    assert_eq!(TextRange::empty_at(TextUnit(0)) + TextUnit(4), range(4, 4));
}

#[test]
fn text_range_orders_by_start_then_end() {
    assert_eq!(range(1, 5).partial_cmp(&range(2, 3)), Some(Ordering::Less));
    assert_eq!(range(2, 3).partial_cmp(&range(1, 5)), Some(Ordering::Greater));
    assert_eq!(range(2, 3).partial_cmp(&range(2, 4)), Some(Ordering::Less));
    assert_eq!(range(2, 4).partial_cmp(&range(2, 3)), Some(Ordering::Greater));
    assert_eq!(range(2, 4).partial_cmp(&range(2, 4)), Some(Ordering::Equal));
    assert!(range(1, 5) < range(2, 3));
    assert!(range(2, 3) < range(2, 4));
    assert!(range(2, 4) >= range(2, 4));
}
