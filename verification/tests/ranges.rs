use word_complete::range::{range_overlaps, range_union, insert_range, CharRange};

fn r(start: usize, end: usize) -> CharRange {
    CharRange { start, end }
}

#[test]
fn overlap_equal_starts() {
    assert!(range_overlaps(&r(3, 3), &r(3, 9)));
    assert!(range_overlaps(&r(0, 5), &r(0, 2)));
}

#[test]
fn overlap_strict_interpenetration() {
    assert!(range_overlaps(&r(0, 5), &r(3, 8)));
    assert!(range_overlaps(&r(3, 8), &r(0, 5)));
}

#[test]
fn touching_ranges_do_not_overlap() {
    assert!(!range_overlaps(&r(0, 5), &r(5, 10)));
    assert!(!range_overlaps(&r(5, 10), &r(0, 5)));
}

#[test]
fn union_is_hull() {
    let u = range_union(&r(2, 5), &r(3, 9));
    assert_eq!(u, r(2, 9));
}

#[test]
fn merge_keeps_touching_ranges_separate() {
    let mut list: Vec<CharRange> = Vec::new();
    list = insert_range(list, r(0, 5));
    list = insert_range(list, r(3, 8));
    list = insert_range(list, r(8, 10));
    assert_eq!(list, vec![r(0, 8), r(8, 10)]);
}

#[test]
fn merge_absorbs_contained_range() {
    let mut list: Vec<CharRange> = Vec::new();
    list = insert_range(list, r(0, 5));
    list = insert_range(list, r(2, 4));
    assert_eq!(list, vec![r(0, 5)]);
}

#[test]
fn merge_is_idempotent_on_concrete_input() {
    let mut list: Vec<CharRange> = Vec::new();
    list = insert_range(list, r(0, 5));
    list = insert_range(list, r(3, 8));
    let once = insert_range(list.clone(), r(3, 8));
    let twice = insert_range(once.clone(), r(3, 8));
    assert_eq!(once, twice);
}

#[test]
fn merge_pair_is_order_independent() {
    let ab = insert_range(insert_range(Vec::new(), r(0, 5)), r(3, 8));
    let ba = insert_range(insert_range(Vec::new(), r(3, 8)), r(0, 5));
    assert_eq!(ab, vec![r(0, 8)]);
    assert_eq!(ba, vec![r(0, 8)]);
}
