use pynative::range::{init, iter_search, PyRange, RangeError, RangeIndex, RangeItem, SearchType};
use pynative::registry::SlotId;
use pynative::slice::SliceArgs;
use std::collections::hash_map::DefaultHasher;
use std::hash::{Hash, Hasher};

fn r3(start: i64, stop: i64, step: i64) -> PyRange {
    PyRange::new_from(start, stop, Some(step)).unwrap()
}

fn items(r: &PyRange) -> Vec<i64> {
    let mut it = r.iter();
    let mut out = Vec::new();
    while let Some(v) = it.next() {
        out.push(v);
    }
    out
}

fn hash_of(r: &PyRange) -> u64 {
    let mut h = DefaultHasher::new();
    r.hash_key().hash(&mut h);
    h.finish()
}

fn slice(start: Option<i128>, stop: Option<i128>, step: Option<i128>) -> SliceArgs {
    SliceArgs { start, stop, step }
}

fn sub(r: &PyRange, s: SliceArgs) -> PyRange {
    match r.__getitem__(RangeIndex::Slice(s)) {
        Ok(RangeItem::Range(g)) => g,
        other => panic!("unexpected {:?}", other),
    }
}

#[test]
fn range_step_three_length_membership_and_items() {
    let r = r3(0, 10, 3);
    assert_eq!(r.__len__(), 4);
    assert!(r.__contains__(9));
    assert!(!r.__contains__(10));
    assert_eq!(items(&r), vec![0, 3, 6, 9]);
}

#[test]
fn empty_ranges_compare_and_hash_equal() {
    let a = PyRange::new_from(5, 5, None).unwrap();
    let b = PyRange::new_from(100, 100, None).unwrap();
    let c = r3(-3, -3, 7);
    assert!(a == b && b == c && a == c);
    assert_eq!(hash_of(&a), hash_of(&b));
    assert_eq!(hash_of(&b), hash_of(&c));
}

#[test]
fn length_one_ranges_equal_exactly_when_starts_match() {
    assert!(r3(3, 4, 1) == r3(3, 10, 100));
    assert_eq!(hash_of(&r3(3, 4, 1)), hash_of(&r3(3, 10, 100)));
    assert!(r3(3, 4, 1) != r3(4, 5, 1));
}

#[test]
fn longer_ranges_ignore_stop_but_not_step() {
    assert!(r3(0, 10, 3) == r3(0, 11, 3));
    assert_eq!(hash_of(&r3(0, 10, 3)), hash_of(&r3(0, 11, 3)));
    assert!(r3(0, 10, 3) != r3(0, 10, 2));
    assert!(r3(0, 10, 3) != r3(1, 10, 3));
}

#[test]
fn length_equals_number_of_items_iterated() {
    let cases = [(0, 10, 3), (10, 0, -3), (0, 0, 1), (5, 1, 1), (-7, 8, 5), (3, -20, -4), (0, 1, 100)];
    for (a, b, c) in cases {
        let r = r3(a, b, c);
        assert_eq!(r.__len__() as usize, items(&r).len(), "range({a}, {b}, {c})");
    }
    assert_eq!(items(&r3(10, 0, -3)), vec![10, 7, 4, 1]);
}

#[test]
fn length_of_widest_range() {
    let r = r3(i64::MIN, i64::MAX, 1);
    assert_eq!(r.__len__(), u64::MAX);
    assert_eq!(r.protocol_length(), Err(RangeError::Overflow));
    assert_eq!(r3(0, 10, 3).protocol_length(), Ok(4));
}

#[test]
fn zero_step_is_refused() {
    assert_eq!(PyRange::new_from(0, 10, Some(0)).unwrap_err(), RangeError::ZeroStep);
    assert_eq!(PyRange::slot_new(&vec![1, 2, 0]).unwrap_err(), RangeError::ZeroStep);
    assert_eq!(PyRange::slot_new(&vec![]).unwrap_err(), RangeError::ArgumentCount);
    assert_eq!(PyRange::slot_new(&vec![1, 2, 3, 4]).unwrap_err(), RangeError::ArgumentCount);
    let r = PyRange::slot_new(&vec![7]).unwrap();
    assert_eq!(r.__reduce__(), (0, 7, 1));
}

#[test]
fn full_slice_equals_range() {
    for r in [r3(0, 10, 3), r3(10, -5, -2), r3(4, 4, 1), r3(-100, 100, 7)] {
        let g = sub(&r, slice(None, None, None));
        assert!(g == r);
        assert_eq!(items(&g), items(&r));
    }
}

#[test]
fn slice_of_slice_is_composed_slice() {
    let r = r3(0, 100, 3);
    // positions 2, 4, ..., 18 of r, then positions 1 and 4 of that
    let twice = sub(&sub(&r, slice(Some(2), Some(20), Some(2))), slice(Some(1), Some(5), Some(3)));
    let once = sub(&r, slice(Some(4), Some(12), Some(6)));
    assert!(twice == once);
    assert_eq!(items(&twice), vec![12, 30]);
    assert_eq!(items(&once), vec![12, 30]);
}

#[test]
fn reversed_slice_items() {
    let r = r3(0, 10, 1);
    let g = sub(&r, slice(None, None, Some(-3)));
    assert_eq!(items(&g), vec![9, 6, 3, 0]);
    assert_eq!(
        r.__getitem__(RangeIndex::Slice(slice(None, None, Some(0)))).unwrap_err(),
        RangeError::ZeroStep
    );
}

#[test]
fn integer_subscripts() {
    let r = r3(0, 10, 3);
    assert!(matches!(r.__getitem__(RangeIndex::Int(1)), Ok(RangeItem::Int(3))));
    assert!(matches!(r.__getitem__(RangeIndex::Int(-1)), Ok(RangeItem::Int(9))));
    assert_eq!(r.__getitem__(RangeIndex::Int(4)).unwrap_err(), RangeError::IndexOutOfRange);
    assert_eq!(r.__getitem__(RangeIndex::Int(-5)).unwrap_err(), RangeError::IndexOutOfRange);
    assert_eq!(r.get(2), Some(6));
}

#[test]
fn index_count_and_search() {
    let r = r3(10, -10, -4);
    assert_eq!(items(&r), vec![10, 6, 2, -2, -6]);
    assert_eq!(r.index(-2), Ok(3));
    assert_eq!(r.index(0), Err(RangeError::NotInRange));
    assert_eq!(r.count(6), 1);
    assert_eq!(r.count(7), 0);
    assert_eq!(r.index_of(10), Some(0));
    assert_eq!(iter_search(&r, 2, SearchType::Index), Ok(2));
    assert_eq!(iter_search(&r, 3, SearchType::Index), Err(RangeError::NotInRange));
    assert_eq!(iter_search(&r, -6, SearchType::Contains), Ok(1));
    assert_eq!(iter_search(&r, 5, SearchType::Contains), Ok(0));
    assert_eq!(iter_search(&r, 6, SearchType::Count), Ok(1));
}

#[test]
fn predicates_and_getters() {
    let r = r3(2, 9, 2);
    assert!(r.forward());
    assert!(!r3(9, 2, -1).forward());
    assert!(r.__bool__());
    assert!(r3(3, 3, 1).is_empty());
    assert_eq!((r.start(), r.stop(), r.step()), (2, 9, 2));
}

#[test]
fn iterator_state_and_reduce() {
    let r = r3(0, 10, 3);
    let mut it = r.iter();
    assert_eq!(it.__length_hint__(), 4);
    assert_eq!(it.next(), Some(0));
    assert_eq!(it.__length_hint__(), 3);
    assert_eq!(it.__reduce__(), (0, 12, 3, 1));
    it.__setstate__(3);
    assert_eq!(it.next(), Some(9));
    assert_eq!(it.next(), None);
    it.__setstate__(100);
    assert_eq!(it.__length_hint__(), 0);
    it.__setstate__(-5);
    assert_eq!(it.next(), Some(0));
}

#[test]
fn range_class_registration() {
    let c = init().unwrap();
    assert_eq!(c.attributes.len(), 8);
    assert_eq!(c.getsets.len(), 3);
    assert_eq!(c.slots.len(), 7);
    assert_eq!(c.getsets[0].name, "start");
    assert_eq!(c.getsets[2].getter, "step");
    assert_eq!(c.attributes[0], "__reversed__");
    assert_eq!(c.attributes[7], "count");
    assert_eq!(c.slots[0], (SlotId::New, "slot_new".to_string()));
    assert_eq!(c.slots[6], (SlotId::AsSequence, "as_sequence".to_string()));
}

#[test]
fn reversed_iteration() {
    let r = r3(0, 10, 3);
    let mut it = r.__reversed__();
    let mut out = Vec::new();
    while let Some(v) = it.next() {
        out.push(v);
    }
    assert_eq!(out, vec![9, 6, 3, 0]);
    let mut empty = r3(5, 5, 1).__reversed__();
    assert_eq!(empty.next(), None);
}

#[test]
fn wide_iterator_when_step_overflows() {
    // start plus step leaves 64 bits, so the wide representation is used
    let r = r3(i64::MAX - 1, i64::MAX, 2);
    assert_eq!(items(&r), vec![i64::MAX - 1]);
    let r = r3(i64::MAX, i64::MIN, i64::MIN);
    assert_eq!(items(&r), vec![i64::MAX, -1]);
    let mut it = r.__reversed__();
    assert_eq!(it.next(), Some(-1));
    assert_eq!(it.next(), Some(i64::MAX));
    assert_eq!(it.next(), None);
    assert_eq!(it.__reduce__(), (-1, -1 + 2 * (1i128 << 63), 1i128 << 63, 2));
}

#[test]
fn slices_whose_bounds_reach_the_limits() {
    let r = r3(0, i64::MAX, 2);
    let g = sub(&r, slice(None, None, None));
    assert!(g == r);
    assert_eq!(g.__len__(), r.__len__());
    let wide = PyRange::new(i64::MAX);
    let s1 = sub(&wide, slice(None, None, Some(1 << 62)));
    assert_eq!(items(&s1), vec![0, 1 << 62]);
    let s2 = sub(&s1, slice(None, None, None));
    assert!(s2 == s1);
    // the stop of a slice is one step past its last item
    let t = sub(&r3(0, 100, 1), slice(Some(10), Some(20), Some(3)));
    assert_eq!((t.start(), t.stop(), t.step()), (10, 20, 3));
    assert_eq!(items(&t), vec![10, 13, 16, 19]);
    let e = sub(&r3(0, 10, 1), slice(Some(5), Some(2), None));
    assert_eq!(e.__len__(), 0);
    // two or more items whose step leaves 64 bits cannot be held
    let big = r3(i64::MIN, i64::MAX, i64::MAX);
    assert_eq!(items(&big), vec![i64::MIN, -1, i64::MAX - 1]);
    assert_eq!(big.__getitem__(RangeIndex::Slice(slice(None, None, Some(2)))).unwrap_err(), RangeError::Overflow);
    assert_eq!(items(&sub(&big, slice(None, None, Some(5)))), vec![i64::MIN]);
}
