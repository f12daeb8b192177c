use ord_list_set::cursor::SkipAheadIterator;
use ord_list_set::set::{is_sorted_and_no_dups, ItemRangeBounds, OrdListSet, UsizeRangeBounds};

fn strs(xs: &[&str]) -> Vec<String> {
    xs.iter().map(|s| s.to_string()).collect()
}

fn demo_set() -> OrdListSet<String> {
    OrdListSet::from_vec(strs(&["a", "d", "f", "h", "j", "k", "l"]))
}

#[test]
fn items_by_position() {
    let set = demo_set();
    assert!(set.items(&UsizeRangeBounds::RangeFrom(set.len())).is_empty());
    assert_eq!(set.items(&UsizeRangeBounds::RangeToInclusive(2)), strs(&["a", "d", "f"]));
    assert_eq!(set.items(&UsizeRangeBounds::RangeTo(2)), strs(&["a", "d"]));
    assert_eq!(set.items(&UsizeRangeBounds::Range(1, 5)), strs(&["d", "f", "h", "j"]));
    assert_eq!(set.items(&UsizeRangeBounds::RangeInclusive(1, 5)), strs(&["d", "f", "h", "j", "k"]));
    assert_eq!(
        set.items(&UsizeRangeBounds::RangeFull),
        strs(&["a", "d", "f", "h", "j", "k", "l"])
    );
    assert_eq!(set.items(&UsizeRangeBounds::RangeFrom(2)), strs(&["f", "h", "j", "k", "l"]));
}

#[test]
fn items_by_value() {
    let set = demo_set();
    let s = |x: &str| x.to_string();
    assert!(set.item_items(&ItemRangeBounds::RangeFrom(s("m"))).is_empty());
    assert_eq!(set.item_items(&ItemRangeBounds::RangeToInclusive(s("f"))), strs(&["a", "d", "f"]));
    assert_eq!(set.item_items(&ItemRangeBounds::RangeToInclusive(s("g"))), strs(&["a", "d", "f"]));
    assert_eq!(set.item_items(&ItemRangeBounds::RangeTo(s("f"))), strs(&["a", "d"]));
    assert_eq!(set.item_items(&ItemRangeBounds::RangeTo(s("g"))), strs(&["a", "d", "f"]));
    assert_eq!(
        set.item_items(&ItemRangeBounds::Range(s("d"), s("k"))),
        strs(&["d", "f", "h", "j"])
    );
    assert_eq!(
        set.item_items(&ItemRangeBounds::Range(s("c"), s("k"))),
        strs(&["d", "f", "h", "j"])
    );
    assert_eq!(
        set.item_items(&ItemRangeBounds::RangeInclusive(s("d"), s("k"))),
        strs(&["d", "f", "h", "j", "k"])
    );
    assert_eq!(
        set.item_items(&ItemRangeBounds::RangeFull),
        strs(&["a", "d", "f", "h", "j", "k", "l"])
    );
    assert_eq!(
        set.item_items(&ItemRangeBounds::RangeFrom(s("f"))),
        strs(&["f", "h", "j", "k", "l"])
    );
    assert_eq!(
        set.item_items(&ItemRangeBounds::RangeFrom(s("e"))),
        strs(&["f", "h", "j", "k", "l"])
    );
}

#[test]
fn subsets_by_position_and_value() {
    let set = demo_set();
    let s = |x: &str| x.to_string();
    assert!(set.get_subset(&UsizeRangeBounds::RangeFrom(set.len())).is_empty());
    assert_eq!(
        set.get_subset(&UsizeRangeBounds::RangeInclusive(1, 5)),
        OrdListSet::from_vec(strs(&["d", "f", "h", "j", "k"]))
    );
    assert_eq!(
        set.get_item_subset(&ItemRangeBounds::Range(s("c"), s("k"))),
        OrdListSet::from_vec(strs(&["d", "f", "h", "j"]))
    );
    assert_eq!(
        set.get_item_subset(&ItemRangeBounds::RangeToInclusive(s("g"))),
        OrdListSet::from_vec(strs(&["a", "d", "f"]))
    );
}

#[test]
fn basic_queries() {
    let set = OrdListSet::from_vec(vec![4_u64, 1, 9]);
    assert_eq!(3, set.len());
    assert!(!set.is_empty());
    assert!(set.is_valid());
    assert_eq!(Some(&1), set.first());
    assert_eq!(Some(&9), set.last());
    assert_eq!(Some(&4), set.get(1));
    assert_eq!(None, set.get(3));
    assert!(set.contains(&9));
    assert!(!set.contains(&2));
    let empty: OrdListSet<u64> = OrdListSet::default();
    assert!(empty.is_empty());
    assert_eq!(None, empty.first());
    assert_eq!(None, empty.last());
    assert_eq!(0, OrdListSet::<u64>::empty_set().len());
}

#[test]
fn cursor_iteration() {
    let a = OrdListSet::from_vec(vec![1_u32, 2, 3, 7, 8, 9]);
    let mut iter = a.iter();
    assert_eq!(6, iter.len());
    assert!(!iter.is_empty());
    assert_eq!(Some(&1), iter.next());
    assert_eq!(Some(&2), iter.next());
    assert_eq!(Some(&3), iter.next());
    assert_eq!(3, iter.len());
    assert_eq!(Some(&7), iter.next());
    assert_eq!(Some(&8), iter.next());
    assert_eq!(Some(&9), iter.next());
    assert_eq!(None, iter.next());
    assert!(iter.is_empty());
    assert_eq!(0, iter.len());
    let b = OrdListSet::from_vec(vec![7_u32, 8, 9, 10, 11]);
    assert!(!a.is_disjoint(&b));
}

#[test]
fn sortedness_check() {
    let good: Vec<u64> = vec![1, 2, 5];
    let dup: Vec<u64> = vec![1, 2, 2, 5];
    let unsorted: Vec<u64> = vec![2, 1, 5];
    let empty: Vec<u64> = vec![];
    assert!(is_sorted_and_no_dups(&good));
    assert!(!is_sorted_and_no_dups(&dup));
    assert!(!is_sorted_and_no_dups(&unsorted));
    assert!(is_sorted_and_no_dups(&empty));
}

#[test]
fn cursor_nth() {
    let a = OrdListSet::from_vec(vec![10_u64, 20, 30, 40, 50]);
    let mut iter = a.iter();
    assert_eq!(Some(&30), iter.nth(2));
    assert_eq!(Some(&40), iter.next());
    let mut iter = a.iter();
    assert_eq!(None, iter.nth(5));
    assert!(iter.is_empty());
}
