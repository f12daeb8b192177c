use std::collections::BTreeSet;

use ord_list_set::cursor::SkipAheadIterator;
use ord_list_set::ops::OrdSetOpsIter;
use ord_list_set::set::OrdListSet;

fn strs(xs: &[&str]) -> Vec<String> {
    xs.iter().map(|s| s.to_string()).collect()
}

#[test]
fn construction_sorts_and_dedups() {
    let input = strs(&["z", "y", "x", "b", "c", "a", "d", "e", "f", "b", "y"]);
    let set = OrdListSet::from_vec(input);
    assert_eq!(strs(&["a", "b", "c", "d", "e", "f", "x", "y", "z"]), set.to_vec());
    assert!(set.is_valid());
}

#[test]
fn construction_strictly_increasing() {
    let set = OrdListSet::from_vec(vec![5_u64, 1, 4, 4, 2, 2, 9, 0]);
    let v = set.to_vec();
    assert_eq!(vec![0_u64, 1, 2, 4, 5, 9], v);
    for w in v.windows(2) {
        assert!(w[0] < w[1]);
    }
}

#[test]
fn scenario_strings() {
    let a = OrdListSet::from_vec(strs(&["a", "d", "f", "h"]));
    let b = OrdListSet::from_vec(strs(&["b", "c", "d", "i", "h"]));
    assert_eq!(strs(&["a", "f"]), a.difference(&b).into_vec());
    assert_eq!(strs(&["d", "h"]), a.intersection(&b).into_vec());
    assert_eq!(strs(&["a", "b", "c", "f", "i"]), a.symmetric_difference(&b).into_vec());
    assert_eq!(strs(&["a", "b", "c", "d", "f", "h", "i"]), a.union(&b).into_vec());
}

#[test]
fn scenario_integers() {
    let a = OrdListSet::from_vec(vec![1_u32, 2, 3, 5]);
    let b = OrdListSet::from_vec(vec![2_u32, 3, 4]);
    assert_eq!(a.difference(&b).into_set(), OrdListSet::from_vec(vec![1_u32, 5]));
    assert_eq!(a.intersection(&b).into_set(), OrdListSet::from_vec(vec![2_u32, 3]));
    assert_eq!(a.symmetric_difference(&b).into_set(), OrdListSet::from_vec(vec![1_u32, 4, 5]));
    assert_eq!(a.union(&b).into_set(), OrdListSet::from_vec(vec![1_u32, 2, 3, 4, 5]));
}

#[test]
fn scenario_subset() {
    let a = OrdListSet::from_vec(strs(&["b", "c", "d"]));
    let b = OrdListSet::from_vec(strs(&["a", "b", "c", "d"]));
    assert!(a.is_subset(&b));
    assert!(a.is_proper_subset(&b));
    assert!(!b.is_subset(&a));
    assert!(b.is_superset(&a));
    assert!(b.is_proper_superset(&a));
}

#[test]
fn scenario_disjoint() {
    let a = OrdListSet::from_vec(vec![1_i64, 2, 3]);
    let b = OrdListSet::from_vec(vec![4_i64, 5, 6]);
    assert!(a.is_disjoint(&b));
    assert!(a.intersection(&b).into_vec().is_empty());
}

#[test]
fn scenario_skip_ahead() {
    let a = OrdListSet::from_vec(vec![1_u64, 7, 8, 9, 2, 3]);
    assert_eq!(vec![1_u64, 2, 3, 7, 8, 9], a.to_vec());
    let mut iter = a.iter();
    iter.advance_until(&6);
    assert_eq!(Some(&7), iter.peep());
}

#[test]
fn commutative_operations() {
    let a = OrdListSet::from_vec(vec![1_u64, 3, 5, 7]);
    let b = OrdListSet::from_vec(vec![2_u64, 3, 6, 7, 9]);
    assert_eq!(a.union(&b).into_vec(), b.union(&a).into_vec());
    assert_eq!(a.intersection(&b).into_vec(), b.intersection(&a).into_vec());
    assert_eq!(
        a.symmetric_difference(&b).into_vec(),
        b.symmetric_difference(&a).into_vec()
    );
    assert_ne!(a.difference(&b).into_vec(), b.difference(&a).into_vec());
    let d1 = a.difference(&b).into_set();
    let d2 = b.difference(&a).into_set();
    assert!(d1.intersection(&d2).into_vec().is_empty());
}

#[test]
fn subset_equals_swapped_superset() {
    let pairs: Vec<(Vec<u64>, Vec<u64>)> = vec![
        (vec![], vec![]),
        (vec![1], vec![]),
        (vec![1, 2], vec![1, 2, 3]),
        (vec![1, 2, 3], vec![1, 2, 3]),
        (vec![4, 5], vec![5, 6]),
    ];
    for (x, y) in pairs {
        let a = OrdListSet::from_vec(x);
        let b = OrdListSet::from_vec(y);
        assert_eq!(a.is_subset(&b), b.is_superset(&a));
        assert_eq!(a.is_proper_subset(&b), b.is_proper_superset(&a));
    }
}

#[test]
fn disjoint_equals_empty_intersection() {
    let pairs: Vec<(Vec<u64>, Vec<u64>)> = vec![
        (vec![], vec![]),
        (vec![1, 3], vec![2, 4]),
        (vec![1, 3], vec![3, 4]),
        (vec![7], vec![7]),
    ];
    for (x, y) in pairs {
        let a = OrdListSet::from_vec(x);
        let b = OrdListSet::from_vec(y);
        assert_eq!(a.is_disjoint(&b), a.intersection(&b).into_vec().is_empty());
    }
}

#[test]
fn collect_and_reiterate() {
    let a = OrdListSet::from_vec(strs(&["d", "b", "a", "c"]));
    let b = OrdListSet::from_vec(strs(&["c", "e"]));
    let collected = a.union(&b).into_vec();
    let again = OrdListSet::from_vec(collected.clone());
    assert_eq!(collected, again.to_vec());
    assert_eq!(again.to_vec(), again.iter().into_vec());
}

#[test]
fn reference_model_agreement() {
    let xs: Vec<u64> = vec![1, 4, 6, 8, 11];
    let ys: Vec<u64> = vec![2, 4, 5, 8, 12, 13];
    let a = OrdListSet::from_vec(xs.clone());
    let b = OrdListSet::from_vec(ys.clone());
    let sa: BTreeSet<u64> = xs.into_iter().collect();
    let sb: BTreeSet<u64> = ys.into_iter().collect();
    let union: Vec<u64> = sa.union(&sb).cloned().collect();
    let inter: Vec<u64> = sa.intersection(&sb).cloned().collect();
    let diff: Vec<u64> = sa.difference(&sb).cloned().collect();
    let sym: Vec<u64> = sa.symmetric_difference(&sb).cloned().collect();
    assert_eq!(union, a.union(&b).into_vec());
    assert_eq!(inter, a.intersection(&b).into_vec());
    assert_eq!(diff, a.difference(&b).into_vec());
    assert_eq!(sym, a.symmetric_difference(&b).into_vec());
}

#[test]
fn empty_set_relations() {
    let e1: OrdListSet<u64> = OrdListSet::empty_set();
    let e2: OrdListSet<u64> = OrdListSet::empty_set();
    let s = OrdListSet::from_vec(vec![1_u64]);
    assert!(e1.is_subset(&e2));
    assert!(e1.is_superset(&e2));
    assert!(!e1.is_proper_subset(&e2));
    assert!(e1.is_disjoint(&e2));
    assert!(e1.is_subset(&s));
    assert!(e1.is_proper_subset(&s));
    assert!(!e1.is_superset(&s));
    assert!(s.union(&e1).into_vec() == s.to_vec());
    assert!(s.intersection(&e1).into_vec().is_empty());
    assert!(s.difference(&e1).into_vec() == s.to_vec());
    assert!(e1.difference(&s).into_vec().is_empty());
}

#[test]
fn identical_sets_relations() {
    let a = OrdListSet::from_vec(strs(&["p", "q"]));
    let b = OrdListSet::from_vec(strs(&["q", "p"]));
    assert!(a.is_subset(&b));
    assert!(a.is_superset(&b));
    assert!(!a.is_proper_subset(&b));
    assert!(!a.is_proper_superset(&b));
    assert!(!a.is_disjoint(&b));
    assert_eq!(a.union(&b).into_vec(), a.to_vec());
    assert_eq!(a.intersection(&b).into_vec(), a.to_vec());
    assert!(a.difference(&b).into_vec().is_empty());
    assert!(a.symmetric_difference(&b).into_vec().is_empty());
}

#[test]
fn merge_iterators_compose() {
    let a = OrdListSet::from_vec(vec![1_u64, 2, 3, 4]);
    let b = OrdListSet::from_vec(vec![3_u64, 4, 5]);
    let c = OrdListSet::from_vec(vec![2_u64, 4, 6]);
    let nested = OrdSetOpsIter::intersection(a.union(&b), c.iter());
    assert_eq!(vec![2_u64, 4], nested.into_vec());
    let nested = OrdSetOpsIter::difference(a.union(&b), c.union(&b));
    assert_eq!(vec![1_u64], nested.into_vec());
}

#[test]
fn merge_iterator_peep_matches_next() {
    let a = OrdListSet::from_vec(vec![1_u64, 3, 5, 7, 9]);
    let b = OrdListSet::from_vec(vec![3_u64, 4, 7, 10]);
    let mut sym = a.symmetric_difference(&b);
    let mut collected: Vec<u64> = Vec::new();
    loop {
        let peeped = sym.peep().copied();
        let stepped = sym.next().copied();
        assert_eq!(peeped, stepped);
        match stepped {
            Some(v) => collected.push(v),
            None => break,
        }
    }
    assert_eq!(vec![1_u64, 4, 5, 9, 10], collected);
}

#[test]
fn advance_after_skips_ties() {
    let a = OrdListSet::from_vec(vec![1_u64, 2, 3, 7, 8, 9]);
    let mut iter = a.iter();
    iter.advance_after(&3);
    assert_eq!(Some(&7), iter.peep());
    let mut iter = a.iter();
    iter.advance_after(&6);
    assert_eq!(Some(&7), iter.peep());
}
