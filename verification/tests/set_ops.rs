use ord_list_set::cursor::AdvanceUntilIter;
use ord_list_set::ops::OrdSetOpsIter;
use ord_list_set::relations;
use ord_list_set::set::OrdListSet;

fn strs(xs: &[&str]) -> Vec<String> {
    xs.iter().map(|s| s.to_string()).collect()
}

#[test]
fn lib_first_and_tail() {
    let mut set1 = OrdListSet::from_vec(strs(&["a", "b", "c"]));
    while let Some((key, tail)) = set1.first_and_tail() {
        assert_eq!(set1.len(), tail.len() + 1);
        assert!(!tail.contains(key));
        set1 = tail;
    }
}

#[test]
fn lib_union() {
    let set1: OrdListSet<String> = OrdListSet::from_vec(strs(&["a", "b", "c"]));
    let set2: OrdListSet<String> = OrdListSet::from_vec(strs(&["d", "e", "b", "c"]));
    assert_eq!(strs(&["a", "b", "c", "d", "e"]), set1.union(&set2).into_vec());
}

#[test]
fn lib_set_relations() {
    let set1 = OrdListSet::from_vec(strs(&["a", "b", "c", "d"]));
    let set2 = OrdListSet::from_vec(strs(&["b", "c", "d"]));
    assert!(set1.is_superset(&set2));
    assert!(!set1.is_subset(&set2));

    let v1 = strs(&["a", "b", "c", "d"]);
    let v2 = strs(&["b", "c", "d"]);
    let iter1 = AdvanceUntilIter::new(&v1);
    let iter2 = AdvanceUntilIter::new(&v2);
    assert!(relations::is_superset(iter1, iter2));
    let iter1 = AdvanceUntilIter::new(&v1);
    let iter2 = AdvanceUntilIter::new(&v2);
    assert!(!relations::is_subset(iter1, iter2));
}

#[test]
fn lib_set_difference() {
    let set1 = OrdListSet::from_vec(strs(&["a", "b", "c", "d"]));
    let set2 = OrdListSet::from_vec(strs(&["b", "c", "d", "e"]));
    assert_eq!(strs(&["a"]), set1.difference(&set2).into_vec());
    assert_eq!(strs(&["e"]), set2.difference(&set1).into_vec());

    let v1 = strs(&["a", "b", "c", "d"]);
    let v2 = strs(&["b", "c", "d", "e"]);
    assert_eq!(
        strs(&["a"]),
        OrdSetOpsIter::difference(AdvanceUntilIter::new(&v1), AdvanceUntilIter::new(&v2))
            .into_vec()
    );
    assert_eq!(
        strs(&["a"]),
        OrdSetOpsIter::difference(AdvanceUntilIter::new(&v1), AdvanceUntilIter::new(&v2))
            .into_vec()
    );
    let w1: Vec<i32> = vec![0, 1, 2, 3];
    let w2: Vec<i32> = vec![1, 2, 3, 4, 5];
    assert_eq!(
        vec![0],
        OrdSetOpsIter::difference(AdvanceUntilIter::new(&w1), AdvanceUntilIter::new(&w2))
            .into_vec()
    );
}

#[test]
fn lib_set_intersection() {
    let set1 = OrdListSet::from_vec(strs(&["a", "b", "c", "d"]));
    let set2 = OrdListSet::from_vec(strs(&["b", "c", "d", "e"]));
    assert_eq!(strs(&["b", "c", "d"]), set1.intersection(&set2).into_vec());
    assert_eq!(strs(&["b", "c", "d"]), set2.intersection(&set1).into_vec());

    let v1 = strs(&["a", "b", "c", "d"]);
    let v2 = strs(&["b", "c", "d", "e"]);
    assert_eq!(
        strs(&["b", "c", "d"]),
        OrdSetOpsIter::intersection(AdvanceUntilIter::new(&v1), AdvanceUntilIter::new(&v2))
            .into_vec()
    );
    assert_eq!(
        strs(&["b", "c", "d"]),
        OrdSetOpsIter::intersection(AdvanceUntilIter::new(&v1), AdvanceUntilIter::new(&v2))
            .into_vec()
    );
    let w1: Vec<i32> = vec![0, 1, 2, 3];
    let w2: Vec<i32> = vec![1, 2, 3, 4, 5];
    assert_eq!(
        vec![1, 2, 3],
        OrdSetOpsIter::intersection(AdvanceUntilIter::new(&w1), AdvanceUntilIter::new(&w2))
            .into_vec()
    );
}

#[test]
fn lib_set_symmetric_difference() {
    let set1 = OrdListSet::from_vec(strs(&["a", "b", "c", "d"]));
    let set2 = OrdListSet::from_vec(strs(&["b", "c", "d", "e"]));
    assert_eq!(strs(&["a", "e"]), set1.symmetric_difference(&set2).into_vec());
    assert_eq!(strs(&["a", "e"]), set2.symmetric_difference(&set1).into_vec());

    let v1 = strs(&["a", "b", "c", "d"]);
    let v2 = strs(&["b", "c", "d", "e"]);
    assert_eq!(
        strs(&["a", "e"]),
        OrdSetOpsIter::symmetric_difference(
            AdvanceUntilIter::new(&v1),
            AdvanceUntilIter::new(&v2)
        )
        .into_vec()
    );
    assert_eq!(
        strs(&["a", "e"]),
        OrdSetOpsIter::symmetric_difference(
            AdvanceUntilIter::new(&v1),
            AdvanceUntilIter::new(&v2)
        )
        .into_vec()
    );
    let w1: Vec<i32> = vec![0, 1, 2, 3];
    let w2: Vec<i32> = vec![1, 2, 3, 4, 5];
    assert_eq!(
        vec![0, 4, 5],
        OrdSetOpsIter::symmetric_difference(
            AdvanceUntilIter::new(&w1),
            AdvanceUntilIter::new(&w2)
        )
        .into_vec()
    );
}

#[test]
fn lib_set_union() {
    let set1 = OrdListSet::from_vec(strs(&["a", "b", "c", "d"]));
    let set2 = OrdListSet::from_vec(strs(&["b", "c", "d", "e"]));
    assert_eq!(strs(&["a", "b", "c", "d", "e"]), set1.union(&set2).into_vec());
    assert_eq!(strs(&["a", "b", "c", "d", "e"]), set2.union(&set1).into_vec());

    let v1 = strs(&["a", "b", "c", "d"]);
    let v2 = strs(&["b", "c", "d", "e"]);
    assert_eq!(
        strs(&["a", "b", "c", "d", "e"]),
        OrdSetOpsIter::union(AdvanceUntilIter::new(&v1), AdvanceUntilIter::new(&v2)).into_vec()
    );
    assert_eq!(
        strs(&["a", "b", "c", "d", "e"]),
        OrdSetOpsIter::union(AdvanceUntilIter::new(&v1), AdvanceUntilIter::new(&v2)).into_vec()
    );
    let w1: Vec<i32> = vec![0, 1, 2, 3];
    let w2: Vec<i32> = vec![1, 2, 3, 4, 5];
    assert_eq!(
        vec![0, 1, 2, 3, 4, 5],
        OrdSetOpsIter::union(AdvanceUntilIter::new(&w1), AdvanceUntilIter::new(&w2)).into_vec()
    );
}
