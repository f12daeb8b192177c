use std::collections::{BTreeMap, BTreeSet};

use ord_list_set::cursor::OrdSetOpsIterAdapter;
use ord_list_set::ops::OrdSetOpsIter;
use ord_list_set::relations;

fn strs(xs: &[&str]) -> Vec<String> {
    xs.iter().map(|s| s.to_string()).collect()
}

fn sorted_vec(set: &BTreeSet<String>) -> Vec<String> {
    set.iter().cloned().collect()
}

#[test]
fn adapter_set_relations() {
    let v1 = strs(&["a", "b", "c", "d"]);
    let v2 = strs(&["b", "c", "d"]);
    let iter1 = OrdSetOpsIterAdapter::from_slice(&v1);
    let iter2 = OrdSetOpsIterAdapter::from_slice(&v2);
    assert!(relations::is_superset(iter1, iter2));
    let iter1 = OrdSetOpsIterAdapter::from_slice(&v1);
    let iter2 = OrdSetOpsIterAdapter::from_slice(&v2);
    assert!(!relations::is_subset(iter1, iter2));
}

#[test]
fn adapter_set_difference() {
    let v1 = strs(&["a", "b", "c", "d"]);
    let v2 = strs(&["b", "c", "d", "e"]);
    assert_eq!(
        strs(&["a"]),
        OrdSetOpsIter::difference(
            OrdSetOpsIterAdapter::from_slice(&v1),
            OrdSetOpsIterAdapter::from_slice(&v2)
        )
        .into_vec()
    );
    assert_eq!(
        strs(&["a"]),
        OrdSetOpsIter::difference(
            OrdSetOpsIterAdapter::from_slice(&v1),
            OrdSetOpsIterAdapter::from_slice(&v2)
        )
        .into_vec()
    );
    let w1: Vec<i32> = vec![0, 1, 2, 3];
    let w2: Vec<i32> = vec![1, 2, 3, 4, 5];
    assert_eq!(
        vec![0],
        OrdSetOpsIter::difference(
            OrdSetOpsIterAdapter::from_slice(&w1),
            OrdSetOpsIterAdapter::from_slice(&w2)
        )
        .into_vec()
    );
}

#[test]
fn adapter_set_intersection() {
    let v1 = strs(&["a", "b", "c", "d"]);
    let v2 = strs(&["b", "c", "d", "e"]);
    assert_eq!(
        strs(&["b", "c", "d"]),
        OrdSetOpsIter::intersection(
            OrdSetOpsIterAdapter::from_slice(&v1),
            OrdSetOpsIterAdapter::from_slice(&v2)
        )
        .into_vec()
    );
    assert_eq!(
        strs(&["b", "c", "d"]),
        OrdSetOpsIter::intersection(
            OrdSetOpsIterAdapter::from_slice(&v1),
            OrdSetOpsIterAdapter::from_slice(&v2)
        )
        .into_vec()
    );
    let w1: Vec<i32> = vec![0, 1, 2, 3];
    let w2: Vec<i32> = vec![1, 2, 3, 4, 5];
    assert_eq!(
        vec![1, 2, 3],
        OrdSetOpsIter::intersection(
            OrdSetOpsIterAdapter::from_slice(&w1),
            OrdSetOpsIterAdapter::from_slice(&w2)
        )
        .into_vec()
    );
}

#[test]
fn adapter_set_symmetric_difference() {
    let v1 = strs(&["a", "b", "c", "d"]);
    let v2 = strs(&["b", "c", "d", "e"]);
    assert_eq!(
        strs(&["a", "e"]),
        OrdSetOpsIter::symmetric_difference(
            OrdSetOpsIterAdapter::from_slice(&v1),
            OrdSetOpsIterAdapter::from_slice(&v2)
        )
        .into_vec()
    );
    assert_eq!(
        strs(&["a", "e"]),
        OrdSetOpsIter::symmetric_difference(
            OrdSetOpsIterAdapter::from_slice(&v1),
            OrdSetOpsIterAdapter::from_slice(&v2)
        )
        .into_vec()
    );
    let w1: Vec<i32> = vec![0, 1, 2, 3];
    let w2: Vec<i32> = vec![1, 2, 3, 4, 5];
    assert_eq!(
        vec![0, 4, 5],
        OrdSetOpsIter::symmetric_difference(
            OrdSetOpsIterAdapter::from_slice(&w1),
            OrdSetOpsIterAdapter::from_slice(&w2)
        )
        .into_vec()
    );
}

#[test]
fn adapter_set_union() {
    let v1 = strs(&["a", "b", "c", "d"]);
    let v2 = strs(&["b", "c", "d", "e"]);
    assert_eq!(
        strs(&["a", "b", "c", "d", "e"]),
        OrdSetOpsIter::union(
            OrdSetOpsIterAdapter::from_slice(&v1),
            OrdSetOpsIterAdapter::from_slice(&v2)
        )
        .into_vec()
    );
    assert_eq!(
        strs(&["a", "b", "c", "d", "e"]),
        OrdSetOpsIter::union(
            OrdSetOpsIterAdapter::from_slice(&v1),
            OrdSetOpsIterAdapter::from_slice(&v2)
        )
        .into_vec()
    );
    let w1: Vec<i32> = vec![0, 1, 2, 3];
    let w2: Vec<i32> = vec![1, 2, 3, 4, 5];
    assert_eq!(
        vec![0, 1, 2, 3, 4, 5],
        OrdSetOpsIter::union(
            OrdSetOpsIterAdapter::from_slice(&w1),
            OrdSetOpsIterAdapter::from_slice(&w2)
        )
        .into_vec()
    );
}

#[test]
fn set_iterator_adapter() {
    let set1: BTreeSet<String> = strs(&["a", "b", "c", "g", "e", "f"]).into_iter().collect();
    let set2: BTreeSet<String> = strs(&["c", "f", "i", "l"]).into_iter().collect();
    let set3: BTreeSet<String> = strs(&["c", "e", "i"]).into_iter().collect();
    let v1 = sorted_vec(&set1);
    let v2 = sorted_vec(&set2);
    let v3 = sorted_vec(&set3);
    assert_eq!(
        strs(&["c", "e"]),
        OrdSetOpsIter::intersection(
            OrdSetOpsIterAdapter::from_slice(&v1),
            OrdSetOpsIterAdapter::from_slice(&v3)
        )
        .into_vec()
    );
    assert_eq!(
        strs(&["c", "i"]),
        OrdSetOpsIter::intersection(
            OrdSetOpsIterAdapter::from_slice(&v2),
            OrdSetOpsIterAdapter::from_slice(&v3)
        )
        .into_vec()
    );
    let result = &(&set1 | &set2) & &set3;
    let set4: BTreeSet<String> = OrdSetOpsIter::union(
        OrdSetOpsIterAdapter::from_slice(&v1),
        OrdSetOpsIterAdapter::from_slice(&v2),
    )
    .into_vec()
    .into_iter()
    .collect();
    let v4 = sorted_vec(&set4);
    assert_eq!(
        result,
        OrdSetOpsIter::intersection(
            OrdSetOpsIterAdapter::from_slice(&v4),
            OrdSetOpsIterAdapter::from_slice(&v3)
        )
        .into_vec()
        .into_iter()
        .collect()
    );
    let iter = OrdSetOpsIter::union(
        OrdSetOpsIterAdapter::from_slice(&v1),
        OrdSetOpsIterAdapter::from_slice(&v2),
    );
    assert_eq!(
        result,
        OrdSetOpsIter::intersection(iter, OrdSetOpsIterAdapter::from_slice(&v3))
            .into_vec()
            .into_iter()
            .collect()
    );
    assert_eq!(
        result,
        OrdSetOpsIter::intersection(
            OrdSetOpsIter::union(
                OrdSetOpsIterAdapter::from_slice(&v1),
                OrdSetOpsIterAdapter::from_slice(&v2)
            ),
            OrdSetOpsIterAdapter::from_slice(&v3)
        )
        .into_vec()
        .into_iter()
        .collect()
    );
    let union12: Vec<String> = set1.union(&set2).cloned().collect();
    assert_eq!(
        result,
        OrdSetOpsIter::intersection(
            OrdSetOpsIterAdapter::from_slice(&union12),
            OrdSetOpsIterAdapter::from_slice(&v3)
        )
        .into_vec()
        .into_iter()
        .collect()
    );
}

#[test]
fn set_adapter() {
    let set1: BTreeSet<String> = strs(&["a", "b", "c", "g", "e", "f"]).into_iter().collect();
    let set2: BTreeSet<String> = strs(&["c", "f", "i", "l"]).into_iter().collect();
    let set3: BTreeSet<String> = strs(&["c", "e", "i"]).into_iter().collect();
    let v1 = sorted_vec(&set1);
    let v2 = sorted_vec(&set2);
    let v3 = sorted_vec(&set3);
    let result = &(&set1 | &set2) & &set3;
    assert_eq!(
        result,
        OrdSetOpsIter::intersection(
            OrdSetOpsIter::union(
                OrdSetOpsIterAdapter::from_slice(&v1),
                OrdSetOpsIterAdapter::from_slice(&v2)
            ),
            OrdSetOpsIterAdapter::from_slice(&v3)
        )
        .into_vec()
        .into_iter()
        .collect()
    );
    let union12 = OrdSetOpsIter::union(
        OrdSetOpsIterAdapter::from_slice(&v1),
        OrdSetOpsIterAdapter::from_slice(&v2),
    )
    .into_vec();
    assert_eq!(
        result,
        OrdSetOpsIter::intersection(
            OrdSetOpsIterAdapter::from_slice(&union12),
            OrdSetOpsIterAdapter::from_slice(&v3)
        )
        .into_vec()
        .into_iter()
        .collect()
    );
    assert_eq!(
        BTreeSet::from([1]),
        set1.iter().map(|_| 1).collect::<BTreeSet<i32>>()
    );
}

#[test]
fn map_adapter() {
    let map1: BTreeMap<String, i32> = [("a", 1), ("b", 1), ("c", 1), ("g", 1), ("e", 1), ("f", 1)]
        .iter()
        .map(|(k, v)| (k.to_string(), *v))
        .collect();
    let map2: BTreeMap<String, i32> = [("c", 1), ("f", 1), ("i", 1), ("l", 1)]
        .iter()
        .map(|(k, v)| (k.to_string(), *v))
        .collect();
    let map3: BTreeMap<String, i32> = [("c", 1), ("e", 1), ("i", 1)]
        .iter()
        .map(|(k, v)| (k.to_string(), *v))
        .collect();
    let k1: Vec<String> = map1.keys().cloned().collect();
    let k2: Vec<String> = map2.keys().cloned().collect();
    let k3: Vec<String> = map3.keys().cloned().collect();
    let expected: BTreeSet<String> = strs(&["c", "e", "i"]).into_iter().collect();
    assert_eq!(
        expected,
        OrdSetOpsIter::intersection(
            OrdSetOpsIter::union(
                OrdSetOpsIterAdapter::from_slice(&k1),
                OrdSetOpsIterAdapter::from_slice(&k2)
            ),
            OrdSetOpsIterAdapter::from_slice(&k3)
        )
        .into_vec()
        .into_iter()
        .collect()
    );
}

#[test]
fn expression() {
    let set1: BTreeSet<String> = strs(&["a", "b", "c", "d", "e", "f"]).into_iter().collect();
    let set2: BTreeSet<String> = strs(&["b", "c", "e", "g"]).into_iter().collect();
    let set3: BTreeSet<String> = strs(&["e", "f", "g"]).into_iter().collect();
    let set4: BTreeSet<String> = strs(&["b", "d", "h", "i", "j"]).into_iter().collect();
    let v1 = sorted_vec(&set1);
    let v2 = sorted_vec(&set2);
    let v3 = sorted_vec(&set3);
    let v4 = sorted_vec(&set4);

    let expected = &(&(&set1 | &set3) - &(&set2 & &set4)) ^ &set3;
    let composed = OrdSetOpsIter::symmetric_difference(
        OrdSetOpsIter::difference(
            OrdSetOpsIter::union(
                OrdSetOpsIterAdapter::from_slice(&v1),
                OrdSetOpsIterAdapter::from_slice(&v3),
            ),
            OrdSetOpsIter::intersection(
                OrdSetOpsIterAdapter::from_slice(&v2),
                OrdSetOpsIterAdapter::from_slice(&v4),
            ),
        ),
        OrdSetOpsIterAdapter::from_slice(&v3),
    );
    assert_eq!(expected, composed.into_vec().into_iter().collect());
}

#[test]
fn map() {
    let set1: BTreeSet<String> = strs(&["a", "b", "c", "d", "e", "f"]).into_iter().collect();
    let set2: BTreeSet<String> = strs(&["b", "d", "h", "i", "j"]).into_iter().collect();
    let map: BTreeMap<String, i32> = [("b", 1), ("c", 3), ("g", 5), ("i", 6)]
        .iter()
        .map(|(k, v)| (k.to_string(), *v))
        .collect();
    let v1 = sorted_vec(&set1);
    let v2 = sorted_vec(&set2);
    let keys: Vec<String> = map.keys().cloned().collect();
    assert_eq!(
        strs(&["b", "c"]),
        OrdSetOpsIter::intersection(
            OrdSetOpsIterAdapter::from_slice(&keys),
            OrdSetOpsIterAdapter::from_slice(&v1)
        )
        .into_vec()
    );
    assert_eq!(
        strs(&["d", "h", "j"]),
        OrdSetOpsIter::difference(
            OrdSetOpsIterAdapter::from_slice(&v2),
            OrdSetOpsIterAdapter::from_slice(&keys)
        )
        .into_vec()
    );
}
