use algorithm::collections::ConsecutiveSums;
use algorithm::collections::Counter;
use algorithm::collections::DisjointSet;
use algorithm::collections::PrefixSum;

#[test]
fn create() {
    let arr: Vec<i64> = vec![1, 2, 3];
    let mut ds = DisjointSet::new();
    for v in arr {
        ds.make_set(v);
    }
    assert_eq!(ds.len(), 3);
}

// two elements are in one subset exactly when a chain of unions connects them
#[test]
fn union_connects() {
    let mut ds = DisjointSet::new();
    for v in 1..8i64 {
        ds.make_set(v);
    }
    ds.union(1, 2);
    ds.union(1, 8);
    assert!(ds.in_union(&2, &8));
    assert!(!ds.in_union(&3, &4));
    assert!(ds.contains(&7));
    assert!(!ds.contains(&10));
}

#[test]
fn union_is_idempotent() {
    let mut ds = DisjointSet::new();
    ds.union(1, 2);
    ds.union(3, 4);
    ds.union(1, 2);
    ds.union(2, 1);
    assert!(ds.in_union(&1, &2));
    assert!(!ds.in_union(&2, &3));
    assert_eq!(ds.len(), 4);
}

#[test]
fn union_chains_transitively() {
    let mut ds = DisjointSet::new();
    ds.union(1, 2);
    ds.union(3, 4);
    ds.union(5, 6);
    assert!(!ds.in_union(&2, &4));
    ds.union(2, 3);
    assert!(ds.in_union(&1, &4));
    assert!(!ds.in_union(&1, &5));
    ds.union(4, 5);
    assert!(ds.in_union(&1, &6));
}

#[test]
fn disjoint_set_clear() {
    let mut ds = DisjointSet::with_capacity(4);
    assert!(ds.is_empty());
    ds.make_set(9);
    ds.make_set(9);
    assert_eq!(ds.len(), 1);
    assert!(!ds.is_empty());
    ds.clear();
    assert!(ds.is_empty());
    assert!(!ds.contains(&9));
}

#[test]
fn counter_counts() {
    let mut counter = Counter::new();
    for v in [5i64, 3, 5, 5, 3, 1] {
        counter.count(v);
    }
    assert_eq!(counter.get(&5), 3);
    assert_eq!(counter.get(&3), 2);
    assert_eq!(counter.get(&1), 1);
    assert_eq!(counter.get(&7), 0);
}

#[test]
fn counter_most_common() {
    let mut counter = Counter::with_capacity(4);
    for v in [2i64, 9, 2, 2, 9, 4] {
        counter.count(v);
    }
    let common = counter.most_common();
    assert_eq!(common[0], (2, 3));
    assert_eq!(common[1], (9, 2));
    assert_eq!(common[2], (4, 1));
}

#[test]
fn counter_into_most_common() {
    let mut counter = Counter::new();
    counter.count(8);
    counter.count(8);
    counter.count(6);
    let common = counter.into_most_common();
    assert_eq!(common, vec![(8, 2), (6, 1)]);
}

#[test]
fn consecutive_sums_between() {
    let arr: Vec<i64> = vec![1, 3, 6, 3, 0, 8, 5];
    let mut cs = ConsecutiveSums::new();
    for v in arr {
        cs.push(v);
    }
    assert_eq!(cs.between(1, 4), 12);
}

#[test]
fn collections_prefix_sum_between() {
    let arr: Vec<i64> = vec![1, 3, 6, 3, 0, 8, 5];
    let mut cs = PrefixSum::new();
    for v in arr {
        cs.push(v);
    }
    assert_eq!(cs.between(1, 4), 12);
    assert_eq!(cs.between(0, 0), 0);
}

#[test]
fn in_union_never_registered() {
    let mut ds = DisjointSet::new();
    assert!(!ds.in_union(&3, &4));
    ds.union(1, 2);
    assert!(!ds.in_union(&1, &3));
    assert!(!ds.in_union(&3, &3));
}

#[test]
fn counter_merge() {
    let mut a = Counter::new();
    for v in [1i64, 1, 2] {
        a.count(v);
    }
    let mut b = Counter::new();
    for v in [1i64, 3] {
        b.count(v);
    }
    a.merge(&b);
    assert_eq!(a.get(&1), 3);
    assert_eq!(a.get(&2), 1);
    assert_eq!(a.get(&3), 1);
}

#[test]
fn counter_subtract_saturates() {
    let mut a = Counter::new();
    for v in [1i64, 1, 2] {
        a.count(v);
    }
    let mut b = Counter::new();
    for v in [1i64, 2, 2, 3] {
        b.count(v);
    }
    a.subtract(&b);
    assert_eq!(a.get(&1), 1);
    assert_eq!(a.get(&2), 0);
    assert_eq!(a.get(&3), 0);
    let common = a.most_common();
    assert_eq!(common, vec![(1, 1)]);
}
