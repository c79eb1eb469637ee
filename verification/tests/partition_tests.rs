use algorithm::utils::partition;
use algorithm::utils::PairIterator;

#[test]
fn partition_simple() {
    let mut arr: Vec<i64> = vec![9, 4, 8, 3, 7];
    let idx = partition(&mut arr, |a: &i64, b: &i64| a < b);
    assert_eq!(arr, vec![4, 3, 7, 9, 8]);
    assert_eq!(idx, 2)
}

#[test]
fn partition_complex() {
    let mut arr: Vec<i64> = vec![8, 4, 1, 2, 8, 9, 4, 6, 6, 5];
    let idx = partition(&mut arr, |a: &i64, b: &i64| a < b);
    assert_eq!(arr, vec![4, 1, 2, 4, 5, 9, 8, 6, 6, 8]);
    assert_eq!(idx, 4)
}

#[test]
fn partition_first() {
    let mut arr: Vec<i64> = vec![6, 5, 8, 1];
    let idx = partition(&mut arr, |a: &i64, b: &i64| a < b);
    assert_eq!(arr, vec![1, 5, 8, 6]);
    assert_eq!(idx, 0)
}

#[test]
fn partition_last() {
    let mut arr: Vec<i64> = vec![3, 4, 8, 3, 9];
    let idx = partition(&mut arr, |a: &i64, b: &i64| a < b);
    assert_eq!(arr, vec![3, 4, 8, 3, 9]);
    assert_eq!(idx, 4)
}

// every element left of the returned position is ordered before the pivot,
// which itself lands on that position
#[test]
fn partition_invariant_example() {
    let mut arr: Vec<i64> = vec![5, 1, 9, 2, 7, 3, 6];
    let pivot = arr[arr.len() - 1];
    let idx = partition(&mut arr, |a: &i64, b: &i64| a < b);
    assert_eq!(arr[idx], pivot);
    for i in 0..idx {
        assert!(arr[i] < pivot);
    }
    for i in idx + 1..arr.len() {
        assert!(arr[i] >= pivot);
    }
}

#[test]
fn partition_rand_keeps_values() {
    let mut arr: Vec<i64> = vec![5, 1, 9, 2, 7, 3, 6];
    let idx = algorithm::utils::partition_rand(&mut arr, |a: &i64, b: &i64| a < b);
    let pivot = arr[idx];
    for i in 0..idx {
        assert!(arr[i] < pivot);
    }
    for i in idx..arr.len() {
        assert!(arr[i] >= pivot);
    }
    let mut sorted = arr.clone();
    sorted.sort();
    assert_eq!(sorted, vec![1, 2, 3, 5, 6, 7, 9]);
}

#[test]
fn first_decr() {
    let decr: Vec<i64> = vec![1, 2, 3, 4, 5, 6, 7, 0];
    let mut iter = PairIterator::new(&decr);
    assert_eq!(iter.position(|a: i64, b: i64| a > b), Some(6));
}

#[test]
fn sorted() {
    let incr: Vec<i64> = vec![1, 2, 3, 4, 5, 6];
    let mut iter = PairIterator::new(&incr);
    assert!(iter.all(|a: i64, b: i64| a < b))
}

#[test]
fn pair_iterator_next() {
    let arr: Vec<i64> = vec![4, 7, 2];
    let mut iter = PairIterator::new(&arr);
    assert_eq!(iter.next(), Some((4, 7)));
    assert_eq!(iter.next(), Some((7, 2)));
    assert_eq!(iter.next(), None);
}
