use algorithm::search::quick_select;
use algorithm::search::quick_select_by;
use algorithm::search::quick_select_rand;
use algorithm::search::quick_select_rand_by;

#[test]
fn impl_find_first() {
    let mut arr: Vec<i64> = vec![3, 6, 5, 0, 8, 9, 2, 1, 4, 7];
    let val = quick_select(&mut arr, 0);
    assert_eq!(val, 0)
}

#[test]
fn impl_find_last() {
    let mut arr: Vec<i64> = vec![3, 6, 5, 0, 8, 9, 2, 1, 4, 7];
    let val = quick_select(&mut arr, 9);
    assert_eq!(val, 9)
}

#[test]
fn impl_find_mid() {
    let mut arr: Vec<i64> = vec![3, 6, 5, 0, 8, 9, 2, 1, 4, 7];
    let val = quick_select(&mut arr, 5);
    assert_eq!(val, 5)
}

#[test]
fn impl_single() {
    let mut arr: Vec<i64> = vec![3];
    let val = quick_select(&mut arr, 0);
    assert_eq!(val, 3)
}

#[test]
fn qs_letters() {
    let mut arr: Vec<i64> = vec!['d' as i64, 'a' as i64, 'b' as i64, 'h' as i64, 'c' as i64,
        'f' as i64, 'e' as i64, 'g' as i64];
    let fifth = quick_select(&mut arr, 4);
    arr.sort();
    assert_eq!(fifth, 'e' as i64);
}

#[test]
fn qs_found_by_partition() {
    let mut arr: Vec<i64> = vec![9, 2, 7, 3, 5, 4, 1, 6, 8];
    assert_eq!(quick_select(&mut arr, 4), 5);
}

#[test]
fn qs_by_comparator() {
    let mut arr: Vec<i64> = vec![4, 1, 3, 2];
    // a descending comparator selects from the reversed order
    let second = quick_select_by(&mut arr, 1, |a: &i64, b: &i64| a > b);
    assert_eq!(second, 3);
}

// the result only depends on the multiset of values, not on their order
#[test]
fn qs_permutation_invariant() {
    let mut a: Vec<i64> = vec![9, 2, 7, 3, 5, 4, 1, 6, 8];
    let mut b: Vec<i64> = vec![1, 2, 3, 4, 5, 6, 7, 8, 9];
    for n in 0..a.len() {
        assert_eq!(quick_select(&mut a, n), quick_select(&mut b, n));
    }
}

// every rank matches the fully sorted copy, also with duplicates
#[test]
fn qs_matches_sorted_copy() {
    let orig: Vec<i64> = vec![5, 3, 5, 1, 3, 5, 2];
    let mut sorted = orig.clone();
    sorted.sort();
    for n in 0..orig.len() {
        let mut work = orig.clone();
        assert_eq!(quick_select(&mut work, n), sorted[n]);
    }
}

#[test]
fn qs_rand_matches_sorted_copy() {
    let orig: Vec<i64> = vec![5, 3, 5, 1, 3, 5, 2, -4, 0];
    let mut sorted = orig.clone();
    sorted.sort();
    for n in 0..orig.len() {
        let mut work = orig.clone();
        assert_eq!(quick_select_rand(&mut work, n), sorted[n]);
    }
}

#[test]
fn qs_rand_by_comparator() {
    let mut arr: Vec<i64> = vec![4, 1, 3, 2];
    let second = quick_select_rand_by(&mut arr, 1, |a: &i64, b: &i64| a > b);
    assert_eq!(second, 3);
}

// a slice of one element yields its sole value for the only valid rank
#[test]
fn qs_single_sole_element() {
    let mut arr: Vec<i64> = vec![42];
    assert_eq!(quick_select(&mut arr, 0), 42);
    let mut arr2: Vec<i64> = vec![-7];
    assert_eq!(quick_select_rand(&mut arr2, 0), -7);
}
