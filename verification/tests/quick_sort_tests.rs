use algorithm::sort::quick_sort;
use algorithm::sort::quick_sort_by;
use algorithm::sort::quick_sort_rand;
use algorithm::sort::quick_sort_rand_by;
use algorithm::sort::shuffle;
use algorithm::sort::SortingOrder::Ascending;
use algorithm::sort::SortingOrder::Descending;

#[test]
fn simple_by() {
    let mut arr: Vec<i64> = vec![5, 3, 1, 2, 4];
    quick_sort_by(&mut arr, |a: &i64, b: &i64| a < b);
    let expected: Vec<i64> = vec![1, 2, 3, 4, 5];
    assert_eq!(arr, expected);
}

#[test]
fn complex_by() {
    let mut arr: Vec<i64> = vec![5, 3, 1, 2, 4, 7, 7, 10, 6, 8, 9];
    quick_sort_by(&mut arr, |a: &i64, b: &i64| a > b);
    let expected: Vec<i64> = vec![10, 9, 8, 7, 7, 6, 5, 4, 3, 2, 1];
    assert_eq!(arr, expected);
}

#[test]
fn quick_sort_asc() {
    let mut arr: Vec<i64> = vec![100, 60, 30, 10, 0, 20, 90, 40, 70, 50, 80];
    let expected: Vec<i64> = vec![0, 10, 20, 30, 40, 50, 60, 70, 80, 90, 100];
    quick_sort(&mut arr, Ascending);
    assert_eq!(arr, expected);
}

#[test]
fn quick_sort_desc() {
    let mut arr: Vec<i64> = vec![100, 60, 30, 10, 0, 20, 90, 40, 70, 50, 80];
    let expected: Vec<i64> = vec![100, 90, 80, 70, 60, 50, 40, 30, 20, 10, 0];
    quick_sort(&mut arr, Descending);
    assert_eq!(arr, expected);
}

#[test]
fn shuffle_sort() {
    let mut arr: Vec<i64> = vec![1, 2, 3, 4, 5, 6, 7, 8, 9, 10];
    shuffle(&mut arr);
    quick_sort(&mut arr, Ascending);
    let expected: Vec<i64> = vec![1, 2, 3, 4, 5, 6, 7, 8, 9, 10];
    assert_eq!(arr, expected);
}

#[test]
fn quick_sort_rand_sorts() {
    let mut arr: Vec<i64> = vec![4, -2, 9, 9, 0, 3];
    quick_sort_rand(&mut arr, Ascending);
    assert_eq!(arr, vec![-2, 0, 3, 4, 9, 9]);
}

#[test]
fn quick_sort_rand_by_sorts() {
    let mut arr: Vec<i64> = vec![4, -2, 9, 9, 0, 3];
    quick_sort_rand_by(&mut arr, |a: &i64, b: &i64| a < b);
    assert_eq!(arr, vec![-2, 0, 3, 4, 9, 9]);
}

// shuffling keeps exactly the same values
#[test]
fn shuffle_keeps_multiset() {
    let mut arr: Vec<i64> = vec![3, 1, 4, 1, 5, 9, 2, 6];
    shuffle(&mut arr);
    arr.sort();
    assert_eq!(arr, vec![1, 1, 2, 3, 4, 5, 6, 9]);
}
