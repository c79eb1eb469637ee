use algorithm::search::binary_search;
use algorithm::search::binary_search_by;
use algorithm::sort::SortingOrder::Ascending;
use algorithm::sort::SortingOrder::Descending;
use std::cmp::Ordering;

#[test]
fn binary_search_asc_empty() {
    let arr: Vec<i64> = vec![];
    assert!(binary_search(&arr, &7, Ascending).is_none());
}

#[test]
fn binary_search_asc_one() {
    let arr: Vec<i64> = vec![5];
    assert!(binary_search(&arr, &7, Ascending).is_none());
}

#[test]
fn binary_search_asc_found() {
    let arr: Vec<i64> = vec![5, 7, 8, 12, 22, 33];
    assert_eq!(binary_search(&arr, &12, Ascending), Some(3));
}

#[test]
fn binary_search_asc_too_small() {
    let arr: Vec<i64> = vec![5, 7, 8, 12, 22, 33];
    assert_eq!(binary_search(&arr, &3, Ascending), None);
}

#[test]
fn binary_search_asc_not_found() {
    let arr: Vec<i64> = vec![5, 7, 8, 12, 22, 33];
    assert_eq!(binary_search(&arr, &13, Ascending), None);
}

#[test]
fn binary_search_desc_empty() {
    let arr: Vec<i64> = vec![];
    assert!(binary_search(&arr, &7, Descending).is_none());
}

#[test]
fn binary_search_desc_one() {
    let arr: Vec<i64> = vec![5];
    assert!(binary_search(&arr, &7, Descending).is_none());
}

#[test]
fn binary_search_desc_found() {
    let arr: Vec<i64> = vec![44, 33, 22, 9, 7, 4, 2, 1];
    assert_eq!(binary_search(&arr, &2, Descending), Some(6));
}

#[test]
fn binary_search_desc_not_found() {
    let arr: Vec<i64> = vec![44, 33, 22, 9, 7, 4, 2, 1];
    assert_eq!(binary_search(&arr, &66, Descending), None);
}

#[test]
fn binary_search_by_probe() {
    let arr: Vec<i64> = vec![0, 3, 7, 8, 11, 13, 22];
    assert_eq!(binary_search_by(&arr, |t: &i64| 11i64.cmp(t)), Some(4));
    assert_eq!(binary_search_by(&arr, |t: &i64| 12i64.cmp(t)), None);
}

#[test]
fn binary_search_by_constant_probe() {
    let arr: Vec<i64> = vec![1, 2, 3];
    assert_eq!(binary_search_by(&arr, |_t: &i64| Ordering::Equal), Some(1));
}
