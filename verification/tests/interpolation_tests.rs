use algorithm::search::interpolation_search;
use algorithm::search::interpolation_search_by;
use algorithm::search::interpolation_search_asc;
use algorithm::sort::SortingOrder::Ascending;
use algorithm::sort::SortingOrder::Descending;

#[test]
fn interpolation_asc_empty() {
    let arr: Vec<i64> = vec![];
    assert!(interpolation_search_asc(&arr, 7).is_none());
}

#[test]
fn interpolation_asc_one() {
    let arr: Vec<i64> = vec![5];
    assert!(interpolation_search_asc(&arr, 7).is_none());
}

#[test]
fn interpolation_asc_found() {
    let arr: Vec<i64> = vec![5, 7, 8, 12, 22, 33];
    assert_eq!(interpolation_search_asc(&arr, 12), Some(3));
}

#[test]
fn interpolation_asc_too_small() {
    let arr: Vec<i64> = vec![5, 7, 8, 12, 22, 33];
    assert_eq!(interpolation_search_asc(&arr, 3), None);
}

#[test]
fn interpolation_asc_not_found() {
    let arr: Vec<i64> = vec![5, 7, 8, 12, 22, 33];
    assert_eq!(interpolation_search_asc(&arr, 13), None);
}

#[test]
fn interpolation_search_asc_empty() {
    let arr: Vec<i64> = vec![];
    assert!(interpolation_search(&arr, 7, Ascending).is_none());
}

#[test]
fn interpolation_search_asc_one() {
    let arr: Vec<i64> = vec![5];
    assert!(interpolation_search(&arr, 7, Ascending).is_none());
}

#[test]
fn interpolation_search_asc_found() {
    let arr: Vec<i64> = vec![5, 7, 8, 12, 22, 33];
    assert_eq!(interpolation_search(&arr, 12, Ascending), Some(3));
}

#[test]
fn interpolation_search_asc_too_small() {
    let arr: Vec<i64> = vec![5, 7, 8, 12, 22, 33];
    assert_eq!(interpolation_search(&arr, 3, Ascending), None);
}

#[test]
fn asc_too_big() {
    let arr: Vec<i64> = vec![5, 7, 8, 12, 22, 33];
    assert_eq!(interpolation_search(&arr, 44, Ascending), None);
}

#[test]
fn interpolation_search_asc_not_found() {
    let arr: Vec<i64> = vec![5, 7, 8, 12, 22, 33];
    assert_eq!(interpolation_search(&arr, 13, Ascending), None);
}

#[test]
fn interpolation_search_desc() {
    let arr: Vec<i64> = vec![100, 88, 74, 53, 24, 12, 1];
    assert_eq!(interpolation_search(&arr, 24, Descending), Some(4));
    assert_eq!(interpolation_search(&arr, 23, Descending), None);
}

#[test]
fn interpolation_search_equal_values() {
    let arr: Vec<i64> = vec![7, 7, 7];
    assert_eq!(interpolation_search(&arr, 7, Ascending), Some(0));
    assert_eq!(interpolation_search(&arr, 8, Ascending), None);
}

#[test]
fn interpolation_search_by_probe() {
    let mut arr: Vec<i64> = vec![55, 77, 22, 33, 88];
    arr.sort();
    assert_eq!(interpolation_search_by(&arr, 22, |t: &i64| 22i64.cmp(t)), Some(0));
    assert_eq!(interpolation_search_by(&arr, 44, |t: &i64| 44i64.cmp(t)), None);
}
