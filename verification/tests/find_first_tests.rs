use algorithm::sort::find_first_asc;
use algorithm::sort::find_first_by;
use algorithm::sort::find_first_desc;
use algorithm::sort::find_first_wasc;
use algorithm::sort::find_first_wdesc;

#[test]
fn find_first_desc_empty() {
    let arr: Vec<i64> = vec![];
    assert!(find_first_desc(&arr).is_none());
}

#[test]
fn desc_single() {
    let arr: Vec<i64> = vec![5];
    assert!(find_first_desc(&arr).is_none());
}

#[test]
fn find_first_desc_found() {
    let arr: Vec<i64> = vec![5, 7, 8, 10, 4, 11, 12];
    assert_eq!(find_first_desc(&arr), Some(4));
}

#[test]
fn find_first_asc_empty() {
    let arr: Vec<i64> = vec![];
    assert!(find_first_asc(&arr).is_none());
}

#[test]
fn asc_single() {
    let arr: Vec<i64> = vec![5];
    assert!(find_first_asc(&arr).is_none());
}

#[test]
fn find_first_asc_found() {
    let arr: Vec<i64> = vec![44, 33, 22, 88, 11];
    assert_eq!(find_first_asc(&arr), Some(3));
}

#[test]
fn wdesc_empty() {
    let arr: Vec<i64> = vec![];
    assert!(find_first_wdesc(&arr).is_none());
}

#[test]
fn wdesc_single() {
    let arr: Vec<i64> = vec![5];
    assert!(find_first_wdesc(&arr).is_none());
}

#[test]
fn wdesc_found() {
    let arr: Vec<i64> = vec![5, 7, 8, 10, 10, 11, 12];
    assert_eq!(find_first_wdesc(&arr), Some(4));
}

#[test]
fn wasc_empty() {
    let arr: Vec<i64> = vec![];
    assert!(find_first_wasc(&arr).is_none());
}

#[test]
fn wasc_single() {
    let arr: Vec<i64> = vec![5];
    assert!(find_first_wasc(&arr).is_none());
}

#[test]
fn wasc_found() {
    let arr: Vec<i64> = vec![44, 33, 22, 22, 11];
    assert_eq!(find_first_wasc(&arr), Some(3));
}

#[test]
fn find_first_by_comparator() {
    let arr_desc: Vec<i64> = vec![3, 5, 7, 7, 7, 4];
    let arr_sorted: Vec<i64> = vec![1, 4, 7, 8, 9];
    assert_eq!(find_first_by(&arr_desc, |a: &i64, b: &i64| a <= b), Some(5));
    assert_eq!(find_first_by(&arr_sorted, |a: &i64, b: &i64| a <= b), None);
}
