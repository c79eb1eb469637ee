use algorithm::sort::is_sorted_asc;
use algorithm::sort::is_sorted_asc_weak;
use algorithm::sort::is_sorted_by;
use algorithm::sort::is_sorted_desc;
use algorithm::sort::is_sorted_desc_weak;

#[test]
fn is_sorted_increase_empty() {
    let arr: Vec<i64> = vec![];
    assert!(is_sorted_asc(&arr));
}

#[test]
fn is_sorted_increase_single() {
    let arr: Vec<i64> = vec![1];
    assert!(is_sorted_asc(&arr));
}

#[test]
fn is_sorted_increase_true() {
    let arr: Vec<i64> = vec![1, 4, 6, 10];
    assert!(is_sorted_asc(&arr));
}

#[test]
fn is_sorted_increase_false() {
    let arr: Vec<i64> = vec![1, 4, 6, 5];
    assert!(!is_sorted_asc(&arr));
}

#[test]
fn is_sorted_increase_equal() {
    let arr: Vec<i64> = vec![1, 4, 6, 6, 10];
    assert!(!is_sorted_asc(&arr));
}

#[test]
fn is_sorted_decrease_empty() {
    let arr: Vec<i64> = vec![];
    assert!(is_sorted_desc(&arr));
}

#[test]
fn is_sorted_decrease_single() {
    let arr: Vec<i64> = vec![1];
    assert!(is_sorted_desc(&arr));
}

#[test]
fn is_sorted_decrease_true() {
    let arr: Vec<i64> = vec![55, 44, 33, 22, 11];
    assert!(is_sorted_desc(&arr));
}

#[test]
fn is_sorted_decrease_false() {
    let arr: Vec<i64> = vec![1, 4, 6, 5];
    assert!(!is_sorted_desc(&arr));
}

#[test]
fn is_sorted_decrease_equal() {
    let arr: Vec<i64> = vec![19, 9, 6, 6, 1];
    assert!(!is_sorted_desc(&arr));
}

#[test]
fn is_sorted_no_increase_empty() {
    let arr: Vec<i64> = vec![];
    assert!(is_sorted_desc_weak(&arr));
}

#[test]
fn is_sorted_no_increase_single() {
    let arr: Vec<i64> = vec![1];
    assert!(is_sorted_desc_weak(&arr));
}

#[test]
fn is_sorted_no_increase_true() {
    let arr: Vec<i64> = vec![44, 33, 22, 11, 0];
    assert!(is_sorted_desc_weak(&arr));
}

#[test]
fn is_sorted_no_increase_false() {
    let arr: Vec<i64> = vec![1, 4, 6, 5];
    assert!(!is_sorted_desc_weak(&arr));
}

#[test]
fn is_sorted_no_increase_equal() {
    let arr: Vec<i64> = vec![33, 23, 23, 5, 4, 4, 1];
    assert!(is_sorted_desc_weak(&arr));
}

#[test]
fn is_sorted_no_decrease_empty() {
    let arr: Vec<i64> = vec![];
    assert!(is_sorted_asc_weak(&arr));
}

#[test]
fn is_sorted_no_decrease_single() {
    let arr: Vec<i64> = vec![1];
    assert!(is_sorted_asc_weak(&arr));
}

#[test]
fn is_sorted_no_decrease_true() {
    let arr: Vec<i64> = vec![1, 6, 9, 10];
    assert!(is_sorted_asc_weak(&arr));
}

#[test]
fn is_sorted_no_decrease_false() {
    let arr: Vec<i64> = vec![1, 4, 6, 5];
    assert!(!is_sorted_asc_weak(&arr));
}

#[test]
fn is_sorted_no_decrease_equal() {
    let arr: Vec<i64> = vec![4, 6, 8, 8, 9, 10, 10];
    assert!(is_sorted_asc_weak(&arr));
}

#[test]
fn is_sorted_by_comparator() {
    let arr_sorted: Vec<i64> = vec![3, 5, 7, 9];
    let arr_random: Vec<i64> = vec![1, 7, 6, 3, 0];
    assert!(is_sorted_by(&arr_sorted, |a: &i64, b: &i64| b > a));
    assert!(!is_sorted_by(&arr_random, |a: &i64, b: &i64| b > a));
}
