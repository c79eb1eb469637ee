use algorithm::sort::is_ordered;
use algorithm::sort::is_ordered_by;
use algorithm::sort::Order::Decreasing;
use algorithm::sort::Order::Increasing;
use algorithm::sort::Order::NotDecreasing;
use algorithm::sort::Order::NotIncreasing;

#[test]
fn is_ordered_increase_empty() {
    let arr: Vec<i64> = vec![];
    assert!(is_ordered(&arr, Increasing));
}

#[test]
fn is_ordered_increase_single() {
    let arr: Vec<i64> = vec![1];
    assert!(is_ordered(&arr, Increasing));
}

#[test]
fn is_ordered_increase_true() {
    let arr: Vec<i64> = vec![1, 4, 6, 10];
    assert!(is_ordered(&arr, Increasing));
}

#[test]
fn is_ordered_increase_false() {
    let arr: Vec<i64> = vec![1, 4, 6, 5];
    assert!(!is_ordered(&arr, Increasing));
}

#[test]
fn is_ordered_increase_equal() {
    let arr: Vec<i64> = vec![1, 4, 6, 6, 10];
    assert!(!is_ordered(&arr, Increasing));
}

#[test]
fn is_ordered_decrease_empty() {
    let arr: Vec<i64> = vec![];
    assert!(is_ordered(&arr, Decreasing));
}

#[test]
fn is_ordered_decrease_single() {
    let arr: Vec<i64> = vec![1];
    assert!(is_ordered(&arr, Decreasing));
}

#[test]
fn is_ordered_decrease_true() {
    let arr: Vec<i64> = vec![55, 44, 33, 22, 11];
    assert!(is_ordered(&arr, Decreasing));
}

#[test]
fn is_ordered_decrease_false() {
    let arr: Vec<i64> = vec![1, 4, 6, 5];
    assert!(!is_ordered(&arr, Decreasing));
}

#[test]
fn is_ordered_decrease_equal() {
    let arr: Vec<i64> = vec![19, 9, 6, 6, 1];
    assert!(!is_ordered(&arr, Decreasing));
}

#[test]
fn is_ordered_no_increase_empty() {
    let arr: Vec<i64> = vec![];
    assert!(is_ordered(&arr, NotIncreasing));
}

#[test]
fn is_ordered_no_increase_single() {
    let arr: Vec<i64> = vec![1];
    assert!(is_ordered(&arr, NotIncreasing));
}

#[test]
fn is_ordered_no_increase_true() {
    let arr: Vec<i64> = vec![44, 33, 22, 11, 0];
    assert!(is_ordered(&arr, NotIncreasing));
}

#[test]
fn is_ordered_no_increase_false() {
    let arr: Vec<i64> = vec![1, 4, 6, 5];
    assert!(!is_ordered(&arr, NotIncreasing));
}

#[test]
fn is_ordered_no_increase_equal() {
    let arr: Vec<i64> = vec![33, 23, 23, 5, 4, 4, 1];
    assert!(is_ordered(&arr, NotIncreasing));
}

#[test]
fn is_ordered_no_decrease_empty() {
    let arr: Vec<i64> = vec![];
    assert!(is_ordered(&arr, NotDecreasing));
}

#[test]
fn is_ordered_no_decrease_single() {
    let arr: Vec<i64> = vec![1];
    assert!(is_ordered(&arr, NotDecreasing));
}

#[test]
fn is_ordered_no_decrease_true() {
    let arr: Vec<i64> = vec![1, 6, 9, 10];
    assert!(is_ordered(&arr, NotDecreasing));
}

#[test]
fn is_ordered_no_decrease_false() {
    let arr: Vec<i64> = vec![1, 4, 6, 5];
    assert!(!is_ordered(&arr, NotDecreasing));
}

#[test]
fn is_ordered_no_decrease_equal() {
    let arr: Vec<i64> = vec![4, 6, 8, 8, 9, 10, 10];
    assert!(is_ordered(&arr, NotDecreasing));
}

#[test]
fn is_ordered_by_comparator() {
    let arr_sorted: Vec<i64> = vec![3, 5, 7, 9];
    let arr_random: Vec<i64> = vec![1, 7, 6, 3, 0];
    assert!(is_ordered_by(&arr_sorted, |a: i64, b: i64| b > a));
    assert!(!is_ordered_by(&arr_random, |a: i64, b: i64| b > a));
}
