use algorithm::sort::first_unordered;
use algorithm::sort::first_unordered_by;
use algorithm::sort::Order;

#[test]
fn first_unordered_incr_empty() {
    let arr: Vec<i64> = vec![];
    assert!(first_unordered(&arr, Order::Increasing).is_none());
}

#[test]
fn first_unordered_incr_single() {
    let arr: Vec<i64> = vec![5];
    assert!(first_unordered(&arr, Order::Increasing).is_none());
}

#[test]
fn incr_found() {
    let arr: Vec<i64> = vec![5, 7, 8, 10, 10, 11, 12];
    assert_eq!(first_unordered(&arr, Order::Increasing), Some(4));
}

#[test]
fn first_unordered_incr_not_found() {
    let arr: Vec<i64> = vec![5, 7, 8, 10, 11, 12, 13];
    assert_eq!(first_unordered(&arr, Order::Increasing), None);
}

#[test]
fn first_unordered_decr_empty() {
    let arr: Vec<i64> = vec![];
    assert!(first_unordered(&arr, Order::Decreasing).is_none());
}

#[test]
fn first_unordered_decr_single() {
    let arr: Vec<i64> = vec![5];
    assert!(first_unordered(&arr, Order::Decreasing).is_none());
}

#[test]
fn decr_found() {
    let arr: Vec<i64> = vec![44, 33, 22, 22, 11];
    assert_eq!(first_unordered(&arr, Order::Decreasing), Some(3));
}

#[test]
fn first_unordered_decr_not_found() {
    let arr: Vec<i64> = vec![44, 33, 22, 15, 11];
    assert_eq!(first_unordered(&arr, Order::Decreasing), None);
}

#[test]
fn ndecr_empty() {
    let arr: Vec<i64> = vec![];
    assert!(first_unordered(&arr, Order::NotDecreasing).is_none());
}

#[test]
fn ndecr_single() {
    let arr: Vec<i64> = vec![5];
    assert!(first_unordered(&arr, Order::NotDecreasing).is_none());
}

#[test]
fn ndecr_found() {
    let arr: Vec<i64> = vec![5, 7, 7, 10, 8, 11, 12];
    assert_eq!(first_unordered(&arr, Order::NotDecreasing), Some(4));
}

#[test]
fn ndecr_not_found() {
    let arr: Vec<i64> = vec![5, 7, 8, 10, 10, 11, 12];
    assert_eq!(first_unordered(&arr, Order::NotDecreasing), None);
}

#[test]
fn nincr_empty() {
    let arr: Vec<i64> = vec![];
    assert!(first_unordered(&arr, Order::NotIncreasing).is_none());
}

#[test]
fn nincr_single() {
    let arr: Vec<i64> = vec![5];
    assert!(first_unordered(&arr, Order::NotIncreasing).is_none());
}

#[test]
fn nincr_found() {
    let arr: Vec<i64> = vec![44, 33, 22, 23, 11];
    assert_eq!(first_unordered(&arr, Order::NotIncreasing), Some(3));
}

#[test]
fn nincr_not_found() {
    let arr: Vec<i64> = vec![44, 33, 22, 22, 11];
    assert_eq!(first_unordered(&arr, Order::NotIncreasing), None);
}

#[test]
fn first_unordered_by_criterion() {
    let arr_desc: Vec<i64> = vec![3, 5, 7, 7, 7, 4];
    let arr_sorted: Vec<i64> = vec![1, 4, 7, 8, 9];
    assert_eq!(first_unordered_by(&arr_desc, |a: i64, b: i64| a > b), Some(5));
    assert_eq!(first_unordered_by(&arr_sorted, |a: i64, b: i64| a > b), None);
}
