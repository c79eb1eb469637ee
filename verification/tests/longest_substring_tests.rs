use algorithm::sort::longest_ordered_substring;
use algorithm::sort::longest_ordered_substring_by;
use algorithm::sort::longest_ordered_substring_idx;
use algorithm::sort::longest_ordered_substring_idx_by;
use algorithm::sort::Order::Increasing;

#[test]
fn longest_substring_idx_empty() {
    let arr: Vec<i64> = vec![];
    assert_eq!(longest_ordered_substring_idx(&arr, Increasing), (0, 0))
}

#[test]
fn longest_substring_idx_single() {
    let arr: Vec<i64> = vec![5];
    assert_eq!(longest_ordered_substring_idx(&arr, Increasing), (0, 1))
}

#[test]
fn idx_decr() {
    let arr: Vec<i64> = vec![5, 4, 3, 2, 1];
    assert_eq!(longest_ordered_substring_idx(&arr, Increasing), (0, 1))
}

#[test]
fn idx_start() {
    let arr: Vec<i64> = vec![1, 2, 3, 4, 5, 4];
    assert_eq!(longest_ordered_substring_idx(&arr, Increasing), (0, 5))
}

#[test]
fn idx_middle() {
    let arr: Vec<i64> = vec![5, 4, 3, 2, 3, 4, 5, 2, 1];
    assert_eq!(longest_ordered_substring_idx(&arr, Increasing), (3, 7))
}

#[test]
fn idx_end() {
    let arr: Vec<i64> = vec![5, 4, 3, 2, 1, 0, 1, 2, 3, 4];
    assert_eq!(longest_ordered_substring_idx(&arr, Increasing), (5, 10))
}

#[test]
fn idx_two_equal() {
    let arr: Vec<i64> = vec![5, 4, 3, 4, 5, 4, 3, 4, 5, 4, 3, 2, 1];
    assert_eq!(longest_ordered_substring_idx(&arr, Increasing), (2, 5))
}

#[test]
fn idx_weak_grow() {
    let arr: Vec<i64> = vec![1, 2, 3, 3, 4, 5, 6];
    assert_eq!(longest_ordered_substring_idx(&arr, Increasing), (3, 7))
}

#[test]
fn longest_substring_empty() {
    let arr: Vec<i64> = vec![];
    assert!(longest_ordered_substring(&arr, Increasing).is_empty())
}

#[test]
fn longest_substring_single() {
    let arr: Vec<i64> = vec![5];
    assert_eq!(longest_ordered_substring(&arr, Increasing), vec![5])
}

#[test]
fn decr() {
    let arr: Vec<i64> = vec![5, 4, 3, 2, 1];
    assert_eq!(longest_ordered_substring(&arr, Increasing), vec![5])
}

#[test]
fn start() {
    let arr: Vec<i64> = vec![1, 2, 3, 4, 5, 4];
    assert_eq!(longest_ordered_substring(&arr, Increasing), vec![1, 2, 3, 4, 5])
}

#[test]
fn middle() {
    let arr: Vec<i64> = vec![5, 4, 3, 2, 3, 4, 5, 2, 1];
    assert_eq!(longest_ordered_substring(&arr, Increasing), vec![2, 3, 4, 5])
}

#[test]
fn end() {
    let arr: Vec<i64> = vec![5, 4, 3, 2, 1, 0, 1, 2, 3, 4];
    assert_eq!(longest_ordered_substring(&arr, Increasing), vec![0, 1, 2, 3, 4])
}

#[test]
fn two_equal() {
    let arr: Vec<i64> = vec![5, 4, 3, 4, 5, 4, 3, 4, 6, 4, 3, 2, 1];
    assert_eq!(longest_ordered_substring(&arr, Increasing), vec![3, 4, 5])
}

#[test]
fn weak_grow() {
    let arr: Vec<i64> = vec![1, 2, 3, 3, 4, 5, 6];
    assert_eq!(longest_ordered_substring(&arr, Increasing), vec![3, 4, 5, 6])
}

#[test]
fn substring_idx_by_comparator() {
    let arr: Vec<i64> = vec![1, 2, 3, 2, 1, 2, 3, 4, 5];
    assert_eq!(longest_ordered_substring_idx_by(&arr, |a: &i64, b: &i64| a < b), (4, 9));
}

#[test]
fn substring_by_comparator() {
    let v: Vec<i64> = vec![1, 2, 3, 2, 1, 2, 3, 4, 5];
    assert_eq!(longest_ordered_substring_by(&v, |a: &i64, b: &i64| a < b), vec![1, 2, 3, 4, 5]);
}

#[test]
fn substring_idx_by_longest_not_first_run() {
    let arr: Vec<i64> = vec![1, 2, 0, 1, 2, 3];
    assert_eq!(longest_ordered_substring_idx_by(&arr, |a: &i64, b: &i64| a < b), (2, 6));
}
