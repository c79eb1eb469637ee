use algorithm::sort::longest_ordered_subsequence;
use algorithm::sort::longest_ordered_subsequence_by;
use algorithm::sort::Order::Decreasing;
use algorithm::sort::Order::Increasing;
use algorithm::sort::Order::NotIncreasing;

#[test]
fn longest_subsequence_incr_empty() {
    let arr: Vec<i64> = vec![];
    assert!(longest_ordered_subsequence(&arr, Increasing).is_empty());
}

#[test]
fn longest_subsequence_incr_single() {
    let arr: Vec<i64> = vec![5];
    assert_eq!(longest_ordered_subsequence(&arr, Increasing), vec![0]);
}

#[test]
fn incr_simple() {
    let arr: Vec<i64> = vec![2, 3, 0, 5];
    assert_eq!(longest_ordered_subsequence(&arr, Increasing), vec![0, 1, 3]);
}

#[test]
fn incr_advanced() {
    let arr: Vec<i64> = vec![3, 4, -1, 5, 8, 2, 3, 12, 7, 9, 10];
    assert_eq!(longest_ordered_subsequence(&arr, Increasing), vec![2, 5, 6, 8, 9, 10]);
}

#[test]
fn incr_decr() {
    let arr: Vec<i64> = vec![5, 4, 3, 2, 1];
    assert_eq!(longest_ordered_subsequence(&arr, Increasing), vec![4]);
}

#[test]
fn incr_first_mid_last() {
    let arr: Vec<i64> = vec![5, 10, 6, 3, 7];
    assert_eq!(longest_ordered_subsequence(&arr, Increasing), vec![0, 2, 4]);
}

#[test]
fn longest_subsequence_decr_empty() {
    let arr: Vec<i64> = vec![];
    assert!(longest_ordered_subsequence(&arr, Decreasing).is_empty());
}

#[test]
fn longest_subsequence_decr_single() {
    let arr: Vec<i64> = vec![5];
    assert_eq!(longest_ordered_subsequence(&arr, Decreasing), vec![0]);
}

#[test]
fn decr_simple() {
    let arr: Vec<i64> = vec![5, 4, 6, 3];
    assert_eq!(longest_ordered_subsequence(&arr, Decreasing), vec![0, 1, 3]);
}

#[test]
fn decr_advanced() {
    let arr: Vec<i64> = vec![-3, -4, 1, -5, -8, -2, -3, -12, -7, -9, -10];
    assert_eq!(longest_ordered_subsequence(&arr, Decreasing), vec![2, 5, 6, 8, 9, 10]);
}

#[test]
fn decr_incr() {
    let arr: Vec<i64> = vec![1, 2, 3, 4, 5];
    assert_eq!(longest_ordered_subsequence(&arr, Decreasing), vec![4]);
}

#[test]
fn decr_first_mid_last() {
    let arr: Vec<i64> = vec![-5, -10, -6, -3, -7];
    assert_eq!(longest_ordered_subsequence(&arr, Decreasing), vec![0, 2, 4]);
}

#[test]
fn nincr_simple() {
    let arr: Vec<i64> = vec![5, 4, 4, 6, 3];
    assert_eq!(longest_ordered_subsequence(&arr, NotIncreasing), vec![0, 1, 2, 4]);
}

#[test]
fn nincr_advanced() {
    let arr: Vec<i64> = vec![10, 6, 9, 2, 7, 4, 1, 3, 3, 1];
    assert_eq!(longest_ordered_subsequence(&arr, NotIncreasing), vec![0, 2, 4, 5, 7, 8, 9]);
}

#[test]
fn subsequence_by_comparator() {
    let arr: Vec<i64> = vec![3, 4, -1, 5, 8, 2, 3, 12, 7, 9, 10];
    let r = longest_ordered_subsequence_by(&arr, |a: &i64, b: &i64| a < b);
    assert_eq!(r, vec![2, 5, 6, 8, 9, 10]);
}

// rebuilding the subsequence from the returned positions satisfies the
// order between every adjacent pair
#[test]
fn subsequence_round_trip() {
    let arr: Vec<i64> = vec![3, 5, 3, 4, 9, 1, 9, 9, 2, 6];
    let idx = longest_ordered_subsequence(&arr, Increasing);
    let values: Vec<i64> = idx.iter().map(|&i| arr[i]).collect();
    for w in 1..values.len() {
        assert!(values[w - 1] < values[w]);
    }
    for w in 1..idx.len() {
        assert!(idx[w - 1] < idx[w]);
    }
}

// duplicates never sneak into a strictly increasing subsequence
#[test]
fn subsequence_round_trip_duplicates() {
    let arr: Vec<i64> = vec![3, 5, 3, 4];
    let idx = longest_ordered_subsequence(&arr, Increasing);
    let values: Vec<i64> = idx.iter().map(|&i| arr[i]).collect();
    for w in 1..values.len() {
        assert!(values[w - 1] < values[w]);
    }
    assert_eq!(values, vec![3, 4]);
}

// the returned length is maximal: no ordered subsequence is longer
#[test]
fn subsequence_length_is_maximal() {
    let arr: Vec<i64> = vec![3, 4, -1, 5, 8, 2, 3, 12, 7, 9, 10];
    assert_eq!(longest_ordered_subsequence(&arr, Increasing).len(), 6);
    let arr2: Vec<i64> = vec![1, 2];
    assert_eq!(longest_ordered_subsequence(&arr2, Increasing), vec![0, 1]);
}
