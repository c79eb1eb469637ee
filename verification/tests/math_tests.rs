use algorithm::math::max_consecutive_sum;
use algorithm::math::max_consecutive_sum_idx;
use algorithm::math::PrefixSum;

#[test]
fn max_consecutive_sum_empty() {
    let arr: Vec<i64> = vec![];
    assert_eq!(max_consecutive_sum(&arr), 0);
}

#[test]
fn max_consecutive_sum_single() {
    let arr: Vec<i64> = vec![6];
    assert_eq!(max_consecutive_sum(&arr), 6);
}

#[test]
fn negative() {
    let arr: Vec<i64> = vec![-4 - 6, -2];
    assert_eq!(max_consecutive_sum(&arr), 0);
}

#[test]
fn max_consecutive_sum_simple() {
    let arr: Vec<i64> = vec![-4, 4, 5, 2, -7, 6, -2];
    assert_eq!(max_consecutive_sum(&arr), 11);
}

#[test]
fn max_consecutive_sum_idx_empty() {
    let arr: Vec<i64> = vec![];
    assert_eq!(max_consecutive_sum_idx(&arr), (0, 0, 0));
}

#[test]
fn max_consecutive_sum_idx_single() {
    let arr: Vec<i64> = vec![6];
    assert_eq!(max_consecutive_sum_idx(&arr), (6, 0, 1));
}

#[test]
fn idx_negative() {
    let arr: Vec<i64> = vec![-4 - 6, -2];
    assert_eq!(max_consecutive_sum_idx(&arr), (0, 0, 0));
}

#[test]
fn idx_simple() {
    let arr: Vec<i64> = vec![-4, 4, 5, 2, -7, 6, -2];
    assert_eq!(max_consecutive_sum_idx(&arr), (11, 1, 4));
}

#[test]
fn kadane_doc_example() {
    let arr: Vec<i64> = vec![2, -5, 6, 8, 3, -9, 2, 3];
    let (mcs, start, end) = max_consecutive_sum_idx(&arr);
    assert_eq!(mcs, 17);
    assert_eq!(start, 2);
    assert_eq!(end, 5);
}

#[test]
fn prefix_sum_simple() {
    let arr: Vec<i64> = vec![3, 6, 4, 2, 1];
    let mut ps = PrefixSum::new();
    for v in arr {
        ps.push(v);
    }
    assert_eq!(ps.between(1, 3), 10);
    assert_eq!(ps.between(0, 5), 16);
    assert_eq!(ps.between(3, 3), 0);
}

#[test]
fn reversed() {
    let arr: Vec<i64> = vec![3, 6, 4, 2, 1];
    let mut ps = PrefixSum::new();
    for v in arr {
        ps.push(v);
    }
    assert_eq!(ps.between(3, 1), -10);
    assert_eq!(ps.between(5, 0), -16);
    assert_eq!(ps.between(3, 3), 0);
}

#[test]
fn prefix_sum_with_capacity() {
    let mut ps = PrefixSum::with_capacity(4);
    ps.push(1);
    ps.push(3);
    ps.push(6);
    ps.push(3);
    assert_eq!(ps.between(1, 4), 12);
}

#[test]
fn max_consecutive_sum_idx_zero_only() {
    let arr: Vec<i64> = vec![0];
    assert_eq!(max_consecutive_sum_idx(&arr), (0, 0, 0));
}
