use algorithm::math::median;
use algorithm::math::median_avg;
use algorithm::math::median_avg_rand;
use algorithm::math::median_rand;

#[test]
fn median_single() {
    let mut arr: Vec<i64> = vec![3];
    assert_eq!(median(&mut arr), 3);
}

#[test]
fn single_avg() {
    let mut arr: Vec<i64> = vec![3];
    assert_eq!(median_avg(&mut arr), 3);
}

#[test]
fn two() {
    let mut arr: Vec<i64> = vec![3, 5];
    assert_eq!(median(&mut arr), 5);
}

#[test]
fn two_avg() {
    let mut arr: Vec<i64> = vec![3, 5];
    assert_eq!(median_avg(&mut arr), 4);
}

#[test]
fn multiple_odd() {
    let mut arr: Vec<i64> = vec![9, 2, 7, 3, 5, 4, 1, 6, 8];
    assert_eq!(median(&mut arr), 5);
}

#[test]
fn multiple_even() {
    let mut arr: Vec<i64> = vec![9, 2, 7, 3, 5, 4, 1, 6, 8, 0];
    assert_eq!(median(&mut arr), 5);
}

#[test]
fn multiple_odd_avg() {
    let mut arr: Vec<i64> = vec![9, 2, 7, 3, 5, 4, 1, 6, 8];
    assert_eq!(median_avg(&mut arr), 5);
}

#[test]
fn multiple_even_avg() {
    let mut arr: Vec<i64> = vec![9, 2, 7, 3, 5, 4, 1, 6, 8, 0];
    assert_eq!(median_avg(&mut arr), 4);
}

#[test]
fn median_even_upper_middle() {
    let mut arr: Vec<i64> = vec![9, 2, 7, 3, 5, 4, 1, 6, 8, 10];
    assert_eq!(median(&mut arr), 6);
}

#[test]
fn median_rand_examples() {
    let mut odd: Vec<i64> = vec![9, 2, 7, 3, 5, 4, 1, 6, 8];
    assert_eq!(median_rand(&mut odd), 5);
    let mut even: Vec<i64> = vec![9, 2, 7, 3, 5, 4, 1, 6, 8, 10];
    assert_eq!(median_rand(&mut even), 6);
}

#[test]
fn median_avg_rand_examples() {
    let mut odd: Vec<i64> = vec![9, 2, 7, 3, 5, 4, 1, 6, 8];
    assert_eq!(median_avg_rand(&mut odd), 5);
    let mut even: Vec<i64> = vec![3, 5];
    assert_eq!(median_avg_rand(&mut even), 4);
}

#[test]
fn median_avg_negative_rounds_toward_zero() {
    let mut arr: Vec<i64> = vec![-3, -2];
    assert_eq!(median_avg(&mut arr), -2);
}

#[test]
fn median_avg_odd_extreme_values() {
    let mut arr: Vec<i64> = vec![i64::MAX, 0, 0];
    assert_eq!(median_avg(&mut arr), 0);
}
