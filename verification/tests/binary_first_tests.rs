use algorithm::search::binary_first_by;

#[test]
fn binary_first_empty() {
    let arr: Vec<i64> = vec![];
    assert_eq!(binary_first_by(&arr, |a: &i64| *a > 5), None);
}

#[test]
fn single_found() {
    let arr: Vec<i64> = vec![5];
    assert_eq!(binary_first_by(&arr, |a: &i64| *a > 4), Some(0));
}

#[test]
fn single_not_found() {
    let arr: Vec<i64> = vec![5];
    assert_eq!(binary_first_by(&arr, |a: &i64| *a > 6), None);
}

#[test]
fn incr_gr_found() {
    let arr: Vec<i64> = vec![0, 1, 2, 3, 4, 5];
    assert_eq!(binary_first_by(&arr, |a: &i64| *a > 3), Some(4));
}

#[test]
fn incr_ge_found() {
    let arr: Vec<i64> = vec![0, 1, 2, 3, 4, 5];
    assert_eq!(binary_first_by(&arr, |a: &i64| *a >= 3), Some(3));
}

#[test]
fn binary_first_incr_not_found() {
    let arr: Vec<i64> = vec![0, 1, 2, 3, 4, 5];
    assert_eq!(binary_first_by(&arr, |a: &i64| *a >= 6), None);
}

#[test]
fn incr_last() {
    let arr: Vec<i64> = vec![0, 1, 2, 3, 4, 5];
    assert_eq!(binary_first_by(&arr, |a: &i64| *a >= 5), Some(5));
}

#[test]
fn incr_first() {
    let arr: Vec<i64> = vec![0, 1, 2, 3, 4, 5];
    assert_eq!(binary_first_by(&arr, |a: &i64| *a >= 0), Some(0));
}

#[test]
fn decr_gr_found() {
    let arr: Vec<i64> = vec![5, 4, 3, 2, 1, 0];
    assert_eq!(binary_first_by(&arr, |a: &i64| *a < 3), Some(3));
}

#[test]
fn decr_ge_found() {
    let arr: Vec<i64> = vec![5, 4, 3, 2, 1, 0];
    assert_eq!(binary_first_by(&arr, |a: &i64| *a <= 3), Some(2));
}

#[test]
fn binary_first_decr_not_found() {
    let arr: Vec<i64> = vec![5, 4, 3, 2, 1, 0];
    assert_eq!(binary_first_by(&arr, |a: &i64| *a < 0), None);
}

#[test]
fn decr_first() {
    let arr: Vec<i64> = vec![5, 4, 3, 2, 1, 0];
    assert_eq!(binary_first_by(&arr, |a: &i64| *a <= 5), Some(0));
}

#[test]
fn decr_last() {
    let arr: Vec<i64> = vec![5, 4, 3, 2, 1, 0];
    assert_eq!(binary_first_by(&arr, |a: &i64| *a <= 0), Some(5));
}
