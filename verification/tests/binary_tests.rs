use algorithm::search::binary_asc;
use algorithm::search::binary_desc;

#[test]
fn binary_asc_empty() {
    let arr: Vec<i64> = vec![];
    assert!(binary_asc(&arr, &7).is_none());
}

#[test]
fn binary_asc_one() {
    let arr: Vec<i64> = vec![5];
    assert!(binary_asc(&arr, &7).is_none());
}

#[test]
fn binary_asc_found() {
    let arr: Vec<i64> = vec![5, 7, 8, 12, 22, 33];
    assert_eq!(binary_asc(&arr, &12), Some(3));
}

#[test]
fn binary_asc_too_small() {
    let arr: Vec<i64> = vec![5, 7, 8, 12, 22, 33];
    assert_eq!(binary_asc(&arr, &3), None);
}

#[test]
fn binary_asc_not_found() {
    let arr: Vec<i64> = vec![5, 7, 8, 12, 22, 33];
    assert_eq!(binary_asc(&arr, &13), None);
}

#[test]
fn binary_desc_empty() {
    let arr: Vec<i64> = vec![];
    assert!(binary_desc(&arr, &7).is_none());
}

#[test]
fn binary_desc_one() {
    let arr: Vec<i64> = vec![5];
    assert!(binary_desc(&arr, &7).is_none());
}

#[test]
fn binary_desc_found() {
    let arr: Vec<i64> = vec![44, 33, 22, 9, 7, 4, 2, 1];
    assert_eq!(binary_desc(&arr, &2), Some(6));
}

#[test]
fn binary_desc_not_found() {
    let arr: Vec<i64> = vec![44, 33, 22, 9, 7, 4, 2, 1];
    assert_eq!(binary_asc(&arr, &66), None);
}
