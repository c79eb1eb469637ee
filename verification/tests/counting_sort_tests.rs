use algorithm::sort::counting_sort;
use algorithm::sort::counting_sort_by;
use algorithm::sort::SortingOrder::Ascending;
use algorithm::sort::SortingOrder::Descending;

#[test]
fn counting_sort_asc() {
    let mut arr: Vec<i64> = vec!['a' as i64, 'b' as i64, 'c' as i64, 'a' as i64, 'b' as i64,
        'c' as i64, 'c' as i64, 'c' as i64];
    counting_sort(&mut arr, Ascending);
    let expected: Vec<i64> = vec!['a' as i64, 'a' as i64, 'b' as i64, 'b' as i64, 'c' as i64,
        'c' as i64, 'c' as i64, 'c' as i64];
    assert_eq!(arr, expected);
}

#[test]
fn counting_sort_desc() {
    let mut arr: Vec<i64> = vec!['c' as i64, 'a' as i64, 'b' as i64, 'c' as i64, 'd' as i64,
        'a' as i64, 'b' as i64, 'c' as i64, 'c' as i64, 'c' as i64];
    counting_sort(&mut arr, Descending);
    let expected: Vec<i64> = vec!['d' as i64, 'c' as i64, 'c' as i64, 'c' as i64, 'c' as i64,
        'c' as i64, 'b' as i64, 'b' as i64, 'a' as i64, 'a' as i64];
    assert_eq!(arr, expected);
}

#[test]
fn counting_sort_by_comparator() {
    let mut arr: Vec<i64> = vec!['a' as i64, 'b' as i64, 'c' as i64, 'a' as i64, 'b' as i64,
        'c' as i64, 'c' as i64, 'c' as i64];
    counting_sort_by(&mut arr, |a: &i64, b: &i64| b.cmp(a));
    let expected: Vec<i64> = vec!['c' as i64, 'c' as i64, 'c' as i64, 'c' as i64, 'b' as i64,
        'b' as i64, 'a' as i64, 'a' as i64];
    assert_eq!(arr, expected);
}

#[test]
fn counting_sort_empty_and_negative() {
    let mut empty: Vec<i64> = vec![];
    counting_sort(&mut empty, Ascending);
    assert!(empty.is_empty());
    let mut arr: Vec<i64> = vec![3, -1, 3, 0, -1, 7];
    counting_sort(&mut arr, Ascending);
    assert_eq!(arr, vec![-1, -1, 0, 3, 3, 7]);
}
