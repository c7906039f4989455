use rs_algo::sort::merge::{sort, sort_mut};

#[test]
fn merge_sort() {
    let a = vec![17, 1, 3, 99, 10, 7, 2, 11, -5, 4, 9, 8];
    let sorted = sort(&a);

    assert_eq!(sorted, vec![-5, 1, 2, 3, 4, 7, 8, 9, 10, 11, 17, 99]);
    assert_eq!(a, vec![17, 1, 3, 99, 10, 7, 2, 11, -5, 4, 9, 8]);
}

#[test]
fn merge_sort_mut() {
    let mut a = vec![17, 1, 3, 99, 10, 7, 2, 11, -5, 4, 9, 8];
    sort_mut(&mut a);

    assert_eq!(a, vec![-5, 1, 2, 3, 4, 7, 8, 9, 10, 11, 17, 99]);
}

#[test]
fn merge_single_array() {
    let mut a: Vec<i32> = vec![23];
    sort_mut(&mut a);

    assert_eq!(a, vec![23]);
}

#[test]
fn merge_empty_array() {
    let mut a: Vec<u8> = vec![];
    sort_mut(&mut a);

    assert_eq!(a, vec![]);
}

#[test]
fn merge_str_array() {
    let mut a: Vec<&str> = vec!["December", "May", "June", "April", "July", "Batman"];
    sort_mut(&mut a);

    assert_eq!(
        a,
        vec!["April", "Batman", "December", "July", "June", "May"]
    );
}

#[test]
fn merge_sort_documented_example() {
    let a = vec![3, 2, -8, 34, 2, 8];
    let sorted = sort(&a);

    assert_eq!(sorted, vec![-8, 2, 2, 3, 8, 34]);
    assert_eq!(a, vec![3, 2, -8, 34, 2, 8]);
}

#[test]
fn merge_sort_odd_length() {
    let mut a = vec![5, 4, 3, 2, 1];
    sort_mut(&mut a);

    assert_eq!(a, vec![1, 2, 3, 4, 5]);
}
