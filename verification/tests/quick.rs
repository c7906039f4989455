use rs_algo::sort::quick::{sort, sort_mut};

#[test]
fn quick_sort() {
    let a = vec![3, 21, 9, 5, 0, -6, 8, 4, 4, 7];
    let sorted = sort(&a);

    assert_eq!(sorted, vec![-6, 0, 3, 4, 4, 5, 7, 8, 9, 21]);
    assert_eq!(a, vec![3, 21, 9, 5, 0, -6, 8, 4, 4, 7]);
}

#[test]
fn quick_sort_mut() {
    let mut a = vec![3, 21, 9, 5, 0, -6, 8, 4, 4, 7];
    sort_mut(&mut a);

    assert_eq!(a, vec![-6, 0, 3, 4, 4, 5, 7, 8, 9, 21]);
}

#[test]
fn quick_sort_empty() {
    let mut a: Vec<i32> = vec![];
    sort_mut(&mut a);

    assert_eq!(a, vec![]);
}

#[test]
fn quick_sort_single() {
    let mut a = vec![3];
    sort_mut(&mut a);

    assert_eq!(a, vec![3]);
}

#[test]
fn quick_sort_str() {
    let mut a = vec![
        "apple",
        "cake",
        "lemon",
        "zuccini",
        "berry",
        "black berry",
        "kit kat",
    ];
    sort_mut(&mut a);

    assert_eq!(
        a,
        vec![
            "apple",
            "berry",
            "black berry",
            "cake",
            "kit kat",
            "lemon",
            "zuccini"
        ]
    );
}

#[test]
fn quick_sort_documented_example() {
    let a = vec![3, 2, -8, 34, 2, 8];
    let sorted = sort(&a);

    assert_eq!(sorted, vec![-8, 2, 2, 3, 8, 34]);
    assert_eq!(a, vec![3, 2, -8, 34, 2, 8]);
}

#[test]
fn quick_sort_smallest_element_last() {
    // The pivot lands in the first place, and the rest still has to be sorted.
    let mut a = vec![2, 3, 1];
    sort_mut(&mut a);
    assert_eq!(a, vec![1, 2, 3]);

    let mut b = vec![5, 9, 7, 8, 6, 0];
    sort_mut(&mut b);
    assert_eq!(b, vec![0, 5, 6, 7, 8, 9]);
}

#[test]
fn quick_sort_descending_and_equal_input() {
    let mut a = vec![9, 8, 7, 6, 5, 4, 3, 2, 1, 0];
    sort_mut(&mut a);
    assert_eq!(a, vec![0, 1, 2, 3, 4, 5, 6, 7, 8, 9]);

    let mut b = vec![4, 4, 4, 4];
    sort_mut(&mut b);
    assert_eq!(b, vec![4, 4, 4, 4]);
}
