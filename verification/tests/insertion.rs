use rs_algo::sort::insertion::{sort, sort_mut};

#[test]
fn insertion_sort() {
    let a = vec![3, 21, 9, 5, 0, -6, 8, 4, 4, 7];
    let sorted = sort(&a);

    assert_eq!(sorted, vec![-6, 0, 3, 4, 4, 5, 7, 8, 9, 21]);
    assert_eq!(a, vec![3, 21, 9, 5, 0, -6, 8, 4, 4, 7]);
}

#[test]
fn insertion_sort_mut() {
    let mut a = vec![3, 21, 9, 5, 0, -6, 8, 4, 4, 7];
    sort_mut(&mut a);

    assert_eq!(a, vec![-6, 0, 3, 4, 4, 5, 7, 8, 9, 21]);
}

#[test]
fn insertion_sort_empty() {
    let mut a: Vec<i32> = vec![];
    sort_mut(&mut a);

    assert_eq!(a, vec![]);
}

#[test]
fn insertion_sort_str() {
    let mut a = vec![
        "apple",
        "cake",
        "lemon",
        "zuccini",
        "berry",
        "black berry",
        "kit kat",
    ];
    sort_mut(&mut a);

    assert_eq!(
        a,
        vec![
            "apple",
            "berry",
            "black berry",
            "cake",
            "kit kat",
            "lemon",
            "zuccini"
        ]
    );
}

#[test]
fn insertion_sort_documented_example() {
    let a = vec![3, 2, -8, 34, 2, 8];
    let sorted = sort(&a);

    assert_eq!(sorted, vec![-8, 2, 2, 3, 8, 34]);
    assert_eq!(a, vec![3, 2, -8, 34, 2, 8]);
}

#[test]
fn insertion_sort_single_and_pair() {
    let mut one = vec![3];
    sort_mut(&mut one);
    assert_eq!(one, vec![3]);

    let mut two = vec![2, 1];
    sort_mut(&mut two);
    assert_eq!(two, vec![1, 2]);
}

#[test]
fn insertion_sort_descending_input() {
    let mut a = vec![9, 8, 7, 6, 5, 4, 3, 2, 1, 0];
    sort_mut(&mut a);

    assert_eq!(a, vec![0, 1, 2, 3, 4, 5, 6, 7, 8, 9]);
}
