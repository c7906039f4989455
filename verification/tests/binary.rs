use rs_algo::search::binary::{index_of, search};

#[test]
fn binary_search() {
    let array = vec![2, 3, 5, 6, 8, 9, 23, 54, 77, 78, 89, 90, 104];
    let str_array = vec![ "algorithm", "cake", "denver", "rust", "programming", "zebra", ];

    assert_eq!(search(77, &array), Some(77));
    assert_eq!(search("rust", &str_array), Some("rust"));
    assert_eq!(search("c++", &str_array), None);
}

#[test]
fn binary_search_none() {
    let array = vec![2, 3, 5, 6, 8, 9, 23, 54, 77, 78, 89, 90, 104];
    assert_eq!(search(999, &array), None);
}

#[test]
fn binary_search_index() {
    let array = vec![2, 3, 5, 6, 8, 9, 23, 54, 77, 78, 89, 89, 89, 90, 104];
    assert_eq!(index_of(9, &array), Some(5));
    // index 11 if correct, but not the first index of value 89. A side effect of binary search
    assert_eq!(index_of(89, &array), Some(11));
    assert_eq!(index_of(999, &array), None);

    let str_array = vec![ "algorithm", "cake", "denver", "rust", "programming", "zebra", ];
    assert_eq!(index_of("rust", &str_array), Some(3));
    assert_eq!(index_of("c++", &str_array), None);
}

#[test]
fn binary_search_documented_example() {
    let s = vec![1, 2, 3, 5, 7, 8, 9, 23, 24, 56, 67];
    assert_eq!(index_of(23, &s), Some(7));
    assert_eq!(index_of(123, &s), None);
    assert_eq!(search(23, &s), Some(23));
    assert_eq!(search(123, &s), None);
}

#[test]
fn binary_search_finds_every_element() {
    let array = vec![2, 3, 5, 6, 8, 9, 23, 54, 77, 78, 89, 90, 104];
    for (place, value) in array.iter().enumerate() {
        assert_eq!(index_of(*value, &array), Some(place));
        assert_eq!(search(*value, &array), Some(*value));
    }
}

#[test]
fn binary_search_misses_what_is_absent() {
    let array = vec![2, 3, 5, 6, 8, 9, 23, 54, 77, 78, 89, 90, 104];
    for value in [-5, 1, 4, 7, 10, 55, 91, 105] {
        assert_eq!(index_of(value, &array), None);
        assert_eq!(search(value, &array), None);
    }
}

#[test]
fn binary_search_first_place() {
    assert_eq!(index_of(2, &vec![2, 3, 5]), Some(0));
    assert_eq!(index_of(2, &vec![2, 3]), Some(0));
    assert_eq!(search(2, &vec![2, 3]), Some(2));
}

#[test]
fn binary_search_single_and_empty() {
    let empty: Vec<i32> = vec![];
    assert_eq!(index_of(5, &empty), None);
    assert_eq!(search(5, &empty), None);
    assert_eq!(index_of(5, &vec![5]), Some(0));
    assert_eq!(index_of(4, &vec![5]), None);
    assert_eq!(search(5, &vec![5]), Some(5));
    assert_eq!(search(6, &vec![5]), None);
}

#[test]
fn binary_search_among_equal_elements() {
    let array = vec![7, 7, 7, 7, 7];
    let place = index_of(7, &array).unwrap();
    assert_eq!(array[place], 7);
    assert_eq!(search(7, &array), Some(7));
}
