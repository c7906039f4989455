use rs_algo::compare::{LCSubsequence, LCSubstring};

#[test]
fn lc_substring_test() {
    let a = String::from("Why hello world you world hello");
    let b = String::from("subby world Why hello red car go fast");
    let lcs = LCSubstring::new_substring(a, b);

    assert_eq!(lcs.substring_len, 10);
}

#[test]
fn lc_substring_empty_test() {
    let a = String::from("Why hello world you world hello");
    let b = String::from("");
    let lcs = LCSubstring::new_substring(a, b);

    assert_eq!(lcs.substring_len, 0);
    assert_eq!(lcs.get_longest_substring(), None);
}

#[test]
fn lc_substring_get_string_test() {
    let a = String::from("!!!Why hello world you world hello");
    let b = String::from("subby world Why hello red car go fast");
    let lcs = LCSubstring::new_substring(a, b);

    assert_eq!(lcs.get_longest_substring(), Some("Why hello ".to_string()));
}

#[test]
fn lc_substring_hello_world() {
    let lcs = LCSubstring::new_substring(
        "!!!!Hello WorldXXXXX".to_string(),
        "XXX   Hello World@cvcvcvc".to_string(),
    );

    assert_eq!(lcs.substring_len, 11);
    assert_eq!(lcs.length(), 11);
    assert_eq!(lcs.get_longest_substring(), Some("Hello World".to_string()));
}

#[test]
fn lc_substring_documented_example() {
    let lcs = LCSubstring::new_substring(
        "sunny today outside".to_string(),
        "today is cold".to_string(),
    );

    assert_eq!(lcs.substring_len, 6);
    assert_eq!(lcs.get_longest_substring(), Some("today ".to_string()));
}

#[test]
fn lc_substring_both_empty() {
    let lcs = LCSubstring::new_substring(String::new(), String::new());

    assert_eq!(lcs.substring_len, 0);
    assert_eq!(lcs.get_longest_substring(), None);
}

#[test]
fn lc_substring_left_empty() {
    let lcs = LCSubstring::new_substring(String::new(), "anything".to_string());

    assert_eq!(lcs.substring_len, 0);
    assert_eq!(lcs.get_longest_substring(), None);
}

#[test]
fn lc_substring_nothing_shared() {
    let lcs = LCSubstring::new_substring("abc".to_string(), "xyz".to_string());

    assert_eq!(lcs.substring_len, 0);
    assert_eq!(lcs.get_longest_substring(), None);
}

#[test]
fn lc_substring_first_of_equal_runs_wins() {
    // "ab" and "cd" are both longest; "ab" ends in the earlier row.
    let lcs = LCSubstring::new_substring("abXcd".to_string(), "cdYab".to_string());
    assert_eq!(lcs.substring_len, 2);
    assert_eq!(lcs.get_longest_substring(), Some("ab".to_string()));

    let swapped = LCSubstring::new_substring("cdYab".to_string(), "abXcd".to_string());
    assert_eq!(swapped.substring_len, 2);
    assert_eq!(swapped.get_longest_substring(), Some("cd".to_string()));
}

#[test]
fn lc_substring_is_cut_by_whole_characters() {
    let lcs = LCSubstring::new_substring(
        "aé日\u{1F600}b".to_string(),
        "xxé日\u{1F600}yy".to_string(),
    );

    assert_eq!(lcs.substring_len, 3);
    assert_eq!(lcs.get_longest_substring(), Some("é日\u{1F600}".to_string()));
}

#[test]
fn lc_substring_is_at_most_the_subsequence() {
    let pairs = [
        ("abbtaabtca", "ax3taaca"),
        ("leighxxxft", "right"),
        ("!!!!Hello WorldXXXXX", "XXX   Hello World@cvcvcvc"),
        ("abXcd", "cdYab"),
        ("", "abc"),
    ];
    for (a, b) in pairs {
        let substring = LCSubstring::new_substring(a.to_string(), b.to_string());
        let subsequence = LCSubsequence::new_subsequence(a.to_string(), b.to_string());
        assert!(substring.substring_len <= subsequence.subsequence_len);
    }
}

#[test]
fn lc_substring_leigh_right_is_shorter_than_the_subsequence() {
    let substring = LCSubstring::new_substring("leighxxxft".to_string(), "right".to_string());
    let subsequence = LCSubsequence::new_subsequence("leighxxxft".to_string(), "right".to_string());

    assert_eq!(substring.substring_len, 3);
    assert_eq!(substring.get_longest_substring(), Some("igh".to_string()));
    assert_eq!(subsequence.subsequence_len, 4);
}

#[test]
fn lc_substring_length_is_symmetric() {
    let pairs = [
        ("Why hello world you world hello", "subby world Why hello red car go fast"),
        ("abXcd", "cdYab"),
        ("", "abc"),
        ("banana", "ananas"),
    ];
    for (a, b) in pairs {
        let forth = LCSubstring::new_substring(a.to_string(), b.to_string());
        let back = LCSubstring::new_substring(b.to_string(), a.to_string());
        assert_eq!(forth.substring_len, back.substring_len);
    }
}

#[test]
fn lc_substring_answers_do_not_change() {
    let lcs = LCSubstring::new_substring("banana".to_string(), "ananas".to_string());

    let first = lcs.get_longest_substring();
    let second = lcs.get_longest_substring();
    assert_eq!(first, second);
    assert_eq!(first, Some("anana".to_string()));
    assert_eq!(lcs.length(), lcs.length());
    assert_eq!(lcs.length(), lcs.substring_len);
}

#[test]
fn lc_substring_text_occurs_in_both_inputs() {
    let pairs = [
        ("Why hello world you world hello", "subby world Why hello red car go fast"),
        ("!!!!Hello WorldXXXXX", "XXX   Hello World@cvcvcvc"),
        ("banana", "ananas"),
    ];
    for (a, b) in pairs {
        let lcs = LCSubstring::new_substring(a.to_string(), b.to_string());
        let text = lcs.get_longest_substring().unwrap();
        assert_eq!(text.chars().count(), lcs.substring_len);
        assert!(a.contains(&text));
        assert!(b.contains(&text));
    }
}
