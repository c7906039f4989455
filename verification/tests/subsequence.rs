use rs_algo::compare::LCSubsequence;

#[test]
fn lc_subsequence_test() {
    let a = String::from("abbtaabtca");
    let b = "ax3taaca";
    let lcs = LCSubsequence::new_subsequence(a, b.to_string());

    assert_eq!(lcs.subsequence_len, 6);
    assert_eq!(lcs.get_longest_subsequence(), Some("ataaca".to_string()));
}

#[test]
fn lc_subsequence_one_test() {
    let a = String::from("abbtaabtca");
    let b = "x";
    let lcs = LCSubsequence::new_subsequence(a, b.to_string());

    assert_eq!(lcs.subsequence_len, 0);
    assert_eq!(lcs.get_longest_subsequence(), None);
}

#[test]
fn lc_subsequence_empty_test() {
    let a = String::from("");
    let b = "";
    let lcs = LCSubsequence::new_subsequence(a, b.to_string());

    assert_eq!(lcs.subsequence_len, 0);
    assert_eq!(lcs.get_longest_subsequence(), None);
}

#[test]
fn lc_subsequence_leigh_right() {
    let lcs = LCSubsequence::new_subsequence("leighxxxft".to_string(), "right".to_string());

    assert_eq!(lcs.subsequence_len, 4);
    assert_eq!(lcs.length(), 4);
    assert_eq!(lcs.get_longest_subsequence(), Some("ight".to_string()));
}

#[test]
fn lc_subsequence_documented_example() {
    let lcs = LCSubsequence::new_subsequence("abttac".to_string(), "taccba".to_string());

    assert_eq!(lcs.subsequence_len, 3);
    assert_eq!(lcs.get_longest_subsequence(), Some("aba".to_string()));
}

#[test]
fn lc_subsequence_tie_steps_up_before_left() {
    // "a" and "b" are both longest; stepping up first finds "a".
    let lcs = LCSubsequence::new_subsequence("ab".to_string(), "ba".to_string());

    assert_eq!(lcs.subsequence_len, 1);
    assert_eq!(lcs.get_longest_subsequence(), Some("a".to_string()));

    let swapped = LCSubsequence::new_subsequence("ba".to_string(), "ab".to_string());
    assert_eq!(swapped.subsequence_len, 1);
    assert_eq!(swapped.get_longest_subsequence(), Some("b".to_string()));
}

#[test]
fn lc_subsequence_one_side_empty() {
    let left_empty = LCSubsequence::new_subsequence(String::new(), "right".to_string());
    assert_eq!(left_empty.subsequence_len, 0);
    assert_eq!(left_empty.get_longest_subsequence(), None);

    let right_empty = LCSubsequence::new_subsequence("left".to_string(), String::new());
    assert_eq!(right_empty.subsequence_len, 0);
    assert_eq!(right_empty.get_longest_subsequence(), None);
}

#[test]
fn lc_subsequence_identical_inputs() {
    let lcs = LCSubsequence::new_subsequence("banana".to_string(), "banana".to_string());

    assert_eq!(lcs.subsequence_len, 6);
    assert_eq!(lcs.get_longest_subsequence(), Some("banana".to_string()));
}

#[test]
fn lc_subsequence_keeps_whole_characters() {
    // Two-, three- and four-byte characters, the last one outside the
    // basic multilingual plane.
    let lcs = LCSubsequence::new_subsequence(
        "xé日y\u{1F600}z".to_string(),
        "é-日-\u{1F600}".to_string(),
    );

    assert_eq!(lcs.subsequence_len, 3);
    assert_eq!(lcs.get_longest_subsequence(), Some("é日\u{1F600}".to_string()));
}

#[test]
fn lc_subsequence_counts_characters_not_bytes() {
    let lcs = LCSubsequence::new_subsequence("ééé".to_string(), "éé".to_string());

    assert_eq!(lcs.subsequence_len, 2);
    assert_eq!(lcs.get_longest_subsequence(), Some("éé".to_string()));
}

#[test]
fn lc_subsequence_is_at_most_the_shorter_input() {
    let pairs = [
        ("abcdef", "ace"),
        ("", "abc"),
        ("aaaa", "aa"),
        ("xyz", "abcxyzabc"),
        ("leighxxxft", "right"),
    ];
    for (a, b) in pairs {
        let lcs = LCSubsequence::new_subsequence(a.to_string(), b.to_string());
        let shorter = a.chars().count().min(b.chars().count());
        assert!(lcs.subsequence_len <= shorter);
    }
}

#[test]
fn lc_subsequence_length_is_symmetric() {
    let pairs = [
        ("abbtaabtca", "ax3taaca"),
        ("leighxxxft", "right"),
        ("ab", "ba"),
        ("", "abc"),
        ("abttac", "taccba"),
    ];
    for (a, b) in pairs {
        let forth = LCSubsequence::new_subsequence(a.to_string(), b.to_string());
        let back = LCSubsequence::new_subsequence(b.to_string(), a.to_string());
        assert_eq!(forth.subsequence_len, back.subsequence_len);
    }
}

#[test]
fn lc_subsequence_answers_do_not_change() {
    let lcs = LCSubsequence::new_subsequence("abbtaabtca".to_string(), "ax3taaca".to_string());

    let first = lcs.get_longest_subsequence();
    let second = lcs.get_longest_subsequence();
    assert_eq!(first, second);
    assert_eq!(first, Some("ataaca".to_string()));
    assert_eq!(lcs.length(), lcs.length());
    assert_eq!(lcs.length(), lcs.subsequence_len);
}

fn lies_inside(part: &str, whole: &str) -> bool {
    let mut rest = whole.chars();
    part.chars().all(|wanted| rest.any(|found| found == wanted))
}

#[test]
fn lc_subsequence_text_lies_inside_both_inputs() {
    let pairs = [
        ("abbtaabtca", "ax3taaca"),
        ("leighxxxft", "right"),
        ("abttac", "taccba"),
        ("the quick brown fox", "a lazy dog jumps quickly"),
    ];
    for (a, b) in pairs {
        let lcs = LCSubsequence::new_subsequence(a.to_string(), b.to_string());
        let text = lcs.get_longest_subsequence().unwrap();
        assert_eq!(text.chars().count(), lcs.subsequence_len);
        assert!(lies_inside(&text, a));
        assert!(lies_inside(&text, b));
    }
}
