use flea::order::{lex_sign, name_sign, natural_sign, rank_sign};

fn sorted(names: &[&str]) -> Vec<String> {
    let mut v: Vec<String> = names.iter().map(|s| s.to_string()).collect();
    v.sort_by(|a, b| name_sign(a.as_bytes(), b.as_bytes()).cmp(&0));
    v
}

#[test]
fn digits_compare_by_value_and_case_folds_with_bytes_breaking_ties() {
    assert_eq!(sorted(&["file_10", "b", "file_2", "B", "a"]), ["a", "B", "b", "file_2", "file_10"]);
}

#[test]
fn leading_zeros_tie_on_value_and_fall_back_to_bytes() {
    assert_eq!(natural_sign(b"01", b"1"), 0);
    assert_eq!(name_sign(b"01", b"1"), -1);
    assert_eq!(name_sign(b"1", b"01"), 1);
    assert_eq!(natural_sign(b"x9", b"x10"), -1);
    assert_eq!(natural_sign(b"x100", b"x99"), 1);
}

#[test]
fn a_prefix_comes_first_and_equal_names_tie() {
    assert_eq!(name_sign(b"abc", b"abcd"), -1);
    assert_eq!(name_sign(b"abc", b"abc"), 0);
    assert_eq!(lex_sign(b"", b""), 0);
    assert_eq!(lex_sign(b"a", b""), 1);
}

#[test]
fn a_digit_run_against_punctuation_or_a_letter_compares_by_its_first_byte() {
    assert_eq!(natural_sign(b"1", b"-"), 1);
    assert_eq!(natural_sign(b"1", b"a"), -1);
    assert_eq!(natural_sign(b"Z", b"a"), 1);
}

#[test]
fn the_rank_puts_the_better_score_then_the_shorter_name_first() {
    assert_eq!(rank_sign(9, b"zzz", 4, b"a"), -1);
    assert_eq!(rank_sign(4, b"a.txt", 4, b"bb.txt"), -1);
    assert_eq!(rank_sign(4, b"b.txt", 4, b"a.txt"), 1);
    assert_eq!(rank_sign(4, b"a.txt", 4, b"a.txt"), 0);
}
