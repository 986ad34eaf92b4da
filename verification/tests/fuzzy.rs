use flea::fuzzy::{rank_order, Fuzzy};
use std::cmp::Ordering;

fn score(hay: &str, query: &str) -> Option<i32> {
    Fuzzy::new(query).score(hay)
}

#[test]
fn the_operators_own_example_matches_across_the_separator() {
    assert!(score("downloads/helper.txt", "dwnhelp").is_some());
    assert!(score("downloads/helper.txt", "help").is_some());
    assert!(score("downloads/helper.txt", "zzz").is_none());
}

#[test]
fn a_query_out_of_order_is_not_a_match() {
    assert!(score("helper.txt", "pleh").is_none());
    assert!(score("abc", "abcd").is_none());
}

#[test]
fn case_folds_both_ways_including_beyond_ascii() {
    assert!(score("Bench-Notes.md", "bench").is_some());
    assert!(score("BENCH", "bench").is_some());
    assert!(score("CAFÉ.txt", "café").is_some());
    assert!(score("café.txt", "CAFÉ").is_some());
}

#[test]
fn an_empty_query_matches_every_candidate() {
    assert_eq!(score("anything", ""), Some(0));
    assert_eq!(score("", ""), Some(0));
}

#[test]
fn a_contiguous_run_beats_a_scattered_one() {
    let s_run = score("report.txt", "rep").unwrap();
    let s_scattered = score("raspberry-pie.txt", "rep").unwrap();
    assert!(s_run > s_scattered, "run {} scattered {}", s_run, s_scattered);
}

#[test]
fn a_boundary_start_beats_one_inside_a_word() {
    let s_boundary = score("my-notes.txt", "notes").unwrap();
    let s_inside = score("bignotes.txt", "notes").unwrap();
    assert!(s_boundary > s_inside, "boundary {} inside {}", s_boundary, s_inside);
}

#[test]
fn a_camel_hump_counts_as_a_boundary() {
    let s_hump = score("SearchStrip.qml", "strip").unwrap();
    let s_flat = score("searchstrip.qml", "strip").unwrap();
    assert!(s_hump > s_flat, "hump {} flat {}", s_hump, s_flat);
}

#[test]
fn a_match_in_the_name_beats_one_in_a_parent_directory() {
    let s_name = score("notes/bench.txt", "bench").unwrap();
    let s_parent = score("bench/notes.txt", "bench").unwrap();
    assert!(s_name > s_parent, "name {} parent {}", s_name, s_parent);
}

#[test]
fn a_later_start_can_score_better_than_the_first_one() {
    let s = score("axxab", "ab").unwrap();
    let greedy_only = score("axxb", "ab").unwrap();
    assert!(s > greedy_only, "restarted {} greedy {}", s, greedy_only);
}

#[test]
fn a_pathological_name_is_scored_from_a_bounded_number_of_starts() {
    let hay = "a".repeat(4096);
    assert!(score(&hay, "aa").is_some());
}

#[test]
fn exact_scores_follow_the_bonuses_and_the_gap_penalty() {
    // "ab" in "ab": boundary+base at 0 (6+4), then run+base at 1 (8+4).
    assert_eq!(score("ab", "ab"), Some(22));
    // "ab" in "axb": 10 for the start, then a gap of one (-1) and base (4).
    assert_eq!(score("axb", "ab"), Some(13));
    // A match in a parent directory loses the base bonus: "d/x" scores "d" at 0 with 6 only.
    assert_eq!(score("d/x", "d"), Some(6));
    // The one scorer keeps its query across candidates.
    let mut f = Fuzzy::new("AB");
    assert_eq!(f.score("ab"), Some(22));
    assert_eq!(f.score("zz"), None);
}

#[test]
fn the_rank_order_is_total_so_one_tree_answers_in_one_order() {
    assert_eq!(rank_order(9, "a.txt", 4, "b.txt"), Ordering::Less);
    assert_eq!(rank_order(4, "a.txt", 9, "b.txt"), Ordering::Greater);
    assert_eq!(rank_order(4, "a.txt", 4, "bb.txt"), Ordering::Less);
    assert_eq!(rank_order(4, "b.txt", 4, "a.txt"), Ordering::Greater);
    assert_eq!(rank_order(4, "a.txt", 4, "a.txt"), Ordering::Equal);
}

#[test]
fn the_rank_order_measures_names_in_bytes() {
    // "é" is two bytes, so the one-character accented name is the longer one.
    assert_eq!(rank_order(1, "é", 1, "ab"), Ordering::Greater);
    assert_eq!(rank_order(1, "file_2", 1, "file_10"), Ordering::Less);
}

#[test]
fn a_reused_scorer_answers_as_a_fresh_one() {
    let mut f = Fuzzy::new("help");
    let _ = f.score("a much longer candidate holding help somewhere");
    let _ = f.score("zzz");
    assert_eq!(f.score("downloads/helper.txt"), Fuzzy::new("help").score("downloads/helper.txt"));
}

#[test]
fn a_long_candidate_is_scored_for_a_short_query() {
    let mut long = "x".repeat(1000);
    long.push_str("/help.txt");
    assert!(score(&long, "help").is_some());
    assert!(score(&long, "zq").is_none());
}
