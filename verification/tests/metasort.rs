use flea::listing::Listing;
use flea::metasort::{order_by_stat, SortBy, Stat};

// A tree where each key disagrees with the others: 2 is the larger file and the oldest entry,
// 3 the smaller and the newest, 11 is older than 1, and 1 holds a file so its size is not 0.
// Pushed in an order that is none of the answers, each row with the stat the pass reads.
fn tree() -> (Listing, Vec<Stat>) {
    let mut l = Listing::new();
    let mut stats = Vec::new();
    l.push("3", false);
    stats.push(Stat { size: 1, mtime: 1003 });
    l.push("1", true);
    stats.push(Stat { size: 4096, mtime: 1002 });
    l.push("2", false);
    stats.push(Stat { size: 5, mtime: 1000 });
    l.push("11", true);
    stats.push(Stat { size: 0, mtime: 1001 });
    (l, stats)
}

fn names(l: &Listing) -> String {
    (0..l.len()).map(|i| l.name(i)).collect::<Vec<_>>().join(" ")
}

fn stats_of(l: &Listing, all: &[(&str, Stat)]) -> Vec<Stat> {
    (0..l.len())
        .map(|i| all.iter().find(|(n, _)| *n == l.name(i)).map(|(_, s)| *s).unwrap_or(Stat { size: 0, mtime: 0 }))
        .collect()
}

#[test]
fn size_lists_directories_first_by_name_then_files_by_size() {
    let (mut l, stats) = tree();
    order_by_stat(&mut l, &stats, SortBy::Size, false);
    assert_eq!(names(&l), "1 11 3 2");
}

#[test]
fn size_descending_keeps_directories_first_and_reverses_inside_each_group() {
    let (mut l, stats) = tree();
    order_by_stat(&mut l, &stats, SortBy::Size, true);
    assert_eq!(names(&l), "11 1 2 3");
}

#[test]
fn mtime_orders_both_groups_by_time_directories_still_first_in_both_directions() {
    let (mut l, stats) = tree();
    let all = [
        ("3", stats[0]),
        ("1", stats[1]),
        ("2", stats[2]),
        ("11", stats[3]),
    ];
    order_by_stat(&mut l, &stats, SortBy::Mtime, false);
    assert_eq!(
        names(&l),
        "11 1 2 3",
        "a build that lost the grouping answers 2 11 1 3"
    );
    let again = stats_of(&l, &all);
    order_by_stat(&mut l, &again, SortBy::Mtime, true);
    assert_eq!(names(&l), "1 11 3 2");
}

#[test]
fn equal_keys_fall_back_to_name_order_so_the_listing_is_the_same_every_run() {
    let set = ["b", "a", "B", "file_10", "file_2"];
    let same = Stat { size: 4, mtime: 7 };
    let mut once = Listing::new();
    let mut again = Listing::new();
    for n in set {
        once.push(n, false);
    }
    for n in set.iter().rev() {
        again.push(n, false);
    }
    let stats = vec![same; set.len()];
    order_by_stat(&mut once, &stats, SortBy::Size, false);
    order_by_stat(&mut again, &stats, SortBy::Size, false);
    assert_eq!(
        names(&once),
        "a B b file_2 file_10",
        "the tie-break is the name order, digits by value"
    );
    assert_eq!(names(&once), names(&again), "whatever readdir said");
}

#[test]
fn a_vanished_row_sorts_as_empty_and_an_empty_listing_does_not_panic() {
    let mut l = Listing::new();
    l.push("real", false);
    l.push("zzz-gone", false);
    let stats = vec![Stat { size: 3, mtime: 5 }, Stat { size: 0, mtime: 0 }];
    order_by_stat(&mut l, &stats, SortBy::Size, false);
    assert_eq!(
        names(&l),
        "zzz-gone real",
        "the zeroes a vanished row reads as sort as the smallest"
    );
    let mut empty = Listing::new();
    order_by_stat(&mut empty, &Vec::new(), SortBy::Mtime, true);
    assert_eq!(empty.len(), 0);
}

#[test]
fn the_gather_moves_spans_and_leaves_every_name_and_flag_intact() {
    let (mut l, stats) = tree();
    let mut before: Vec<(String, bool)> = (0..l.len())
        .map(|i| (l.name(i).to_string(), l.is_dir(i)))
        .collect();
    order_by_stat(&mut l, &stats, SortBy::Mtime, true);
    let mut after: Vec<(String, bool)> = (0..l.len())
        .map(|i| (l.name(i).to_string(), l.is_dir(i)))
        .collect();
    before.sort();
    after.sort();
    assert_eq!(
        before, after,
        "a sort is a permutation of the rows and nothing else"
    );
}

#[test]
fn the_name_order_groups_directories_first_in_both_directions() {
    let (mut l, stats) = tree();
    order_by_stat(&mut l, &stats, SortBy::Name, false);
    assert_eq!(names(&l), "1 11 2 3");
    let (mut l, stats) = tree();
    order_by_stat(&mut l, &stats, SortBy::Name, true);
    assert_eq!(names(&l), "11 1 3 2");
}
