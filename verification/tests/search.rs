use flea::listing::Listing;
use flea::search::{Search, DIRS_PER_TICK};
use std::collections::HashMap;

// A directory tree as a walk reads it: each directory, relative to the root, with its entries
// and their directory bits, in the order the directory lists them.
struct Tree {
    dirs: HashMap<String, Vec<(String, bool)>>,
}

impl Tree {
    // Every sandbox root carries its marker file, as the real sandbox does.
    fn new() -> Tree {
        let mut dirs = HashMap::new();
        dirs.insert(String::new(), vec![(".flea-test-sandbox".to_string(), false)]);
        Tree { dirs }
    }

    fn dir(&mut self, path: &str) {
        self.add(path, true);
        self.dirs.entry(path.to_string()).or_default();
    }

    fn file(&mut self, path: &str) {
        self.add(path, false);
    }

    fn add(&mut self, path: &str, is_dir: bool) {
        let (parent, name) = match path.rfind('/') {
            Some(i) => (&path[..i], &path[i + 1..]),
            None => ("", path),
        };
        self.dirs
            .entry(parent.to_string())
            .or_default()
            .push((name.to_string(), is_dir));
    }

    fn read(&self, rel: &str) -> Option<Vec<(String, bool)>> {
        self.dirs.get(rel).cloned()
    }
}

fn walk_all(tree: &Tree, query: &str, hidden: bool) -> (Listing, Search) {
    let mut s = Search::new("/sandbox", query, hidden);
    let mut l = Listing::new();
    while !s.step(&mut l, |_: &str, rel: &str| tree.read(rel)) {}
    s.rank(&mut l);
    (l, s)
}

fn names(l: &Listing) -> Vec<String> {
    (0..l.len()).map(|i| l.name(i).to_string()).collect()
}

fn sorted_names(l: &Listing) -> Vec<String> {
    let mut v = names(l);
    v.sort();
    v
}

#[test]
fn matches_are_paths_relative_to_the_root() {
    let mut t = Tree::new();
    t.dir("tools");
    t.dir("tools/benches");
    t.file("tools/benches/bench-run.sh");
    t.file("unrelated.txt");

    let (l, s) = walk_all(&t, "bench", false);
    assert_eq!(
        sorted_names(&l),
        ["tools/benches", "tools/benches/bench-run.sh"]
    );
    assert_eq!(s.scanned, 4);
    for i in 0..l.len() {
        if l.name(i) == "tools/benches" {
            assert!(l.is_dir(i));
        }
    }
}

#[test]
fn a_query_spanning_a_separator_finds_the_file() {
    let mut t = Tree::new();
    t.dir("downloads");
    t.file("downloads/helper.txt");

    let (l, _) = walk_all(&t, "dwnhelp", false);
    assert_eq!(names(&l), ["downloads/helper.txt"]);
}

#[test]
fn results_arrive_ranked_rather_than_in_discovery_order() {
    let mut t = Tree::new();
    t.dir("bench");
    t.file("bench/unrelated-notes.txt");
    t.file("bench.txt");

    let (l, _) = walk_all(&t, "bench", false);
    assert_eq!(
        names(&l),
        ["bench", "bench.txt", "bench/unrelated-notes.txt"]
    );
}

#[test]
fn hidden_is_false_by_default_and_true_descends_dot_directories() {
    let mut t = Tree::new();
    t.dir(".git");
    t.file(".git/bench.log");
    t.file("bench.txt");

    let (visible, vs) = walk_all(&t, "bench", false);
    assert_eq!(sorted_names(&visible), ["bench.txt"]);
    assert_eq!(vs.scanned, 1);

    let (all, _) = walk_all(&t, "bench", true);
    assert_eq!(sorted_names(&all), [".git/bench.log", "bench.txt"]);
}

#[test]
fn a_symlink_to_a_parent_directory_is_never_descended() {
    let mut t = Tree::new();
    t.dir("sub");
    t.file("sub/bench.txt");
    // A symlink reports its own type, so a link to a directory is listed as no directory.
    t.file("sub/up");

    let (l, _) = walk_all(&t, "bench", false);
    assert_eq!(sorted_names(&l), ["sub/bench.txt"]);
}

#[test]
fn a_missing_root_finishes_with_nothing_rather_than_failing() {
    let mut s = Search::new("/definitely/not/here", "x", false);
    let mut l = Listing::new();
    assert!(s.step(&mut l, |_: &str, _: &str| None));
    assert_eq!(l.len(), 0);
    assert_eq!(s.scanned, 0);
}

#[test]
fn a_step_reads_a_bounded_slice_so_a_cancel_is_never_blocked() {
    let mut t = Tree::new();
    for i in 0..DIRS_PER_TICK + 3 {
        t.dir(&format!("d{}", i));
    }
    let mut s = Search::new("/sandbox", "zzz", false);
    let mut l = Listing::new();
    assert!(!s.step(&mut l, |_: &str, rel: &str| t.read(rel)));
}

#[test]
fn a_listing_the_walk_did_not_fill_is_never_reordered() {
    let s = Search::new("/definitely/not/here", "x", false);
    let mut l = Listing::new();
    l.push("b.txt", false);
    l.push("a.txt", false);
    assert!(!s.rank(&mut l));
    assert_eq!(names(&l), ["b.txt", "a.txt"]);
}

#[test]
fn the_reader_is_handed_the_root_and_each_directory_path() {
    let mut t = Tree::new();
    t.dir("a");
    t.dir("a/b");
    let seen = std::cell::RefCell::new(Vec::new());
    let mut s = Search::new("/sandbox", "q", false);
    let mut l = Listing::new();
    while !s.step(&mut l, |root: &str, rel: &str| {
        seen.borrow_mut().push(format!("{}|{}", root, rel));
        t.read(rel)
    }) {}
    assert_eq!(*seen.borrow(), ["/sandbox|", "/sandbox|a", "/sandbox|a/b"]);
}

#[test]
fn equal_scores_rank_the_shorter_path_then_the_name_order() {
    let mut t = Tree::new();
    t.file("x10");
    t.file("x9");
    t.file("x2");
    let (l, s) = walk_all(&t, "x", false);
    assert_eq!(s.scanned, 3);
    assert_eq!(names(&l), ["x2", "x9", "x10"]);
}

#[test]
fn a_walk_already_in_rank_order_reports_no_change() {
    let mut t = Tree::new();
    t.file("bench.txt");
    t.file("bench-long.txt");
    let mut s = Search::new("/sandbox", "bench", false);
    let mut l = Listing::new();
    while !s.step(&mut l, |_: &str, rel: &str| t.read(rel)) {}
    assert_eq!(names(&l), ["bench.txt", "bench-long.txt"]);
    assert!(!s.rank(&mut l));
    assert_eq!(names(&l), ["bench.txt", "bench-long.txt"]);
}

#[test]
fn a_walk_out_of_rank_order_reports_the_change() {
    let mut t = Tree::new();
    t.file("bench-long.txt");
    t.file("bench.txt");
    let mut s = Search::new("/sandbox", "bench", false);
    let mut l = Listing::new();
    while !s.step(&mut l, |_: &str, rel: &str| t.read(rel)) {}
    assert!(s.rank(&mut l));
    assert_eq!(names(&l), ["bench.txt", "bench-long.txt"]);
}
