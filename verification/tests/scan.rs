use flea::scan::{listing_of, shows};

fn entries(list: &[(&str, bool)]) -> Vec<(String, bool)> {
    list.iter().map(|(n, d)| (n.to_string(), *d)).collect()
}

#[test]
fn reads_files_and_marks_directories() {
    let l = listing_of(&entries(&[("a.txt", false), ("sub", true)]), false);
    assert_eq!(l.len(), 2);
    assert_eq!(l.name(0), "a.txt");
    assert!(!l.is_dir(0));
    assert_eq!(l.name(1), "sub");
    assert!(l.is_dir(1));
}

#[test]
fn an_empty_directory_yields_an_empty_listing() {
    assert_eq!(listing_of(&Vec::new(), false).len(), 0);
}

#[test]
fn a_dotfile_is_skipped_by_default_and_listed_when_hidden_is_true() {
    let e = entries(&[(".dotfile", false), (".dotdir", true), ("plain.txt", false)]);
    let visible = listing_of(&e, false);
    assert_eq!(visible.len(), 1);
    assert_eq!(visible.name(0), "plain.txt");
    let all = listing_of(&e, true);
    let names: Vec<&str> = (0..all.len()).map(|i| all.name(i)).collect();
    assert_eq!(names, [".dotfile", ".dotdir", "plain.txt"]);
    assert!(all.is_dir(1));
}

#[test]
fn only_a_leading_dot_hides_a_name() {
    assert!(!shows(".", false));
    assert!(shows("a.b", false));
    assert!(shows("", false));
    assert!(shows(".x", true));
}
