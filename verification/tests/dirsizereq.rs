use flea::dirsizereq::{queue_dirsizes, walk_one_dirsize};
use flea::listing::Listing;
use std::collections::HashMap;

fn listing() -> Listing {
    let mut l = Listing::new();
    l.push("a", true);
    l.push("f.txt", false);
    l.push("b", true);
    l
}

#[test]
fn only_directories_of_the_listing_are_queued_and_once_each() {
    let l = listing();
    let sizes = HashMap::new();
    let mut queue = Vec::new();
    let answers = queue_dirsizes(&l, &sizes, &mut queue, &[0, 1, 2, 0, 7]);
    assert!(answers.is_empty());
    assert_eq!(queue, [0, 2]);
}

#[test]
fn a_measured_row_is_answered_again_at_once() {
    let l = listing();
    let mut sizes = HashMap::new();
    sizes.insert(2, (4096u64, true));
    let mut queue = vec![0];
    let answers = queue_dirsizes(&l, &sizes, &mut queue, &[2, 0, 2]);
    assert_eq!(answers, [(2, 4096, true), (2, 4096, true)]);
    assert_eq!(queue, [0]);
}

#[test]
fn the_walker_measures_the_first_queued_row_and_remembers_it() {
    let l = listing();
    let mut sizes = HashMap::new();
    let mut queue = vec![2, 0];
    let seen = std::cell::RefCell::new(Vec::new());
    let r = walk_one_dirsize(&l, &mut sizes, &mut queue, |name: &str| {
        seen.borrow_mut().push(name.to_string());
        (123, false)
    });
    assert_eq!(r, Some((2, 123, false)));
    assert_eq!(queue, [0]);
    assert_eq!(sizes.get(&2), Some(&(123, false)));
    assert_eq!(*seen.borrow(), ["b"]);
}

#[test]
fn a_row_the_listing_no_longer_has_is_dropped_unmeasured() {
    let l = listing();
    let mut sizes = HashMap::new();
    let mut queue = vec![9, 0];
    let r = walk_one_dirsize(&l, &mut sizes, &mut queue, |_: &str| -> (u64, bool) {
        panic!("a vanished row is never walked")
    });
    assert_eq!(r, None);
    assert_eq!(queue, [0]);
    assert!(sizes.is_empty());
}
