use flea::listing::Listing;
use flea::search::Search;
use flea::searchreq::{finish_search, step_search, SearchNote};

fn tree(rel: &str) -> Option<Vec<(String, bool)>> {
    match rel {
        "" => Some(vec![("b.txt".to_string(), false), ("a.txt".to_string(), false)]),
        _ => None,
    }
}

#[test]
fn no_search_means_nothing_to_say() {
    let mut search: Option<Search> = None;
    let mut l = Listing::new();
    assert_eq!(
        step_search(&mut search, &mut l, true, |_: &str, rel: &str| tree(rel)),
        (false, SearchNote::Quiet)
    );
    assert_eq!(finish_search(&mut search, &mut l, true), (false, SearchNote::Quiet));
}

#[test]
fn a_finished_walk_is_ranked_and_announced_once() {
    let mut search = Some(Search::new("/r", "txt", false));
    let mut l = Listing::new();
    let (reordered, note) = step_search(&mut search, &mut l, false, |_: &str, rel: &str| tree(rel));
    assert!(reordered);
    assert_eq!(note, SearchNote::Searched { count: 2, scanned: 2, cancelled: false });
    assert!(search.is_none());
    assert_eq!(l.name(0), "a.txt");
    assert_eq!(l.name(1), "b.txt");
}

#[test]
fn an_unfinished_walk_reports_only_when_a_report_is_due() {
    let deep = |_: &str, rel: &str| -> Option<Vec<(String, bool)>> {
        if rel.len() < 40 {
            Some(vec![("d".to_string(), true), ("f.txt".to_string(), false)])
        } else {
            Some(Vec::new())
        }
    };
    let mut search = Some(Search::new("/r", "f", false));
    let mut l = Listing::new();
    let (r1, n1) = step_search(&mut search, &mut l, false, deep);
    assert!(!r1);
    assert_eq!(n1, SearchNote::Quiet);
    let (r2, n2) = step_search(&mut search, &mut l, true, deep);
    assert!(!r2);
    match n2 {
        SearchNote::Searching { count, scanned } => {
            assert_eq!(count, l.len());
            assert_eq!(scanned, 16);
        }
        other => panic!("expected a progress note, got {:?}", other),
    }
    assert!(search.is_some());
}

#[test]
fn a_cancelled_search_still_ranks_what_it_found() {
    let mut search = Some(Search::new("/r", "txt", false));
    let mut l = Listing::new();
    let mut s = search.take().unwrap();
    s.step(&mut l, |_: &str, rel: &str| tree(rel));
    search = Some(s);
    let (reordered, note) = finish_search(&mut search, &mut l, true);
    assert!(reordered);
    assert_eq!(note, SearchNote::Searched { count: 2, scanned: 2, cancelled: true });
    assert!(search.is_none());
}
