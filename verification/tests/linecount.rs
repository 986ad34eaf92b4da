use flea::linecount::{failed, LineCount, LineCounter, LINE_BUDGET};

fn count(chunks: &[&[u8]]) -> LineCount {
    let mut c = LineCounter::new();
    for chunk in chunks {
        if let Some(partial) = c.feed(chunk) {
            return partial;
        }
    }
    c.finish()
}

#[test]
fn a_file_that_cannot_be_opened_is_not_an_empty_one() {
    let empty = count(&[]);
    let denied = failed();
    assert_eq!(
        (empty.lines, empty.partial, empty.failed),
        (0, false, false),
        "an empty file really has no lines"
    );
    assert_eq!(
        (denied.lines, denied.partial, denied.failed),
        (0, false, true),
        "a file that could not be opened has no count at all"
    );
}

#[test]
fn a_last_line_without_a_newline_still_counts() {
    assert_eq!(count(&[b"a\nb\nc\n"]).lines, 3);
    assert_eq!(count(&[b"a\nb\nc"]).lines, 3);
    assert_eq!(count(&[b"x"]).lines, 1);
    assert_eq!(count(&[b"\n"]).lines, 1);
    assert_eq!(count(&[b"\n\n"]).lines, 2);
}

#[test]
fn chunk_boundaries_do_not_change_the_count() {
    let whole = count(&[b"one\ntwo\nthree"]);
    let split = count(&[b"one\nt", b"wo", b"\nthree"]);
    assert_eq!(whole, split);
    assert_eq!(split, LineCount { lines: 3, partial: false, failed: false });
}

#[test]
fn the_budget_stops_the_count_and_says_so() {
    assert_eq!(LINE_BUDGET, 1 << 20);
    let big = vec![b'\n'; LINE_BUDGET as usize];
    let mut c = LineCounter::new();
    let first = c.feed(&big[..10]);
    assert!(first.is_none());
    let done = c.feed(&big[10..]).expect("the budget is reached");
    assert_eq!(done, LineCount { lines: LINE_BUDGET, partial: true, failed: false });
}

#[test]
fn a_chunk_that_crosses_the_budget_counts_only_what_lies_inside_it() {
    let mut chunk = vec![b'a'; LINE_BUDGET as usize - 1];
    chunk.extend_from_slice(b"\n\n\n");
    let r = count(&[&chunk]);
    assert_eq!(r, LineCount { lines: 1, partial: true, failed: false });
}

#[test]
fn the_counter_asks_for_no_more_than_its_budget_has_left() {
    let mut c = LineCounter::new();
    assert_eq!(c.remaining(), LINE_BUDGET);
    assert!(c.feed(&vec![b'\n'; 10]).is_none());
    assert_eq!(c.remaining(), LINE_BUDGET - 10);
    let last = c.feed(b"\n\n").map(|_| ());
    assert!(last.is_none());
    let rest = vec![b'x'; (LINE_BUDGET - 12) as usize];
    let done = c.feed(&rest).expect("the budget is reached");
    assert_eq!(done, LineCount { lines: 12, partial: true, failed: false });
}
