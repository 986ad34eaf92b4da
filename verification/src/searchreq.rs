//! The request side of a search: the loop hands it a slice of walking and it decides what to
//! say. The caller writes what it decided, with the times it keeps.
use vstd::prelude::*;
use crate::listing::Listing;
use crate::search::{finished, ranked, stepped, Search};

verus! {

/// What a slice of search has to tell the client.
#[derive(Debug, Clone, Copy, PartialEq, Eq, Structural)]
pub enum SearchNote {
    /// Nothing this time.
    Quiet,
    /// The walk goes on: the matches so far and the entries counted.
    Searching { count: usize, scanned: usize },
    /// The walk is over and its rows are ranked: the final count, the entries counted, and
    /// whether it was cancelled.
    Searched { count: usize, scanned: usize, cancelled: bool },
}

/// Ends the search, if there is one: its rows are ranked before the closing note, so every row
/// index the client still holds names a different file the moment the note arrives. Answers
/// whether the rows were reordered, and the note.
pub fn finish_search(search: &mut Option<Search>, listing: &mut Listing, cancelled: bool) -> (r: (
    bool,
    SearchNote,
))
    ensures
        (*final(search)) is None,
        match *old(search) {
            None => r == (false, SearchNote::Quiet) && final(listing)@ == old(listing)@,
            Some(s) => {
                &&& ranked(s, old(listing)@, final(listing)@, r.0)
                &&& r.1 == SearchNote::Searched {
                    count: final(listing)@.len() as usize,
                    scanned: s.counted(),
                    cancelled,
                }
            },
        },
{
    let s = match search.take() {
        Some(s) => s,
        None => return (false, SearchNote::Quiet),
    };
    let reordered = s.rank(listing);
    (reordered, SearchNote::Searched { count: listing.len(), scanned: s.scanned(), cancelled })
}

/// One bounded slice of the search, so a cancel or a keystroke is never behind a whole
/// subtree. A finished walk is ended as `finish_search` ends it; an unfinished one reports its
/// progress when a report is due. Answers whether the rows were reordered, and the note.
pub fn step_search<F: Fn(&str, &str) -> Option<Vec<(String, bool)>>>(
    search: &mut Option<Search>,
    listing: &mut Listing,
    report_due: bool,
    read: F,
) -> (r: (bool, SearchNote))
    requires
        forall|a: &str, b: &str| #[trigger] call_requires(read, (a, b)),
    ensures
        match *old(search) {
            None => r == (false, SearchNote::Quiet) && (*final(search)) is None && final(listing)@
                == old(listing)@,
            Some(s) => exists|s2: Search, l2: Seq<(Seq<char>, bool)>|
                {
                    &&& #[trigger] stepped(s, old(listing)@, s2, l2, read)
                    &&& if finished(s2, l2) {
                        &&& (*final(search)) is None
                        &&& ranked(s2, l2, final(listing)@, r.0)
                        &&& r.1 == SearchNote::Searched {
                            count: final(listing)@.len() as usize,
                            scanned: s2.counted(),
                            cancelled: false,
                        }
                    } else {
                        &&& *final(search) == Some(s2)
                        &&& final(listing)@ == l2
                        &&& !r.0
                        &&& r.1 == if report_due {
                            SearchNote::Searching { count: l2.len() as usize, scanned: s2.counted() }
                        } else {
                            SearchNote::Quiet
                        }
                    }
                },
        },
{
    let mut s = match search.take() {
        Some(s) => s,
        None => return (false, SearchNote::Quiet),
    };
    let ghost l1 = listing@;
    let done = s.step(listing, read);
    let ghost s2 = s;
    let ghost l2 = listing@;
    if done {
        *search = Some(s);
        let r = finish_search(search, listing, false);
        assert(stepped((*old(search))->0, l1, s2, l2, read));
        return r;
    }
    let note = if report_due {
        SearchNote::Searching { count: listing.len(), scanned: s.scanned() }
    } else {
        SearchNote::Quiet
    };
    *search = Some(s);
    assert(stepped((*old(search))->0, l1, s2, l2, read));
    (false, note)
}

} // verus!
