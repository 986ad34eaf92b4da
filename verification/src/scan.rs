//! The first phase of a listing, which never stats: the entries a directory read gave, each
//! with the directory bit its type gave, become rows in the order they were read.
use vstd::prelude::*;
use crate::listing::{row_view, Listing};
use crate::text::chars_of;

verus! {

broadcast use vstd::string::group_string_axioms;

/// A name the listing shows: a dot-prefixed name is dropped unless hidden entries were asked
/// for, the shell's own dotfile convention.
pub open spec fn shown(name: Seq<char>, hidden: bool) -> bool {
    hidden || !(name.len() > 0 && name[0] == '.')
}

/// The rows of the entries `es` that are shown, in order.
pub open spec fn shown_rows(es: Seq<(Seq<char>, bool)>, hidden: bool) -> Seq<(Seq<char>, bool)>
    decreases es.len(),
{
    if es.len() == 0 {
        Seq::empty()
    } else if shown(es.last().0, hidden) {
        shown_rows(es.drop_last(), hidden).push(es.last())
    } else {
        shown_rows(es.drop_last(), hidden)
    }
}

/// Whether the listing shows an entry named `name`.
pub fn shows(name: &str, hidden: bool) -> (r: bool)
    ensures
        r == shown(name@, hidden),
{
    if hidden {
        return true;
    }
    let n = chars_of(name);
    !(n.len() > 0 && n[0] == '.')
}

/// The listing of a directory from the entries its read gave, each a name and a directory bit.
pub fn listing_of(entries: &Vec<(String, bool)>, hidden: bool) -> (r: Listing)
    ensures
        r@ == shown_rows(entries@.map_values(|e: (String, bool)| row_view(e)), hidden),
{
    let ghost es = entries@.map_values(|e: (String, bool)| row_view(e));
    let mut l = Listing::new();
    let mut i: usize = 0;
    assert(es.take(0) =~= Seq::<(Seq<char>, bool)>::empty());
    while i < entries.len()
        invariant
            i <= entries.len(),
            es == entries@.map_values(|e: (String, bool)| row_view(e)),
            l@ == shown_rows(es.take(i as int), hidden),
        decreases entries.len() - i,
    {
        assert(es.take(i + 1).drop_last() =~= es.take(i as int));
        let name = entries[i].0.as_str();
        if shows(name, hidden) {
            l.push(name, entries[i].1);
        }
        i = i + 1;
    }
    assert(es.take(entries.len() as int) =~= es);
    l
}

} // verus!
