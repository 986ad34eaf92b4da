//! The MIME alias table, one "alias canonical" pair per line, and the lookup that settles a
//! type on its canonical name.
use vstd::prelude::*;
use crate::table::Table;
use crate::text::{chars_of, find_char, find_in, line_spans, lines, spans_text, string_of, trim, trim_span};

verus! {

/// What one line of the table contributes: the alias and its canonical name, both trimmed.
/// A blank line, a comment, a line with no space, or a pair with an empty side contributes nothing.
pub open spec fn alias_entry(line: Seq<char>) -> Option<(Seq<char>, Seq<char>)> {
    let t = trim(line);
    if t.len() == 0 || t[0] == '#' {
        None
    } else {
        let i = find_char(t, ' ');
        if i >= t.len() {
            None
        } else {
            let alias = trim(t.take(i));
            let canonical = trim(t.skip(i + 1));
            if alias.len() > 0 && canonical.len() > 0 {
                Some((alias, canonical))
            } else {
                None
            }
        }
    }
}

/// The table that a sequence of lines describes: each pair inserted in turn, so a later
/// line for the same alias wins.
pub open spec fn alias_table(ls: Seq<Seq<char>>) -> Map<Seq<char>, Seq<char>>
    decreases ls.len(),
{
    if ls.len() == 0 {
        Map::empty()
    } else {
        let m = alias_table(ls.drop_last());
        match alias_entry(ls.last()) {
            Some(e) => m.insert(e.0, e.1),
            None => m,
        }
    }
}

/// The name `mime` settles on through the table: its canonical name, or itself when it is no
/// alias.
pub open spec fn settle(m: Map<Seq<char>, Seq<char>>, mime: Seq<char>) -> Seq<char> {
    if m.contains_key(mime) {
        m[mime]
    } else {
        mime
    }
}

/// Where no canonical name is itself an alias, as in the shared MIME database, one lookup
/// settles a type: looking its answer up again changes nothing, and an alias and its canonical
/// name settle on the same name.
pub proof fn law_one_hop_settles_a_type(m: Map<Seq<char>, Seq<char>>, mime: Seq<char>)
    requires
        forall|k: Seq<char>| #[trigger] m.contains_key(k) ==> !m.contains_key(m[k]),
    ensures
        settle(m, settle(m, mime)) == settle(m, mime),
        m.contains_key(mime) ==> settle(m, m[mime]) == settle(m, mime),
{
}

/// The alias table: alias to canonical name.
pub struct Aliases {
    to_canonical: Table,
}

impl View for Aliases {
    type V = Map<Seq<char>, Seq<char>>;

    closed spec fn view(&self) -> Map<Seq<char>, Seq<char>> {
        self.to_canonical@
    }
}

impl Aliases {
    /// Reads a table in the format of /usr/share/mime/aliases.
    pub fn from_str(text: &str) -> (r: Aliases)
        ensures
            r@ == alias_table(lines(text@)),
    {
        let v = chars_of(text);
        let spans = line_spans(&v);
        let mut to_canonical = Table::new();
        let mut k: usize = 0;
        while k < spans.len()
            invariant
                v@ == text@,
                spans_text(v@, spans@) == lines(v@),
                forall|i: int| 0 <= i < spans.len() ==> (#[trigger] spans@[i]).0 <= spans@[i].1
                    <= v.len(),
                k <= spans.len(),
                to_canonical@ == alias_table(spans_text(v@, spans@).take(k as int)),
            decreases spans.len() - k,
        {
            let (lo, hi) = spans[k];
            let ghost line = v@.subrange(lo as int, hi as int);
            let ghost ls = spans_text(v@, spans@).take(k + 1);
            assert(ls.drop_last() =~= spans_text(v@, spans@).take(k as int));
            assert(ls.last() == line);
            let (a, b) = trim_span(&v, lo, hi);
            let ghost t = v@.subrange(a as int, b as int);
            if a < b && v[a] != '#' {
                let j = find_in(&v, a, b, ' ');
                if j < b {
                    let (a1, a2) = trim_span(&v, a, j);
                    let (c1, c2) = trim_span(&v, j + 1, b);
                    assert(v@.subrange(a as int, j as int) =~= t.take(j - a));
                    assert(v@.subrange(j + 1, b as int) =~= t.skip(j - a + 1));
                    if a1 < a2 && c1 < c2 {
                        let alias = string_of(&v, a1, a2);
                        let canonical = string_of(&v, c1, c2);
                        to_canonical.insert(alias, canonical);
                    }
                }
            }
            k = k + 1;
        }
        assert(spans_text(v@, spans@).take(k as int) =~= spans_text(v@, spans@));
        Aliases { to_canonical }
    }

    /// The canonical name of `mime`, or `mime` itself when it is no alias.
    pub fn canonical<'a>(&'a self, mime: &'a str) -> (r: &'a str)
        ensures
            r@ == settle(self@, mime@),
    {
        match self.to_canonical.get(mime) {
            Some(c) => c,
            None => mime,
        }
    }
}

} // verus!
