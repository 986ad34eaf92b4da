//! The orders the metadata pass makes possible, size and date: directories first in both
//! directions, then the key, then the name, so two equal keys list the same way every run.
use vstd::prelude::*;
use vstd::utf8::encode_utf8;
use crate::listing::Listing;
use crate::order::{law_name_order_total, name_rank, name_sign, sign};
use crate::sort::{in_order, is_permutation, sort_rows, RowOrder};

verus! {

/// What the metadata pass learned of one row; a row that vanished reads as all zeros.
#[derive(Debug, Clone, Copy, PartialEq, Eq, Structural)]
pub struct Stat {
    pub size: u64,
    pub mtime: i64,
}

/// The key a listing is ordered by.
#[derive(Debug, Clone, Copy, PartialEq, Eq, Structural)]
pub enum SortBy {
    Name,
    Size,
    Mtime,
}

/// The order of rows `a` and `b` inside one group: the key, then the name order. A size order
/// lists directories by name, because a directory's size is not a size anyone means.
pub open spec fn key_rank(
    rows: Seq<(Seq<char>, bool)>,
    stats: Seq<Stat>,
    by: SortBy,
    a: int,
    b: int,
) -> int {
    let by_key = match by {
        SortBy::Size => if rows[a].1 {
            0
        } else {
            sign(stats[a].size - stats[b].size)
        },
        SortBy::Mtime => sign(stats[a].mtime - stats[b].mtime),
        SortBy::Name => 0,
    };
    if by_key != 0 {
        by_key
    } else {
        name_rank(encode_utf8(rows[a].0), encode_utf8(rows[b].0))
    }
}

/// Row `a` comes no later than row `b`: directories first, then the key order inside each
/// group, exactly reversed, tie-break included, when descending.
pub open spec fn stat_leq(
    rows: Seq<(Seq<char>, bool)>,
    stats: Seq<Stat>,
    by: SortBy,
    desc: bool,
    a: int,
    b: int,
) -> bool {
    if rows[a].1 && !rows[b].1 {
        true
    } else if !rows[a].1 && rows[b].1 {
        false
    } else if desc {
        key_rank(rows, stats, by, b, a) <= 0
    } else {
        key_rank(rows, stats, by, a, b) <= 0
    }
}

/// The stat order on the rows of a listing.
pub struct StatOrder<'a> {
    pub listing: &'a Listing,
    pub stats: &'a Vec<Stat>,
    pub by: SortBy,
    pub desc: bool,
}

proof fn lemma_key_rank(
    rows: Seq<(Seq<char>, bool)>,
    stats: Seq<Stat>,
    by: SortBy,
    a: int,
    b: int,
    c: int,
)
    requires
        rows[a].1 == rows[b].1,
        rows[b].1 == rows[c].1,
    ensures
        key_rank(rows, stats, by, a, b) == -key_rank(rows, stats, by, b, a),
        key_rank(rows, stats, by, a, b) <= 0 && key_rank(rows, stats, by, b, c) <= 0 ==> key_rank(
            rows,
            stats,
            by,
            a,
            c,
        ) <= 0,
{
    let na = encode_utf8(rows[a].0);
    let nb = encode_utf8(rows[b].0);
    let nc = encode_utf8(rows[c].0);
    law_name_order_total(na, nb, nc);
    law_name_order_total(nb, na, nc);
    law_name_order_total(na, nc, nb);
    law_name_order_total(nb, nc, na);
    law_name_order_total(nc, na, nb);
}

impl<'a> RowOrder for StatOrder<'a> {
    open spec fn count(&self) -> nat {
        if self.stats.len() < self.listing@.len() {
            self.stats.len() as nat
        } else {
            self.listing@.len()
        }
    }

    open spec fn leq(&self, x: usize, y: usize) -> bool {
        stat_leq(self.listing@, self.stats@, self.by, self.desc, x as int, y as int)
    }

    fn le(&self, x: usize, y: usize) -> (r: bool) {
        let dx = self.listing.is_dir(x);
        let dy = self.listing.is_dir(y);
        if dx && !dy {
            return true;
        }
        if !dx && dy {
            return false;
        }
        let k = if self.desc {
            self.key_sign(y, x)
        } else {
            self.key_sign(x, y)
        };
        k <= 0
    }

    proof fn lemma_total_preorder(&self, x: usize, y: usize, z: usize) {
        let rows = self.listing@;
        let stats = self.stats@;
        let (a, b, c) = (x as int, y as int, z as int);
        if rows[a].1 == rows[b].1 {
            lemma_key_rank(rows, stats, self.by, a, b, b);
        }
        if rows[a].1 == rows[b].1 && rows[b].1 == rows[c].1 {
            lemma_key_rank(rows, stats, self.by, a, b, c);
            lemma_key_rank(rows, stats, self.by, c, b, a);
        }
    }
}

impl<'a> StatOrder<'a> {
    /// The key order of rows `a` and `b`, as -1, 0 or 1.
    fn key_sign(&self, a: usize, b: usize) -> (r: i8)
        requires
            a < self.count(),
            b < self.count(),
        ensures
            r == key_rank(self.listing@, self.stats@, self.by, a as int, b as int),
    {
        let sa = self.stats[a];
        let sb = self.stats[b];
        let by_key: i8 = match self.by {
            SortBy::Size => if self.listing.is_dir(a) {
                0
            } else if sa.size < sb.size {
                -1
            } else if sa.size > sb.size {
                1
            } else {
                0
            },
            SortBy::Mtime => if sa.mtime < sb.mtime {
                -1
            } else if sa.mtime > sb.mtime {
                1
            } else {
                0
            },
            SortBy::Name => 0,
        };
        if by_key != 0 {
            by_key
        } else {
            name_sign(self.listing.name(a).as_bytes(), self.listing.name(b).as_bytes())
        }
    }
}

/// `after` is `before` put in the stat order through the permutation `p`.
pub open spec fn stat_sorted(
    before: Seq<(Seq<char>, bool)>,
    after: Seq<(Seq<char>, bool)>,
    stats: Seq<Stat>,
    by: SortBy,
    desc: bool,
    p: Seq<usize>,
) -> bool {
    &&& is_permutation(p, before.len())
    &&& p.len() == after.len()
    &&& forall|k: int| 0 <= k < p.len() ==> #[trigger] after[k] == before[p[k] as int]
    &&& forall|i: int, j: int|
        #![trigger p[i], p[j]]
        0 <= i < j < p.len() ==> stat_leq(before, stats, by, desc, p[i] as int, p[j] as int)
}

/// Orders the listing by `by`, with one stat per row: a permutation of the rows and nothing else.
pub fn order_by_stat(l: &mut Listing, stats: &Vec<Stat>, by: SortBy, desc: bool)
    requires
        stats.len() == old(l)@.len(),
    ensures
        exists|p: Seq<usize>| #[trigger] stat_sorted(old(l)@, final(l)@, stats@, by, desc, p),
{
    let n = l.len();
    let order = sort_rows(&StatOrder { listing: &*l, stats, by, desc }, n);
    l.reorder(&order);
    assert(stat_sorted(old(l)@, l@, stats@, by, desc, order@));
}

} // verus!
