//! One directory listing: the rows in their answered order, each a name and whether it is a
//! directory.
use vstd::prelude::*;

verus! {

/// The rows of one listing.
pub struct Listing {
    rows: Vec<(String, bool)>,
}

/// The view of one row: its name's characters and its directory bit.
pub open spec fn row_view(r: (String, bool)) -> (Seq<char>, bool) {
    (r.0@, r.1)
}

impl View for Listing {
    type V = Seq<(Seq<char>, bool)>;

    /// The rows in order.
    closed spec fn view(&self) -> Seq<(Seq<char>, bool)> {
        self.rows@.map_values(|r: (String, bool)| row_view(r))
    }
}

impl Listing {
    /// An empty listing.
    pub fn new() -> (r: Listing)
        ensures
            r@ == Seq::<(Seq<char>, bool)>::empty(),
    {
        let r = Listing { rows: Vec::new() };
        assert(r@ =~= Seq::<(Seq<char>, bool)>::empty());
        r
    }

    /// Appends a row.
    pub fn push(&mut self, name: &str, is_dir: bool)
        ensures
            final(self)@ == old(self)@.push((name@, is_dir)),
    {
        self.rows.push((name.to_owned(), is_dir));
        assert(self@ =~= old(self)@.push((name@, is_dir)));
    }

    /// The number of rows.
    pub fn len(&self) -> (r: usize)
        ensures
            r == self@.len(),
    {
        self.rows.len()
    }

    /// The name of row `i`.
    pub fn name(&self, i: usize) -> (r: &str)
        requires
            i < self@.len(),
        ensures
            r@ == self@[i as int].0,
    {
        self.rows[i].0.as_str()
    }

    /// Whether row `i` is a directory.
    pub fn is_dir(&self, i: usize) -> (r: bool)
        requires
            i < self@.len(),
        ensures
            r == self@[i as int].1,
    {
        self.rows[i].1
    }
}

impl Listing {
    /// Puts the rows in the order `order` gives: row `k` becomes the row that was at `order[k]`.
    pub fn reorder(&mut self, order: &Vec<usize>)
        requires
            order.len() == old(self)@.len(),
            forall|k: int| 0 <= k < order.len() ==> order@[k] < old(self)@.len(),
        ensures
            final(self)@.len() == old(self)@.len(),
            forall|k: int|
                0 <= k < order.len() ==> #[trigger] final(self)@[k] == old(self)@[order@[k] as int],
    {
        let n = self.rows.len();
        let mut out: Vec<(String, bool)> = Vec::new();
        let mut m: usize = 0;
        while m < n
            invariant
                m <= order.len() == n == self.rows.len(),
                forall|i: int| 0 <= i < order.len() ==> order@[i] < n,
                out.len() == m,
                forall|q: int|
                    0 <= q < m ==> row_view(#[trigger] out@[q]) == row_view(
                        self.rows@[order@[q] as int],
                    ),
            decreases n - m,
        {
            let at = order[m];
            let name = self.rows[at].0.clone();
            out.push((name, self.rows[at].1));
            m = m + 1;
        }
        let ghost before_rows = self@;
        self.rows = out;
        assert forall|q: int| 0 <= q < order.len() implies #[trigger] self@[q]
            == before_rows[order@[q] as int] by {
            assert(row_view(self.rows@[q]) == row_view(old(self).rows@[order@[q] as int]));
        }
    }
}

} // verus!
