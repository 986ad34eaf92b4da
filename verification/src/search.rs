//! The subtree walk behind a search request, ticked a slice at a time so a cancel is never
//! blocked. The directories themselves are read by the caller's reader; the walk decides what
//! is read next, what each entry counts as, and what reaches the listing.
use vstd::prelude::*;
use crate::fuzzy::{lemma_score_of, score_of, scorable, Fuzzy};
use vstd::utf8::encode_utf8;
use crate::listing::{row_view, Listing};
use crate::order::{law_rank_order_total, rank_key, rank_sign};
use crate::sort::{in_order, is_permutation, sort_rows, RowOrder};
use crate::scan::{shown, shows};
use crate::text::{chars_of, str_eq, string_from};

verus! {

broadcast use vstd::string::group_string_axioms;

/// One tick reads at most this many directories before the loop looks at its channel again.
pub const DIRS_PER_TICK: usize = 4;

/// What a walk has: the directories still to read, one score per listed match, the entries
/// counted so far, and the listing's rows.
pub struct WalkState {
    pub pending: Seq<Seq<char>>,
    pub scores: Seq<i32>,
    pub scanned: nat,
    pub rows: Seq<(Seq<char>, bool)>,
}

/// The path of entry `name` relative to the root, inside the directory `rel`.
pub open spec fn child_path(rel: Seq<char>, name: Seq<char>) -> Seq<char> {
    if rel.len() == 0 {
        name
    } else {
        rel + seq!['/'] + name
    }
}

/// The score a child path gets: its fuzzy score, where that fits in an `i32`. Only a path of
/// over 2^31 - 1 characters, or one of over 119,304,647 beside a query as long, could overflow
/// it; such a path, longer than any a directory read gives, is no match.
pub open spec fn child_score(needle: Seq<char>, child: Seq<char>) -> Option<i32> {
    if scorable(needle.len(), child.len()) {
        score_of(needle, child)
    } else {
        None
    }
}

/// The walk after one entry of the directory `rel`: a shown entry is counted, listed with its
/// score where it matches, and queued for reading where it is a directory. The count saturates.
pub open spec fn absorb(
    w: WalkState,
    needle: Seq<char>,
    hidden: bool,
    rel: Seq<char>,
    e: (Seq<char>, bool),
) -> WalkState {
    if !shown(e.0, hidden) {
        w
    } else {
        let child = child_path(rel, e.0);
        let scanned = if w.scanned < usize::MAX {
            w.scanned + 1
        } else {
            w.scanned
        };
        let (rows, scores) = match child_score(needle, child) {
            Some(s) => (w.rows.push((child, e.1)), w.scores.push(s)),
            None => (w.rows, w.scores),
        };
        let pending = if e.1 {
            w.pending.push(child)
        } else {
            w.pending
        };
        WalkState { pending, scores, scanned: scanned as nat, rows }
    }
}

/// The walk after all of `es`, the entries of the directory `rel`, in order.
pub open spec fn absorb_all(
    w: WalkState,
    needle: Seq<char>,
    hidden: bool,
    rel: Seq<char>,
    es: Seq<(Seq<char>, bool)>,
) -> WalkState
    decreases es.len(),
{
    if es.len() == 0 {
        w
    } else {
        absorb(absorb_all(w, needle, hidden, rel, es.drop_last()), needle, hidden, rel, es.last())
    }
}

/// The entries a read answered, as rows.
pub open spec fn entries_of(out: Option<Vec<(String, bool)>>) -> Option<Seq<(Seq<char>, bool)>> {
    match out {
        Some(v) => Some(v@.map_values(|r: (String, bool)| row_view(r))),
        None => None,
    }
}

/// The walk after reading its last pending directory, whose read answered `res`; an unreadable
/// directory is skipped in silence.
pub open spec fn after_read(
    w: WalkState,
    needle: Seq<char>,
    hidden: bool,
    res: Option<Seq<(Seq<char>, bool)>>,
) -> WalkState {
    let rel = w.pending.last();
    let w0 = WalkState { pending: w.pending.drop_last(), ..w };
    match res {
        Some(es) => absorb_all(w0, needle, hidden, rel, es),
        None => w0,
    }
}

/// `read` may answer `res` for the directory `rel` under `root`.
pub open spec fn may_read<F: Fn(&str, &str) -> Option<Vec<(String, bool)>>>(
    read: F,
    root: Seq<char>,
    rel: Seq<char>,
    res: Option<Seq<(Seq<char>, bool)>>,
) -> bool {
    exists|r: &str, d: &str, out: Option<Vec<(String, bool)>>|
        r@ == root && d@ == rel && #[trigger] call_ensures(read, (r, d), out) && res == entries_of(
            out,
        )
}

/// `w2` is where at most `n` reads take `w`, each of the last pending directory, stopping
/// early when nothing is pending.
pub open spec fn walked<F: Fn(&str, &str) -> Option<Vec<(String, bool)>>>(
    w: WalkState,
    w2: WalkState,
    needle: Seq<char>,
    hidden: bool,
    root: Seq<char>,
    read: F,
    n: nat,
) -> bool
    decreases n,
{
    if w.pending.len() == 0 || n == 0 {
        w2 == w
    } else {
        exists|res: Option<Seq<(Seq<char>, bool)>>|
            #[trigger] may_read(read, root, w.pending.last(), res) && walked(
                after_read(w, needle, hidden, res),
                w2,
                needle,
                hidden,
                root,
                read,
                (n - 1) as nat,
            )
    }
}

/// The rank key of each row: its score and its name's UTF-8 bytes.
pub open spec fn rank_keys(rows: Seq<(Seq<char>, bool)>, scores: Seq<i32>) -> Seq<(i32, Seq<u8>)> {
    Seq::new(rows.len(), |i: int| (scores[i], encode_utf8(rows[i].0)))
}

/// Row `x` comes no later than row `y` in the rank order.
pub open spec fn before(ks: Seq<(i32, Seq<u8>)>, x: usize, y: usize) -> bool {
    rank_key(ks[x as int].0, ks[x as int].1, ks[y as int].0, ks[y as int].1) <= 0
}

/// Every index of `p` comes no later in the rank order than the indices after it.
pub open spec fn ranked_indices(ks: Seq<(i32, Seq<u8>)>, p: Seq<usize>) -> bool {
    forall|i: int, j: int| #![trigger p[i], p[j]] 0 <= i < j < p.len() ==> before(ks, p[i], p[j])
}

/// `after` is `before` put in rank order by `scores` through the permutation `p`: row `k` of
/// `after` is row `p[k]` of `before`, and every row comes no later than the rows after it.
pub open spec fn ranks(
    before: Seq<(Seq<char>, bool)>,
    after: Seq<(Seq<char>, bool)>,
    scores: Seq<i32>,
    p: Seq<usize>,
) -> bool {
    &&& is_permutation(p, before.len())
    &&& p.len() == after.len()
    &&& forall|k: int| 0 <= k < p.len() ==> #[trigger] after[k] == before[p[k] as int]
    &&& ranked_indices(rank_keys(before, scores), p)
}

/// The rank order on the rows of a listing, by one score per row.
pub struct RankOrder<'a> {
    pub listing: &'a Listing,
    pub scores: &'a Vec<i32>,
}

impl<'a> RowOrder for RankOrder<'a> {
    open spec fn count(&self) -> nat {
        if self.scores.len() < self.listing@.len() {
            self.scores.len() as nat
        } else {
            self.listing@.len()
        }
    }

    open spec fn leq(&self, x: usize, y: usize) -> bool {
        before(rank_keys(self.listing@, self.scores@), x, y)
    }

    fn le(&self, x: usize, y: usize) -> (r: bool) {
        let a = self.listing.name(x).as_bytes();
        let b = self.listing.name(y).as_bytes();
        rank_sign(self.scores[x], a, self.scores[y], b) <= 0
    }

    proof fn lemma_total_preorder(&self, x: usize, y: usize, z: usize) {
        let ks = rank_keys(self.listing@, self.scores@);
        let (sx, bx) = ks[x as int];
        let (sy, by) = ks[y as int];
        let (sz, bz) = ks[z as int];
        law_rank_order_total(sx, bx, sy, by, sz, bz);
        law_rank_order_total(sy, by, sz, bz, sx, bx);
        law_rank_order_total(sx, bx, sz, bz, sy, by);
    }
}

/// Puts the rows in rank order by `scores`, one score per row.
fn rank_rows(listing: &mut Listing, scores: &Vec<i32>) -> (r: bool)
    requires
        scores.len() == old(listing)@.len(),
    ensures
        exists|p: Seq<usize>| #[trigger] ranks(old(listing)@, final(listing)@, scores@, p),
        r == (final(listing)@ != old(listing)@),
{
    let n = listing.len();
    let order = sort_rows(&RankOrder { listing: &*listing, scores }, n);
    assert(ranked_indices(rank_keys(listing@, scores@), order@));
    let mut k: usize = 0;
    while k < n
        invariant
            n == listing@.len() == order.len(),
            listing@ == old(listing)@,
            scores.len() == n,
            is_permutation(order@, n as nat),
            ranked_indices(rank_keys(old(listing)@, scores@), order@),
            forall|i: int| 0 <= i < n ==> order@[i] < n,
            k <= n,
            forall|i: int| 0 <= i < k ==> #[trigger] listing@[order@[i] as int] == listing@[i],
        decreases n - k,
    {
        let at = order[k];
        let same = str_eq(listing.name(at), listing.name(k)) && listing.is_dir(at) == listing.is_dir(
            k,
        );
        if !same {
            assert(listing@[order@[k as int] as int] != listing@[k as int]);
            listing.reorder(&order);
            assert(listing@[k as int] != old(listing)@[k as int]);
            assert(ranks(old(listing)@, listing@, scores@, order@));
            return true;
        }
        k = k + 1;
    }
    assert(ranks(old(listing)@, listing@, scores@, order@));
    false
}

/// One step of `s1` beside the rows `l1`, reading with `read`, took it to `s2` beside `l2`.
pub open spec fn stepped<F: Fn(&str, &str) -> Option<Vec<(String, bool)>>>(
    s1: Search,
    l1: Seq<(Seq<char>, bool)>,
    s2: Search,
    l2: Seq<(Seq<char>, bool)>,
    read: F,
) -> bool {
    &&& s2.root() == s1.root()
    &&& s2.needle() == s1.needle()
    &&& s2.hidden() == s1.hidden()
    &&& walked(
        s1.walk(l1),
        s2.walk(l2),
        s1.needle(),
        s1.hidden(),
        s1.root(),
        read,
        DIRS_PER_TICK as nat,
    )
}

/// The walk's state beside any rows is the walk's own state, which does not depend on the
/// rows, with those rows.
pub broadcast proof fn lemma_walk_rows(s: Search, rows: Seq<(Seq<char>, bool)>)
    ensures
        #[trigger] s.walk(rows) == (WalkState { rows, ..s.walk(Seq::empty()) }),
        s.walk(rows).scanned == s.counted(),
{
}

/// The walk of `s` has nothing left to read.
pub open spec fn finished(s: Search, l: Seq<(Seq<char>, bool)>) -> bool {
    s.walk(l).pending.len() == 0
}

/// Ranking the rows `l1` by the walk `s` gave `l2`: they are sorted only where the walk filled
/// the listing by itself, one score per row, with at least two rows; and `r` says whether the
/// row order changed.
pub open spec fn ranked(s: Search, l1: Seq<(Seq<char>, bool)>, l2: Seq<(Seq<char>, bool)>, r: bool) -> bool {
    let sorts = s.walk(l1).scores.len() == l1.len() && l1.len() >= 2;
    &&& !sorts ==> l2 == l1
    &&& sorts ==> exists|p: Seq<usize>| #[trigger] ranks(l1, l2, s.walk(l1).scores, p)
    &&& r == (l2 != l1)
}

/// The rows and scores of `w` go in pairs: one score per row, and each row's score is the
/// score its path gets.
pub open spec fn paired(w: WalkState, needle: Seq<char>) -> bool {
    &&& w.scores.len() == w.rows.len()
    &&& forall|k: int|
        0 <= k < w.rows.len() ==> child_score(needle, #[trigger] w.rows[k].0) == Some(w.scores[k])
}

/// Reading entries keeps the listing's rows and their scores in pairs, and only adds rows.
pub proof fn law_reading_keeps_rows_and_scores_paired(
    w: WalkState,
    needle: Seq<char>,
    hidden: bool,
    rel: Seq<char>,
    es: Seq<(Seq<char>, bool)>,
)
    requires
        paired(w, needle),
    ensures
        paired(absorb_all(w, needle, hidden, rel, es), needle),
        w.rows.is_prefix_of(absorb_all(w, needle, hidden, rel, es).rows),
    decreases es.len(),
{
    if es.len() > 0 {
        law_reading_keeps_rows_and_scores_paired(w, needle, hidden, rel, es.drop_last());
        let v = absorb_all(w, needle, hidden, rel, es.drop_last());
        let u = absorb(v, needle, hidden, rel, es.last());
        assert forall|k: int| 0 <= k < u.rows.len() implies child_score(
            needle,
            #[trigger] u.rows[k].0,
        ) == Some(u.scores[k]) by {
            if k < v.rows.len() {
                assert(u.rows[k] == v.rows[k]);
            }
        }
        assert(w.rows.is_prefix_of(u.rows)) by {
            assert forall|k: int| 0 <= k < w.rows.len() implies u.rows[k] == w.rows[k] by {
                assert(v.rows[k] == w.rows[k]);
            }
        }
    }
}

/// Any number of reads, whatever each read answered, keeps the listing's rows and their
/// scores in pairs and only adds rows: a finished walk can always be ranked.
pub proof fn law_walking_keeps_rows_and_scores_paired<F: Fn(&str, &str) -> Option<
    Vec<(String, bool)>,
>>(
    w: WalkState,
    w2: WalkState,
    needle: Seq<char>,
    hidden: bool,
    root: Seq<char>,
    read: F,
    n: nat,
)
    requires
        paired(w, needle),
        walked(w, w2, needle, hidden, root, read, n),
    ensures
        paired(w2, needle),
        w.rows.is_prefix_of(w2.rows),
    decreases n,
{
    if w.pending.len() > 0 && n > 0 {
        let res = choose|res: Option<Seq<(Seq<char>, bool)>>|
            #[trigger] may_read(read, root, w.pending.last(), res) && walked(
                after_read(w, needle, hidden, res),
                w2,
                needle,
                hidden,
                root,
                read,
                (n - 1) as nat,
            );
        let w0 = WalkState { pending: w.pending.drop_last(), ..w };
        let next = after_read(w, needle, hidden, res);
        if let Some(es) = res {
            law_reading_keeps_rows_and_scores_paired(w0, needle, hidden, w.pending.last(), es);
        }
        law_walking_keeps_rows_and_scores_paired(next, w2, needle, hidden, root, read, (n - 1) as nat);
        assert(w.rows.is_prefix_of(w2.rows)) by {
            assert forall|k: int| 0 <= k < w.rows.len() implies w2.rows[k] == w.rows[k] by {
                assert(next.rows[k] == w.rows[k]);
            }
        }
    }
}

/// With nothing pending, or no reads left, a walk stays where it is.
pub proof fn lemma_walked_stops<F: Fn(&str, &str) -> Option<Vec<(String, bool)>>>(
    w: WalkState,
    w2: WalkState,
    needle: Seq<char>,
    hidden: bool,
    root: Seq<char>,
    read: F,
    n: nat,
)
    requires
        w.pending.len() == 0 || n == 0,
    ensures
        walked(w, w2, needle, hidden, root, read, n) <==> w2 == w,
{
}

/// With a directory pending and a read left, a walk reads its last pending directory, the read
/// answering what the reader may answer, and walks on from there with one read fewer.
pub proof fn lemma_walked_reads<F: Fn(&str, &str) -> Option<Vec<(String, bool)>>>(
    w: WalkState,
    w2: WalkState,
    needle: Seq<char>,
    hidden: bool,
    root: Seq<char>,
    read: F,
    n: nat,
)
    requires
        w.pending.len() > 0,
        n > 0,
    ensures
        walked(w, w2, needle, hidden, root, read, n) <==> exists|res: Option<
            Seq<(Seq<char>, bool)>,
        >|
            #[trigger] may_read(read, root, w.pending.last(), res) && walked(
                after_read(w, needle, hidden, res),
                w2,
                needle,
                hidden,
                root,
                read,
                (n - 1) as nat,
            ),
{
}

/// What a reader answered, for a read the reader may have answered with `res`.
pub proof fn lemma_may_read<'a, F: Fn(&str, &str) -> Option<Vec<(String, bool)>>>(
    read: F,
    root: Seq<char>,
    rel: Seq<char>,
    res: Option<Seq<(Seq<char>, bool)>>,
) -> (out: (&'a str, &'a str, Option<Vec<(String, bool)>>))
    requires
        may_read(read, root, rel, res),
    ensures
        out.0@ == root,
        out.1@ == rel,
        call_ensures(read, (out.0, out.1), out.2),
        res == entries_of(out.2),
{
    choose|r: &'a str, d: &'a str, o: Option<Vec<(String, bool)>>|
        r@ == root && d@ == rel && #[trigger] call_ensures(read, (r, d), o) && res == entries_of(o)
}

/// A search in progress.
pub struct Search {
    root: String,
    fuzzy: Fuzzy,
    hidden: bool,
    pending: Vec<String>,
    scores: Vec<i32>,
    pub scanned: usize,
}

impl Search {
    /// The root the walk is relative to.
    pub closed spec fn root(&self) -> Seq<char> {
        self.root@
    }

    /// The folded query.
    pub closed spec fn needle(&self) -> Seq<char> {
        self.fuzzy@
    }

    /// Whether dot-prefixed entries are walked.
    pub closed spec fn hidden(&self) -> bool {
        self.hidden
    }

    /// The entries counted so far.
    pub closed spec fn counted(&self) -> usize {
        self.scanned
    }

    /// The entries counted so far.
    pub fn scanned(&self) -> (r: usize)
        ensures
            r == self.counted(),
    {
        self.scanned
    }

    /// The walk's state beside the listing it fills.
    pub closed spec fn walk(&self, rows: Seq<(Seq<char>, bool)>) -> WalkState {
        WalkState {
            pending: self.pending@.map_values(|s: String| s@),
            scores: self.scores@,
            scanned: self.counted() as nat,
            rows,
        }
    }

    /// A walk of `root` for `query` that has read nothing: the root itself is pending.
    pub fn new(root: &str, query: &str, hidden: bool) -> (r: Search)
        ensures
            r.root() == root@,
            r.needle() == crate::fuzzy::lowercase(query@),
            r.hidden() == hidden,
            r.walk(Seq::empty()) == (WalkState {
                pending: seq![Seq::<char>::empty()],
                scores: Seq::empty(),
                scanned: 0,
                rows: Seq::empty(),
            }),
    {
        let mut pending: Vec<String> = Vec::new();
        pending.push(String::new());
        let r = Search {
            root: root.to_owned(),
            fuzzy: Fuzzy::new(query),
            hidden,
            pending,
            scores: Vec::new(),
            scanned: 0,
        };
        assert(r.walk(Seq::empty()).pending =~= seq![Seq::<char>::empty()]);
        assert(r.walk(Seq::empty()).scores =~= Seq::<i32>::empty());
        r
    }

    /// Takes one entry of the directory `rel`.
    fn absorb_one(&mut self, rel: &Vec<char>, name: &str, is_dir: bool, listing: &mut Listing)
        ensures
            final(self).root() == old(self).root(),
            final(self).needle() == old(self).needle(),
            final(self).hidden() == old(self).hidden(),
            final(self).walk(final(listing)@) == absorb(
                old(self).walk(old(listing)@),
                old(self).needle(),
                old(self).hidden(),
                rel@,
                (name@, is_dir),
            ),
    {
        if !shows(name, self.hidden) {
            return;
        }
        let n = chars_of(name);
        if self.scanned < usize::MAX {
            self.scanned = self.scanned + 1;
        }
        let mut c: Vec<char> = Vec::new();
        let mut k: usize = 0;
        while k < rel.len()
            invariant
                k <= rel.len(),
                c@ == rel@.take(k as int),
            decreases rel.len() - k,
        {
            c.push(rel[k]);
            assert(rel@.take(k + 1) =~= rel@.take(k as int).push(rel@[k as int]));
            k = k + 1;
        }
        if rel.len() > 0 {
            c.push('/');
        }
        let ghost head = c@;
        let mut k: usize = 0;
        while k < n.len()
            invariant
                k <= n.len(),
                c@ == head + n@.take(k as int),
            decreases n.len() - k,
        {
            c.push(n[k]);
            assert(n@.take(k + 1) =~= n@.take(k as int).push(n@[k as int]));
            k = k + 1;
        }
        proof {
            assert(rel@.take(rel@.len() as int) =~= rel@);
            assert(n@.take(n@.len() as int) =~= n@);
            assert(c@ =~= child_path(rel@, name@));
        }
        let child = string_from(&c);
        let ghost w = old(self).walk(old(listing)@);
        if self.fuzzy.can_score(c.len()) {
            let score = self.fuzzy.score(child.as_str());
            proof {
                lemma_score_of(old(self).fuzzy@, child@, score);
            }
            if let Some(s) = score {
                listing.push(child.as_str(), is_dir);
                self.scores.push(s);
            }
        }
        if is_dir {
            self.pending.push(child);
        }
        proof {
            let e = absorb(w, old(self).needle(), old(self).hidden(), rel@, (name@, is_dir));
            let now = self.walk(listing@);
            assert(now.pending =~= e.pending);
            assert(now.scores =~= e.scores);
            assert(now.rows =~= e.rows);
        }
    }

    /// Takes every entry a read of the directory `rel` answered, in order; an unreadable
    /// directory is skipped in silence.
    pub fn read_one(
        &mut self,
        rel: &str,
        entries: Option<Vec<(String, bool)>>,
        listing: &mut Listing,
    )
        ensures
            final(self).root() == old(self).root(),
            final(self).needle() == old(self).needle(),
            final(self).hidden() == old(self).hidden(),
            final(self).walk(final(listing)@) == match entries_of(entries) {
                Some(es) => absorb_all(
                    old(self).walk(old(listing)@),
                    old(self).needle(),
                    old(self).hidden(),
                    rel@,
                    es,
                ),
                None => old(self).walk(old(listing)@),
            },
    {
        let es = match entries {
            Some(es) => es,
            None => return,
        };
        let r = chars_of(rel);
        let ghost ev = es@.map_values(|r: (String, bool)| row_view(r));
        let mut i: usize = 0;
        assert(ev.take(0) =~= Seq::<(Seq<char>, bool)>::empty());
        while i < es.len()
            invariant
                i <= es.len(),
                r@ == rel@,
                ev == es@.map_values(|r: (String, bool)| row_view(r)),
                self.root() == old(self).root(),
                self.needle() == old(self).needle(),
                self.hidden() == old(self).hidden(),
                self.walk(listing@) == absorb_all(
                    old(self).walk(old(listing)@),
                    old(self).needle(),
                    old(self).hidden(),
                    rel@,
                    ev.take(i as int),
                ),
            decreases es.len() - i,
        {
            let (name, is_dir) = (&es[i].0, es[i].1);
            self.absorb_one(&r, name.as_str(), is_dir, listing);
            assert(ev.take(i + 1).drop_last() =~= ev.take(i as int));
            i = i + 1;
        }
        assert(ev.take(es.len() as int) =~= ev);
    }

    /// Reads up to `DIRS_PER_TICK` pending directories with `read`, the last queued first, and
    /// answers whether the walk is finished.
    pub fn step<F: Fn(&str, &str) -> Option<Vec<(String, bool)>>>(
        &mut self,
        listing: &mut Listing,
        read: F,
    ) -> (r: bool)
        requires
            forall|a: &str, b: &str| #[trigger] call_requires(read, (a, b)),
        ensures
            stepped(*old(self), old(listing)@, *final(self), final(listing)@, read),
            r == finished(*final(self), final(listing)@),
    {
        let ghost start = self.walk(listing@);
        let ghost needle = self.needle();
        let ghost hidden = self.hidden();
        let ghost root = self.root();
        let mut t: usize = 0;
        while t < DIRS_PER_TICK
            invariant
                t <= DIRS_PER_TICK,
                forall|a: &str, b: &str| #[trigger] call_requires(read, (a, b)),
                self.root() == root,
                self.needle() == needle,
                self.hidden() == hidden,
                root == old(self).root(),
                needle == old(self).needle(),
                hidden == old(self).hidden(),
                start == old(self).walk(old(listing)@),
                forall|w2: WalkState|
                    #[trigger] walked(
                        self.walk(listing@),
                        w2,
                        needle,
                        hidden,
                        root,
                        read,
                        (DIRS_PER_TICK - t) as nat,
                    ) ==> walked(start, w2, needle, hidden, root, read, DIRS_PER_TICK as nat),
            decreases DIRS_PER_TICK - t,
        {
            let ghost cur = self.walk(listing@);
            match self.pending.pop() {
                Some(rel) => {
                    let out = read(self.root.as_str(), rel.as_str());
                    let ghost res = entries_of(out);
                    proof {
                        assert(cur.pending.last() == rel@);
                        assert(may_read(read, root, cur.pending.last(), res));
                    }
                    proof {
                        let mid = self.walk(listing@);
                        assert(mid.pending =~= cur.pending.drop_last());
                        assert(mid == (WalkState { pending: cur.pending.drop_last(), ..cur }));
                    }
                    self.read_one(rel.as_str(), out, listing);
                    proof {
                        let next = self.walk(listing@);
                        assert(next == after_read(cur, needle, hidden, res));
                        assert forall|w2: WalkState|
                            #[trigger] walked(
                                next,
                                w2,
                                needle,
                                hidden,
                                root,
                                read,
                                (DIRS_PER_TICK - t - 1) as nat,
                            ) implies walked(
                            start,
                            w2,
                            needle,
                            hidden,
                            root,
                            read,
                            DIRS_PER_TICK as nat,
                        ) by {
                            assert(walked(
                                cur,
                                w2,
                                needle,
                                hidden,
                                root,
                                read,
                                (DIRS_PER_TICK - t) as nat,
                            ));
                        }
                    }
                },
                None => {
                    proof {
                        assert(cur.pending.len() == 0);
                        assert(walked(
                            cur,
                            cur,
                            needle,
                            hidden,
                            root,
                            read,
                            (DIRS_PER_TICK - t) as nat,
                        ));
                    }
                    return true;
                },
            }
            t = t + 1;
        }
        proof {
            let cur = self.walk(listing@);
            assert(walked(cur, cur, needle, hidden, root, read, (DIRS_PER_TICK - t) as nat));
        }
        self.pending.len() == 0
    }

    /// Puts the rows in rank order, where this walk filled the listing by itself: one score per
    /// row and at least two rows. Answers whether the row order changed, which is what every
    /// outstanding row index is forgotten on.
    pub fn rank(&self, listing: &mut Listing) -> (r: bool)
        ensures
            ranked(*self, old(listing)@, final(listing)@, r),
    {
        if self.scores.len() != listing.len() || listing.len() < 2 {
            return false;
        }
        rank_rows(listing, &self.scores)
    }
}

} // verus!
