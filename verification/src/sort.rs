//! Ordering a listing's rows: an order is a total preorder on row indices, and sorting answers
//! the permutation of the indices that puts the rows in that order.
use vstd::prelude::*;

verus! {

/// A total preorder on the indices of `count()` rows, with an executable comparison.
pub trait RowOrder {
    /// How many rows are ordered.
    spec fn count(&self) -> nat;

    /// Row `x` comes no later than row `y`.
    spec fn leq(&self, x: usize, y: usize) -> bool;

    /// Whether row `x` comes no later than row `y`.
    fn le(&self, x: usize, y: usize) -> (r: bool)
        requires
            x < self.count(),
            y < self.count(),
        ensures
            r == self.leq(x, y),
    ;

    /// Any two rows compare, and the order is transitive.
    proof fn lemma_total_preorder(&self, x: usize, y: usize, z: usize)
        requires
            x < self.count(),
            y < self.count(),
            z < self.count(),
        ensures
            self.leq(x, y) || self.leq(y, x),
            self.leq(x, y) && self.leq(y, z) ==> self.leq(x, z),
    ;
}

/// Every index of `p` comes no later than the indices after it.
pub open spec fn in_order<O: RowOrder>(o: &O, p: Seq<usize>) -> bool {
    forall|i: int, j: int| #![trigger p[i], p[j]] 0 <= i < j < p.len() ==> o.leq(p[i], p[j])
}

/// The indices `0..n`.
pub open spec fn all_indices(n: nat) -> Seq<usize> {
    Seq::new(n, |i: int| i as usize)
}

/// `p` holds each of the indices `0..n` once.
pub open spec fn is_permutation(p: Seq<usize>, n: nat) -> bool {
    &&& p.to_multiset() == all_indices(n).to_multiset()
    &&& p.len() == n
    &&& forall|k: int| 0 <= k < p.len() ==> p[k] < n
}

/// Merges two runs that are each in order into one.
fn merge<O: RowOrder>(o: &O, a: Vec<usize>, b: Vec<usize>) -> (r: Vec<usize>)
    requires
        forall|i: int| 0 <= i < a.len() ==> a@[i] < o.count(),
        forall|i: int| 0 <= i < b.len() ==> b@[i] < o.count(),
        in_order(o, a@),
        in_order(o, b@),
    ensures
        r@.to_multiset() == a@.to_multiset().add(b@.to_multiset()),
        forall|i: int| 0 <= i < r.len() ==> r@[i] < o.count(),
        in_order(o, r@),
{
    broadcast use vstd::seq_lib::group_to_multiset_ensures, vstd::multiset::group_multiset_axioms;

    let mut out: Vec<usize> = Vec::new();
    let mut i: usize = 0;
    let mut j: usize = 0;
    assert(a@.take(0) =~= Seq::<usize>::empty());
    assert(b@.take(0) =~= Seq::<usize>::empty());
    while i < a.len() || j < b.len()
        invariant
            i <= a.len(),
            j <= b.len(),
            forall|k: int| 0 <= k < a.len() ==> a@[k] < o.count(),
            forall|k: int| 0 <= k < b.len() ==> b@[k] < o.count(),
            forall|k: int| 0 <= k < out.len() ==> out@[k] < o.count(),
            in_order(o, a@),
            in_order(o, b@),
            in_order(o, out@),
            out@.to_multiset() == a@.take(i as int).to_multiset().add(
                b@.take(j as int).to_multiset(),
            ),
            forall|q: int, m: int|
                0 <= q < out.len() && i <= m < a.len() ==> o.leq(
                    #[trigger] out@[q],
                    #[trigger] a@[m],
                ),
            forall|q: int, m: int|
                0 <= q < out.len() && j <= m < b.len() ==> o.leq(
                    #[trigger] out@[q],
                    #[trigger] b@[m],
                ),
        decreases a.len() + b.len() - i - j,
    {
        let take_a = if j == b.len() {
            true
        } else if i == a.len() {
            false
        } else {
            o.le(a[i], b[j])
        };
        if take_a {
            let x = a[i];
            proof {
                assert forall|m: int| i < m < a.len() implies o.leq(x, #[trigger] a@[m]) by {
                    assert(o.leq(a@[i as int], a@[m]));
                }
                assert forall|m: int| j <= m < b.len() implies o.leq(x, #[trigger] b@[m]) by {
                    assert(o.leq(b@[j as int], b@[m]) || m == j);
                    o.lemma_total_preorder(x, b@[j as int], b@[m]);
                    o.lemma_total_preorder(b@[m], b@[m], b@[m]);
                }
                assert forall|q: int| 0 <= q < out.len() implies o.leq(#[trigger] out@[q], x) by {
                    assert(o.leq(out@[q], a@[i as int]));
                }
            }
            let ghost before_push = out@;
            out.push(x);
            proof {
                vstd::seq_lib::to_multiset_build(before_push, x);
                assert(a@.take(i + 1) =~= a@.take(i as int).push(x));
                vstd::seq_lib::to_multiset_build(a@.take(i as int), x);
            }
            i = i + 1;
            assert(out@.to_multiset() =~= a@.take(i as int).to_multiset().add(
                b@.take(j as int).to_multiset(),
            ));
        } else {
            let y = b[j];
            proof {
                if i < a.len() {
                    o.lemma_total_preorder(a@[i as int], y, y);
                }
                assert forall|m: int| j < m < b.len() implies o.leq(y, #[trigger] b@[m]) by {
                    assert(o.leq(b@[j as int], b@[m]));
                }
                assert forall|m: int| i <= m < a.len() implies o.leq(y, #[trigger] a@[m]) by {
                    assert(o.leq(a@[i as int], a@[m]) || m == i);
                    o.lemma_total_preorder(y, a@[i as int], a@[m]);
                    o.lemma_total_preorder(a@[m], a@[m], a@[m]);
                }
                assert forall|q: int| 0 <= q < out.len() implies o.leq(#[trigger] out@[q], y) by {
                    assert(o.leq(out@[q], b@[j as int]));
                }
            }
            let ghost before_push = out@;
            out.push(y);
            proof {
                vstd::seq_lib::to_multiset_build(before_push, y);
                assert(b@.take(j + 1) =~= b@.take(j as int).push(y));
                vstd::seq_lib::to_multiset_build(b@.take(j as int), y);
            }
            j = j + 1;
            assert(out@.to_multiset() =~= a@.take(i as int).to_multiset().add(
                b@.take(j as int).to_multiset(),
            ));
        }
    }
    assert(a@.take(a.len() as int) =~= a@);
    assert(b@.take(b.len() as int) =~= b@);
    out
}

/// The indices of `v` put in order.
fn merge_sort<O: RowOrder>(o: &O, v: Vec<usize>) -> (r: Vec<usize>)
    requires
        forall|i: int| 0 <= i < v.len() ==> v@[i] < o.count(),
    ensures
        r@.to_multiset() == v@.to_multiset(),
        forall|i: int| 0 <= i < r.len() ==> r@[i] < o.count(),
        in_order(o, r@),
    decreases v.len(),
{
    broadcast use vstd::seq_lib::group_to_multiset_ensures;

    if v.len() <= 1 {
        return v;
    }
    let mid = v.len() / 2;
    let mut left: Vec<usize> = Vec::new();
    let mut right: Vec<usize> = Vec::new();
    let mut k: usize = 0;
    while k < v.len()
        invariant
            mid <= v.len(),
            k <= v.len(),
            k <= mid ==> left@ == v@.take(k as int) && right@.len() == 0,
            k > mid ==> left@ == v@.take(mid as int) && right@ == v@.subrange(mid as int, k as int),
        decreases v.len() - k,
    {
        if k < mid {
            left.push(v[k]);
            assert(v@.take(k + 1) =~= v@.take(k as int).push(v@[k as int]));
        } else {
            right.push(v[k]);
            assert(v@.subrange(mid as int, k + 1) =~= v@.subrange(mid as int, k as int).push(
                v@[k as int],
            ));
        }
        k = k + 1;
    }
    assert(v@ =~= v@.take(mid as int) + v@.subrange(mid as int, v.len() as int));
    proof {
        vstd::seq_lib::lemma_multiset_commutative(
            v@.take(mid as int),
            v@.subrange(mid as int, v.len() as int),
        );
    }
    let l = merge_sort(o, left);
    let r = merge_sort(o, right);
    merge(o, l, r)
}

/// The permutation of the `n` row indices that puts them in order.
pub fn sort_rows<O: RowOrder>(o: &O, n: usize) -> (r: Vec<usize>)
    requires
        n == o.count(),
    ensures
        is_permutation(r@, n as nat),
        in_order(o, r@),
{
    let mut idx: Vec<usize> = Vec::new();
    let mut k: usize = 0;
    while k < n
        invariant
            k <= n,
            idx@ == all_indices(k as nat),
        decreases n - k,
    {
        idx.push(k);
        assert(idx@ =~= all_indices((k + 1) as nat));
        k = k + 1;
    }
    let order = merge_sort(o, idx);
    proof {
        vstd::seq_lib::to_multiset_len(order@);
        vstd::seq_lib::to_multiset_len(all_indices(n as nat));
    }
    order
}

} // verus!
