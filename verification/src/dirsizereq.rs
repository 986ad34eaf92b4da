//! The directory-size queue and its one-at-a-time walker: which rows are asked for, which are
//! answered again at once from what is known, and which wait their turn.
use vstd::prelude::*;
use std::collections::HashMap;
use crate::listing::Listing;

verus! {

broadcast use vstd::std_specs::hash::group_hash_axioms;

/// A size answer for one row: the row, its bytes, and whether the walk stopped short.
pub type SizeAnswer = (usize, u64, bool);

/// The queue and the answers to send after the request for `row`: a row that is not a
/// directory of the listing is ignored, a row already measured is answered again at once, a
/// row already queued is left where it is, and any other joins the end of the queue.
pub open spec fn queue_one(
    rows: Seq<(Seq<char>, bool)>,
    sizes: Map<usize, (u64, bool)>,
    st: (Seq<usize>, Seq<SizeAnswer>),
    row: usize,
) -> (Seq<usize>, Seq<SizeAnswer>) {
    let (queue, answers) = st;
    if row >= rows.len() || !rows[row as int].1 {
        st
    } else if sizes.contains_key(row) {
        (queue, answers.push((row, sizes[row].0, sizes[row].1)))
    } else if queue.contains(row) {
        st
    } else {
        (queue.push(row), answers)
    }
}

/// The queue and answers after every request of `asked`, in order.
pub open spec fn queue_all(
    rows: Seq<(Seq<char>, bool)>,
    sizes: Map<usize, (u64, bool)>,
    queue: Seq<usize>,
    asked: Seq<usize>,
) -> (Seq<usize>, Seq<SizeAnswer>)
    decreases asked.len(),
{
    if asked.len() == 0 {
        (queue, Seq::empty())
    } else {
        queue_one(rows, sizes, queue_all(rows, sizes, queue, asked.drop_last()), asked.last())
    }
}

/// The queue holds only directories of the listing that are not measured yet, each once.
pub open spec fn queue_ok(
    rows: Seq<(Seq<char>, bool)>,
    sizes: Map<usize, (u64, bool)>,
    queue: Seq<usize>,
) -> bool {
    &&& queue.no_duplicates()
    &&& forall|k: int|
        0 <= k < queue.len() ==> {
            let row = #[trigger] queue[k];
            &&& row < rows.len()
            &&& rows[row as int].1
            &&& !sizes.contains_key(row)
        }
}

/// Taking requests keeps the queue to unmeasured directories, each queued once, only adds to
/// its end, and answers again nothing but what is known.
pub proof fn law_requests_queue_each_unmeasured_directory_once(
    rows: Seq<(Seq<char>, bool)>,
    sizes: Map<usize, (u64, bool)>,
    queue: Seq<usize>,
    asked: Seq<usize>,
)
    requires
        queue_ok(rows, sizes, queue),
    ensures
        queue_ok(rows, sizes, queue_all(rows, sizes, queue, asked).0),
        queue.is_prefix_of(queue_all(rows, sizes, queue, asked).0),
        forall|k: int|
            0 <= k < queue_all(rows, sizes, queue, asked).1.len() ==> {
                let a = #[trigger] queue_all(rows, sizes, queue, asked).1[k];
                &&& sizes.contains_key(a.0)
                &&& sizes[a.0] == (a.1, a.2)
            },
    decreases asked.len(),
{
    if asked.len() > 0 {
        law_requests_queue_each_unmeasured_directory_once(rows, sizes, queue, asked.drop_last());
        let (q, ans) = queue_all(rows, sizes, queue, asked.drop_last());
        let row = asked.last();
        let (q2, ans2) = queue_one(rows, sizes, (q, ans), row);
        if q2 != q {
            assert(q2 == q.push(row));
            assert(!q.contains(row));
            assert(q2.no_duplicates()) by {
                assert forall|i: int, j: int| 0 <= i < q2.len() && 0 <= j < q2.len() && i != j implies q2[i]
                    != q2[j] by {
                    if i == q.len() as int {
                        assert(q[j] != row);
                    } else if j == q.len() as int {
                        assert(q[i] != row);
                    }
                }
            }
        }
        assert forall|k: int| 0 <= k < ans2.len() implies {
            let a = #[trigger] ans2[k];
            &&& sizes.contains_key(a.0)
            &&& sizes[a.0] == (a.1, a.2)
        } by {
            if k < ans.len() {
                assert(ans2[k] == ans[k]);
            }
        }
        assert(queue.is_prefix_of(q2)) by {
            assert forall|k: int| 0 <= k < queue.len() implies q2[k] == queue[k] by {
                assert(q[k] == queue[k]);
            }
        }
    }
}

/// Measuring the first queued row keeps the rest of the queue to unmeasured directories, each
/// once, so a directory is walked at most once.
pub proof fn law_measuring_keeps_the_queue_unmeasured(
    rows: Seq<(Seq<char>, bool)>,
    sizes: Map<usize, (u64, bool)>,
    queue: Seq<usize>,
    measured: (u64, bool),
)
    requires
        queue_ok(rows, sizes, queue),
        queue.len() > 0,
    ensures
        queue_ok(rows, sizes.insert(queue[0], measured), queue.drop_first()),
{
    let rest = queue.drop_first();
    assert forall|k: int| 0 <= k < rest.len() implies rest[k] != queue[0] by {
        assert(rest[k] == queue[k + 1]);
    }
    assert forall|k: int| 0 <= k < rest.len() implies {
        let row = #[trigger] rest[k];
        &&& row < rows.len()
        &&& rows[row as int].1
        &&& !sizes.insert(queue[0], measured).contains_key(row)
    } by {
        assert(rest[k] == queue[k + 1]);
    }
    assert(rest.no_duplicates()) by {
        assert forall|i: int, j: int| 0 <= i < rest.len() && 0 <= j < rest.len() && i != j implies rest[i]
            != rest[j] by {
            assert(rest[i] == queue[i + 1] && rest[j] == queue[j + 1]);
        }
    }
}

/// Takes the size requests for `asked`: queues the directories not yet measured and answers
/// again, in order, the ones that were.
pub fn queue_dirsizes(
    listing: &Listing,
    sizes: &HashMap<usize, (u64, bool)>,
    queue: &mut Vec<usize>,
    asked: &[usize],
) -> (r: Vec<SizeAnswer>)
    ensures
        (final(queue)@, r@) == queue_all(listing@, sizes@, old(queue)@, asked@),
{
    let mut answers: Vec<SizeAnswer> = Vec::new();
    let mut i: usize = 0;
    assert(asked@.take(0) =~= Seq::<usize>::empty());
    while i < asked.len()
        invariant
            i <= asked.len(),
            (queue@, answers@) == queue_all(listing@, sizes@, old(queue)@, asked@.take(i as int)),
        decreases asked.len() - i,
    {
        let row = asked[i];
        assert(asked@.take(i + 1).drop_last() =~= asked@.take(i as int));
        if row >= listing.len() || !listing.is_dir(row) {
        } else {
            match sizes.get(&row) {
                Some(known) => {
                    answers.push((row, known.0, known.1));
                },
                None => {
                    let mut k: usize = 0;
                    let mut found = false;
                    while k < queue.len()
                        invariant
                            k <= queue.len(),
                            found == exists|j: int| 0 <= j < k && queue@[j] == row,
                        decreases queue.len() - k,
                    {
                        if queue[k] == row {
                            found = true;
                        }
                        k = k + 1;
                    }
                    if !found {
                        queue.push(row);
                    } else {
                        let ghost j = choose|j: int| 0 <= j < k && queue@[j] == row;
                        assert(queue@.contains(row));
                    }
                },
            }
        }
        i = i + 1;
    }
    assert(asked@.take(asked.len() as int) =~= asked@);
    answers
}

/// Measures the first queued row, one directory per call, with `walk`, which is handed the
/// row's name and answers its bytes and whether it stopped short. A row the listing no longer
/// has is dropped unmeasured. Answers what to tell the client.
pub fn walk_one_dirsize<F: Fn(&str) -> (u64, bool)>(
    listing: &Listing,
    sizes: &mut HashMap<usize, (u64, bool)>,
    queue: &mut Vec<usize>,
    walk: F,
) -> (r: Option<SizeAnswer>)
    requires
        old(queue)@.len() > 0,
        forall|n: &str| #[trigger] call_requires(walk, (n,)),
    ensures
        final(queue)@ == old(queue)@.drop_first(),
        old(queue)@[0] >= listing@.len() ==> r is None && final(sizes)@ == old(sizes)@,
        old(queue)@[0] < listing@.len() ==> match r {
            Some(a) => {
                &&& a.0 == old(queue)@[0]
                &&& final(sizes)@ == old(sizes)@.insert(a.0, (a.1, a.2))
                &&& exists|n: &str|
                    n@ == listing@[a.0 as int].0 && #[trigger] call_ensures(walk, (n,), (a.1, a.2))
            },
            None => false,
        },
{
    let row = queue.remove(0);
    assert(queue@ =~= old(queue)@.drop_first());
    if row >= listing.len() {
        return None;
    }
    let name = listing.name(row);
    let (bytes, partial) = walk(name);
    sizes.insert(row, (bytes, partial));
    Some((row, bytes, partial))
}

} // verus!
