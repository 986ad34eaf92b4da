//! Human descriptions of MIME types, read lazily from the shared MIME database and cached for
//! the life of the process, so every type is read at most once.
use vstd::prelude::*;
use crate::text::{chars_of, find_char, find_in, lemma_find_char_bound, str_eq, string_of};

verus! {

broadcast use vstd::string::group_string_axioms;

/// The first index at which `p` occurs in `s`, or `s.len()` where it does not.
pub open spec fn find_seq(s: Seq<char>, p: Seq<char>) -> int
    decreases s.len(),
{
    if s.len() < p.len() {
        s.len() as int
    } else if s.take(p.len() as int) == p {
        0
    } else {
        proof {
            if s.len() == 0 {
                assert(s.take(p.len() as int) =~= p);
            }
        }
        1 + find_seq(s.drop_first(), p)
    }
}

/// `p` occurs in `s` at `k`.
pub open spec fn occurs_at(s: Seq<char>, p: Seq<char>, k: int) -> bool {
    k + p.len() <= s.len() && s.subrange(k, k + p.len()) == p
}

proof fn lemma_find_seq(s: Seq<char>, p: Seq<char>, i: int)
    requires
        p.len() > 0,
        0 <= i <= s.len(),
        forall|k: int| 0 <= k < i ==> !#[trigger] occurs_at(s, p, k),
        i == s.len() || occurs_at(s, p, i),
        i + p.len() > s.len() ==> i == s.len(),
    ensures
        find_seq(s, p) == i,
    decreases s.len(),
{
    if s.len() < p.len() {
    } else if s.take(p.len() as int) == p {
        assert(s.subrange(0, p.len() as int) =~= s.take(p.len() as int));
        assert(occurs_at(s, p, 0));
    } else {
        assert(s.subrange(0, p.len() as int) =~= s.take(p.len() as int));
        assert(!occurs_at(s, p, 0) || i > 0);
        if i == 0 {
            assert(occurs_at(s, p, 0));
        }
        let t = s.drop_first();
        assert forall|k: int| 0 <= k < i - 1 implies !#[trigger] occurs_at(t, p, k) by {
            assert(!occurs_at(s, p, k + 1));
            if k + p.len() <= t.len() {
                assert(t.subrange(k, k + p.len()) =~= s.subrange(k + 1, k + 1 + p.len()));
            }
        }
        if i < s.len() {
            assert(t.subrange(i - 1, i - 1 + p.len()) =~= s.subrange(i, i + p.len()));
        }
        lemma_find_seq(t, p, i - 1);
    }
}

pub proof fn lemma_find_seq_bound(s: Seq<char>, p: Seq<char>)
    ensures
        0 <= find_seq(s, p) <= s.len(),
    decreases s.len(),
{
    if s.len() >= p.len() && s.take(p.len() as int) != p {
        if s.len() == 0 {
            assert(s.take(p.len() as int) =~= p);
        }
        lemma_find_seq_bound(s.drop_first(), p);
    }
}

/// The first index at or after `lo` where `p` occurs within `v[lo..hi]`, or `hi`.
fn find_seq_in(v: &Vec<char>, lo: usize, hi: usize, p: &Vec<char>) -> (r: usize)
    requires
        lo <= hi <= v.len(),
        p.len() > 0,
    ensures
        lo <= r <= hi,
        r == lo + find_seq(v@.subrange(lo as int, hi as int), p@),
{
    let ghost s = v@.subrange(lo as int, hi as int);
    let m = p.len();
    let mut i = lo;
    while i < hi
        invariant
            lo <= i <= hi <= v.len(),
            m == p.len(),
            m > 0,
            s == v@.subrange(lo as int, hi as int),
            forall|k: int| 0 <= k < i - lo ==> !#[trigger] occurs_at(s, p@, k),
        decreases hi - i,
    {
        if hi - i < m {
            proof {
                lemma_find_seq(s, p@, s.len() as int);
            }
            return hi;
        }
        let mut j: usize = 0;
        while j < m && v[i + j] == p[j]
            invariant
                j <= m,
                m == p.len(),
                i + m <= hi <= v.len(),
                forall|l: int| 0 <= l < j ==> v@[i + l] == p@[l],
            decreases m - j,
        {
            j = j + 1;
        }
        if j == m {
            assert(s.subrange(i - lo, i - lo + m) =~= p@);
            proof {
                lemma_find_seq(s, p@, i - lo);
            }
            return i;
        }
        assert(s.subrange(i - lo, i - lo + m)[j as int] != p@[j as int]);
        i = i + 1;
    }
    proof {
        lemma_find_seq(s, p@, s.len() as int);
    }
    hi
}

/// The text of the first `<comment>` that carries no `xml:lang` attribute: the text between its
/// tag's `>` and the next `</comment>`. None where there is no such comment.
pub open spec fn untranslated_comment(rest: Seq<char>) -> Option<Seq<char>>
    decreases rest.len(),
{
    let st = find_seq(rest, "<comment"@);
    proof {
        lemma_find_seq_bound(rest, "<comment"@);
    }
    if st >= rest.len() {
        None
    } else {
        let r1 = rest.skip(st);
        let te = find_char(r1, '>');
        proof {
            lemma_find_char_bound(r1, '>');
        }
        if te >= r1.len() {
            None
        } else {
            let tag = r1.take(te);
            let r2 = r1.skip(te + 1);
            if find_seq(tag, "xml:lang"@) < tag.len() {
                untranslated_comment(r2)
            } else {
                let close = find_seq(r2, "</comment>"@);
                if close >= r2.len() {
                    None
                } else {
                    Some(r2.take(close))
                }
            }
        }
    }
}

/// The first untranslated `<comment>` of a shared-mime-info type file; the translations come
/// first in those files, so the first comment of any kind is not the answer.
pub fn first_untranslated_comment(text: &str) -> (r: Option<String>)
    ensures
        match r {
            Some(c) => untranslated_comment(text@) == Some(c@),
            None => untranslated_comment(text@) is None,
        },
{
    let v = chars_of(text);
    let open_tag = chars_of("<comment");
    let lang = chars_of("xml:lang");
    let close_tag = chars_of("</comment>");
    proof {
        reveal_strlit("<comment");
        reveal_strlit("xml:lang");
        reveal_strlit("</comment>");
    }
    let n = v.len();
    let mut pos: usize = 0;
    assert(v@.subrange(0, n as int) =~= v@);
    loop
        invariant
            n == v.len(),
            pos <= n,
            v@ == text@,
            open_tag@ == "<comment"@,
            lang@ == "xml:lang"@,
            close_tag@ == "</comment>"@,
            open_tag.len() > 0,
            lang.len() > 0,
            close_tag.len() > 0,
            untranslated_comment(text@) == untranslated_comment(v@.subrange(pos as int, n as int)),
        decreases n - pos,
    {
        let ghost rest = v@.subrange(pos as int, n as int);
        let st = find_seq_in(&v, pos, n, &open_tag);
        if st == n {
            return None;
        }
        let ghost r1 = rest.skip(st - pos);
        assert(r1 =~= v@.subrange(st as int, n as int));
        let te = find_in(&v, st, n, '>');
        if te == n {
            return None;
        }
        let ghost tag = r1.take(te - st);
        assert(tag =~= v@.subrange(st as int, te as int));
        assert(r1.skip(te - st + 1) =~= v@.subrange(te + 1, n as int));
        let lang_at = find_seq_in(&v, st, te, &lang);
        if lang_at < te {
            pos = te + 1;
        } else {
            let close = find_seq_in(&v, te + 1, n, &close_tag);
            if close == n {
                return None;
            }
            assert(v@.subrange(te + 1, n as int).take(close - te - 1) =~= v@.subrange(
                te + 1,
                close as int,
            ));
            return Some(string_of(&v, te + 1, close));
        }
    }
}

/// The cache: MIME type to its comment, where one was read.
pub open spec fn cache_map(s: Seq<(String, Option<String>)>) -> Map<Seq<char>, Option<Seq<char>>>
    decreases s.len(),
{
    if s.len() == 0 {
        Map::empty()
    } else {
        cache_map(s.drop_last()).insert(s.last().0@, opt_view(s.last().1))
    }
}

/// The characters of an optional string.
pub open spec fn opt_view(s: Option<String>) -> Option<Seq<char>> {
    match s {
        Some(x) => Some(x@),
        None => None,
    }
}

proof fn lemma_cache_absent(s: Seq<(String, Option<String>)>, k: Seq<char>)
    requires
        forall|j: int| 0 <= j < s.len() ==> (#[trigger] s[j]).0@ != k,
    ensures
        !cache_map(s).contains_key(k),
    decreases s.len(),
{
    if s.len() > 0 {
        assert forall|j: int| 0 <= j < s.drop_last().len() implies (#[trigger] s.drop_last()[j]).0@
            != k by {
            assert(s.drop_last()[j] == s[j]);
        }
        lemma_cache_absent(s.drop_last(), k);
    }
}

proof fn lemma_cache_last(s: Seq<(String, Option<String>)>, k: Seq<char>, i: int)
    requires
        0 <= i < s.len(),
        s[i].0@ == k,
        forall|j: int| i < j < s.len() ==> (#[trigger] s[j]).0@ != k,
    ensures
        cache_map(s).contains_key(k),
        cache_map(s)[k] == opt_view(s[i].1),
    decreases s.len(),
{
    if i < s.len() - 1 {
        assert forall|j: int| i < j < s.drop_last().len() implies (#[trigger] s.drop_last()[j]).0@
            != k by {
            assert(s.drop_last()[j] == s[j]);
        }
        lemma_cache_last(s.drop_last(), k, i);
    }
}

proof fn lemma_cache_contains(s: Seq<(String, Option<String>)>, k: Seq<char>, i: int)
    requires
        0 <= i < s.len(),
        s[i].0@ == k,
    ensures
        cache_map(s).contains_key(k),
    decreases s.len(),
{
    if i < s.len() - 1 {
        assert(s.drop_last()[i] == s[i]);
        lemma_cache_contains(s.drop_last(), k, i);
    }
}

/// A per-process, per-type cache of MIME comments, with the number of reads it made.
pub struct Kinds {
    cache: Vec<(String, Option<String>)>,
    reads: u32,
}

impl Kinds {
    /// What the cache holds: type to comment, None where the type has none.
    pub closed spec fn cached(&self) -> Map<Seq<char>, Option<Seq<char>>> {
        cache_map(self.cache@)
    }

    /// The number of reads made so far.
    pub closed spec fn read_count(&self) -> u32 {
        self.reads
    }

    /// An empty cache that has read nothing.
    pub fn new() -> (r: Kinds)
        ensures
            r.cached() == Map::<Seq<char>, Option<Seq<char>>>::empty(),
            r.read_count() == 0,
    {
        Kinds { cache: Vec::new(), reads: 0 }
    }

    /// A cache seeded with `pairs`, a later pair for a type winning, that has read nothing.
    pub fn from_pairs(pairs: &[(&str, Option<&str>)]) -> (r: Kinds)
        ensures
            r.read_count() == 0,
            forall|i: int|
                0 <= i < pairs@.len() ==> #[trigger] r.cached().contains_key(pairs@[i].0@),
            forall|k: Seq<char>| #[trigger]
                r.cached().contains_key(k) ==> exists|i: int|
                    0 <= i < pairs@.len() && pairs@[i].0@ == k,
            forall|i: int|
                0 <= i < pairs@.len() && (forall|j: int|
                    i < j < pairs@.len() ==> (#[trigger] pairs@[j]).0@ != pairs@[i].0@)
                    ==> r.cached()[#[trigger] pairs@[i].0@] == match pairs@[i].1 {
                    Some(c) => Some(c@),
                    None => None,
                },
    {
        let mut cache: Vec<(String, Option<String>)> = Vec::new();
        let mut i: usize = 0;
        while i < pairs.len()
            invariant
                i <= pairs.len(),
                cache.len() == i,
                forall|j: int|
                    0 <= j < i ==> (#[trigger] cache@[j]).0@ == pairs@[j].0@ && opt_view(
                        cache@[j].1,
                    ) == match pairs@[j].1 {
                        Some(c) => Some(c@),
                        None => None,
                    },
            decreases pairs.len() - i,
        {
            let (k, v) = pairs[i];
            let value = match v {
                Some(c) => Some(c.to_owned()),
                None => None,
            };
            cache.push((k.to_owned(), value));
            i = i + 1;
        }
        proof {
            assert forall|i: int|
                0 <= i < pairs@.len() && (forall|j: int|
                    i < j < pairs@.len() ==> (#[trigger] pairs@[j]).0@ != pairs@[i].0@) implies
                cache_map(cache@).contains_key(pairs@[i].0@) && cache_map(cache@)[pairs@[i].0@]
                == match pairs@[i].1 {
                Some(c) => Some(c@),
                None => None,
            } by {
                assert forall|j: int| i < j < cache@.len() implies (#[trigger] cache@[j]).0@
                    != pairs@[i].0@ by {
                    assert(pairs@[j].0@ != pairs@[i].0@);
                }
                lemma_cache_last(cache@, pairs@[i].0@, i);
            }
            assert forall|i: int| 0 <= i < pairs@.len() implies #[trigger] cache_map(
                cache@,
            ).contains_key(pairs@[i].0@) by {
                lemma_cache_contains(cache@, pairs@[i].0@, i);
            }
            assert forall|k: Seq<char>| #[trigger]
                cache_map(cache@).contains_key(k) implies exists|i: int|
                0 <= i < pairs@.len() && pairs@[i].0@ == k by {
                if !(exists|i: int| 0 <= i < pairs@.len() && pairs@[i].0@ == k) {
                    assert forall|j: int| 0 <= j < cache@.len() implies (#[trigger] cache@[j]).0@
                        != k by {
                        assert(pairs@[j].0@ != k);
                    }
                    lemma_cache_absent(cache@, k);
                }
            }
        }
        Kinds { cache, reads: 0 }
    }

    /// How many reads the cache has made: a cache with no observable hit count is one nobody
    /// can test.
    pub fn reads(&self) -> (r: u32)
        ensures
            r == self.read_count(),
    {
        self.reads
    }

    /// The comment of `mime`: answered from the cache where the type was asked before; otherwise
    /// read once with `read`, counted and remembered, whatever the read gave.
    pub fn comment<F: Fn(&str) -> Option<String>>(&mut self, mime: &str, read: F) -> (r: Option<
        String,
    >)
        requires
            !old(self).cached().contains_key(mime@) ==> old(self).read_count() < u32::MAX,
            call_requires(read, (mime,)),
        ensures
            old(self).cached().contains_key(mime@) ==> {
                &&& opt_view(r) == old(self).cached()[mime@]
                &&& final(self).cached() == old(self).cached()
                &&& final(self).read_count() == old(self).read_count()
            },
            !old(self).cached().contains_key(mime@) ==> {
                &&& call_ensures(read, (mime,), r)
                &&& final(self).cached() == old(self).cached().insert(mime@, opt_view(r))
                &&& final(self).read_count() == old(self).read_count() + 1
            },
    {
        let mut i = self.cache.len();
        while i > 0
            invariant
                i <= self.cache.len(),
                forall|j: int| i <= j < self.cache.len() ==> (#[trigger] self.cache@[j]).0@
                    != mime@,
            decreases i,
        {
            if str_eq(self.cache[i - 1].0.as_str(), mime) {
                proof {
                    lemma_cache_last(self.cache@, mime@, i - 1);
                }
                return match &self.cache[i - 1].1 {
                    Some(c) => Some(c.clone()),
                    None => None,
                };
            }
            i = i - 1;
        }
        proof {
            lemma_cache_absent(self.cache@, mime@);
        }
        self.reads = self.reads + 1;
        let value = read(mime);
        let stored = match &value {
            Some(c) => Some(c.clone()),
            None => None,
        };
        self.cache.push((mime.to_owned(), stored));
        assert(self.cache@.drop_last() =~= old(self).cache@);
        value
    }
}

} // verus!
