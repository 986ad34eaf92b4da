//! Fuzzy scoring of search candidates: a query matches a candidate when its characters occur in
//! the candidate in order, ignoring case, and the score ranks the matches: a contiguous run, a
//! match at a word or path boundary, and a match in the file's own name all raise it, and every
//! candidate character skipped between two matches lowers it.
use vstd::prelude::*;
use crate::text::chars_of;
use crate::order::{rank_key, rank_sign};
use std::cmp::Ordering;
use vstd::string::StringSliceAdditionalSpecFns;

verus! {

broadcast use vstd::string::group_string_axioms;

/// A character matching right after the previous one.
pub const BONUS_CONSECUTIVE: i32 = 8;

/// The first character of the candidate, of a path segment, of a word, or of a camelCase hump.
pub const BONUS_BOUNDARY: i32 = 6;

/// The match is in the file's own name rather than in a parent directory.
pub const BONUS_BASENAME: i32 = 4;

/// Charged per candidate character skipped between two matches.
pub const PENALTY_GAP: i32 = 1;

/// How many occurrences of the query's first character are tried as alignment starts.
pub const MAX_STARTS: usize = 16;

/// The longest candidate, in characters, whose gaps fit in an `i32`: a score is never below
/// minus the candidate's length.
pub const MAX_CANDIDATE: usize = 2_147_483_647;

/// The most matched characters a score can count and still fit in an `i32`: each adds at most
/// 18, and this is `i32::MAX / 18`. A match counts no more characters than the shorter of the
/// query and the candidate.
pub const MAX_MATCHES: usize = 119_304_647;

/// A query of `q` characters scores a candidate of `c` characters within an `i32`: past these
/// bounds the score itself overflows.
pub open spec fn scorable(q: nat, c: nat) -> bool {
    q == 0 || (c <= MAX_CANDIDATE && (q <= MAX_MATCHES || c <= MAX_MATCHES))
}

/// The first character of the lowercase mapping of `c`, as `char::to_lowercase` yields it.
pub uninterp spec fn lower_char(c: char) -> char;

/// The lowercase mapping of a whole string, as `str::to_lowercase` gives it.
pub uninterp spec fn lowercase(s: Seq<char>) -> Seq<char>;

/// `char::to_lowercase`: the first character of the mapping, which always has one.
#[verifier::external_body]
fn lower_first(c: char) -> (r: char)
    ensures
        r == lower_char(c),
{
    c.to_lowercase().next().unwrap_or(c)
}

/// `str::to_lowercase`; the lowercase form of the empty string is empty.
#[verifier::external_body]
fn to_lowercase(s: &str) -> (r: String)
    ensures
        r@ == lowercase(s@),
        s@.len() == 0 ==> r@.len() == 0,
{
    s.to_lowercase()
}

/// The characters a word or a path segment starts after.
pub open spec fn separator(c: char) -> bool {
    c == '/' || c == '-' || c == '_' || c == '.' || c == ' '
}

/// Whether a word or a path segment starts after `c`.
pub fn is_separator(c: char) -> (r: bool)
    ensures
        r == separator(c),
{
    c == '/' || c == '-' || c == '_' || c == '.' || c == ' '
}

/// One candidate character, folded once: its lowercase form and whether folding changed it.
#[derive(Clone, Copy)]
pub struct Folded {
    pub lower: char,
    pub upper: bool,
}

/// The folded form of `c`.
pub open spec fn folded(c: char) -> Folded {
    Folded { lower: lower_char(c), upper: lower_char(c) != c }
}

/// Every character of `s`, folded.
pub open spec fn fold_all(s: Seq<char>) -> Seq<Folded> {
    s.map_values(|c: char| folded(c))
}

/// The lowercase forms of a folded candidate.
pub open spec fn lowers(h: Seq<Folded>) -> Seq<char> {
    h.map_values(|f: Folded| f.lower)
}

/// Folds one candidate character.
pub fn fold(c: char) -> (r: Folded)
    ensures
        r == folded(c),
{
    let lower = lower_first(c);
    Folded { lower, upper: lower != c }
}

/// Where the candidate's own name begins: just after its last `/`, or 0 with none.
pub open spec fn base_of(low: Seq<char>) -> int
    decreases low.len(),
{
    if low.len() == 0 {
        0
    } else if low.last() == '/' {
        low.len() as int
    } else {
        base_of(low.drop_last())
    }
}

proof fn lemma_base_bound(low: Seq<char>)
    ensures
        0 <= base_of(low) <= low.len(),
    decreases low.len(),
{
    if low.len() > 0 {
        lemma_base_bound(low.drop_last());
    }
}

/// The candidate's own name begins just after its LAST `/`: the base is 0 where there is no
/// `/` at all, and otherwise the character before it is a `/` and none follows. So a match in
/// a parent directory, however deep, lies before the base.
pub proof fn law_base_follows_the_last_slash(low: Seq<char>)
    ensures
        0 <= base_of(low) <= low.len(),
        base_of(low) == 0 ==> forall|i: int| 0 <= i < low.len() ==> low[i] != '/',
        base_of(low) > 0 ==> low[base_of(low) - 1] == '/',
        forall|i: int| base_of(low) <= i < low.len() ==> low[i] != '/',
    decreases low.len(),
{
    if low.len() > 0 {
        let t = low.drop_last();
        law_base_follows_the_last_slash(t);
        assert forall|i: int| base_of(low) <= i < low.len() implies low[i] != '/' by {
            if i < t.len() {
                assert(low[i] == t[i]);
            }
        }
        if base_of(low) > 0 && low.last() != '/' {
            assert(low[base_of(low) - 1] == t[base_of(low) - 1]);
        }
        if base_of(low) == 0 {
            assert forall|i: int| 0 <= i < low.len() implies low[i] != '/' by {
                if i < t.len() {
                    assert(low[i] == t[i]);
                }
            }
        }
    }
}

/// The index just after the last separator `/` of a folded candidate.
pub fn base_start(hay: &Vec<Folded>) -> (r: usize)
    ensures
        r == base_of(lowers(hay@)),
        r <= hay.len(),
        r == 0 || hay@[r - 1].lower == '/',
        forall|i: int| r <= i < hay.len() ==> hay@[i].lower != '/',
{
    proof {
        law_base_follows_the_last_slash(lowers(hay@));
    }
    let mut start: usize = 0;
    let mut i: usize = 0;
    while i < hay.len()
        invariant
            i <= hay.len(),
            start <= i,
            start == base_of(lowers(hay@).take(i as int)),
        decreases hay.len() - i,
    {
        assert(lowers(hay@).take(i + 1).drop_last() =~= lowers(hay@).take(i as int));
        if hay[i].lower == '/' {
            start = i + 1;
        }
        i = i + 1;
    }
    assert(lowers(hay@).take(i as int) =~= lowers(hay@));
    assert forall|k: int| start <= k < hay.len() implies hay@[k].lower != '/' by {
        assert(lowers(hay@)[k] == hay@[k].lower);
    }
    start
}

/// Whether the match at `at` starts a word: the candidate's first character, one after a
/// separator, or an uppercase character after one that is not.
pub open spec fn starts_word(hay: Seq<Folded>, at: int) -> bool {
    at == 0 || separator(hay[at - 1].lower) || (hay[at].upper && !hay[at - 1].upper)
}

/// What one matched character is worth: a run, a boundary and the base name each add, and the
/// characters skipped since the previous match are charged back.
pub open spec fn char_score(hay: Seq<Folded>, base: int, at: int, previous: Option<int>) -> int {
    (match previous {
        Some(p) => if at == p + 1 {
            BONUS_CONSECUTIVE as int
        } else {
            -(PENALTY_GAP * (at - p - 1))
        },
        None => 0,
    }) + (if starts_word(hay, at) {
        BONUS_BOUNDARY as int
    } else {
        0
    }) + (if at >= base {
        BONUS_BASENAME as int
    } else {
        0
    })
}

/// The first position at or after `from` whose lowercase form is `c`, or the length.
pub open spec fn next_match(hay: Seq<Folded>, from: int, c: char) -> int
    decreases hay.len() - from,
{
    if from >= hay.len() {
        hay.len() as int
    } else if hay[from].lower == c {
        from
    } else {
        next_match(hay, from + 1, c)
    }
}

/// The greedy alignment of `needle[k..]` after a match at `prev`: every needle character takes
/// the next candidate character that matches it. Its score, or None where it cannot finish.
pub open spec fn run(hay: Seq<Folded>, needle: Seq<char>, base: int, k: int, prev: int) -> Option<int>
    decreases needle.len() - k,
{
    if k >= needle.len() {
        Some(0)
    } else {
        let at = next_match(hay, prev + 1, needle[k]);
        if at >= hay.len() {
            None
        } else {
            match run(hay, needle, base, k + 1, at) {
                Some(t) => Some(char_score(hay, base, at, Some(prev)) + t),
                None => None,
            }
        }
    }
}

/// The score of the greedy alignment that starts at `start`, or None where it cannot finish.
pub open spec fn score_from(hay: Seq<Folded>, needle: Seq<char>, base: int, start: int) -> Option<int> {
    match run(hay, needle, base, 1, start) {
        Some(t) => Some(char_score(hay, base, start, None) + t),
        None => None,
    }
}

/// The number of positions before `i` whose lowercase form is `c`.
pub open spec fn count_before(low: Seq<char>, c: char, i: int) -> int
    decreases i,
{
    if i <= 0 {
        0
    } else {
        count_before(low, c, i - 1) + (if low[i - 1] == c {
            1int
        } else {
            0
        })
    }
}

/// An alignment start that the score considers: an occurrence of the query's first character
/// among the first `MAX_STARTS` of them.
pub open spec fn considered_start(hay: Seq<Folded>, needle: Seq<char>, i: int) -> bool {
    &&& 0 <= i < hay.len()
    &&& hay[i].lower == needle[0]
    &&& count_before(lowers(hay), needle[0], i) < MAX_STARTS
}

/// The score of the alignment from start `i`.
pub open spec fn start_score(hay: Seq<Folded>, needle: Seq<char>, i: int) -> Option<int> {
    score_from(hay, needle, base_of(lowers(hay)), i)
}

/// What `score` answers for a folded needle and a candidate: `Some(0)` for an empty needle;
/// otherwise the best score among the considered starts whose alignment finishes, or None when
/// none finishes.
pub open spec fn is_score(needle: Seq<char>, candidate: Seq<char>, r: Option<i32>) -> bool {
    let hay = fold_all(candidate);
    if needle.len() == 0 {
        r == Some(0i32)
    } else {
        match r {
            None => forall|i: int| #[trigger]
                considered_start(hay, needle, i) ==> start_score(hay, needle, i) is None,
            Some(s) => {
                &&& exists|i: int| #[trigger]
                    considered_start(hay, needle, i) && start_score(hay, needle, i) == Some(
                        s as int,
                    )
                &&& forall|i: int| #[trigger]
                    considered_start(hay, needle, i) && start_score(hay, needle, i) is Some
                        ==> start_score(hay, needle, i)->0 <= s
            },
        }
    }
}

/// Holds the folded query for a whole walk and reuses one candidate buffer.
pub struct Fuzzy {
    needle: Vec<char>,
    hay: Vec<Folded>,
}

impl View for Fuzzy {
    type V = Seq<char>;

    /// The folded query.
    closed spec fn view(&self) -> Seq<char> {
        self.needle@
    }
}

impl Fuzzy {
    /// A scorer for `query`, folded to lowercase once.
    pub fn new(query: &str) -> (r: Fuzzy)
        ensures
            r@ == lowercase(query@),
            query@.len() == 0 ==> r@.len() == 0,
    {
        let lower = to_lowercase(query);
        Fuzzy { needle: chars_of(lower.as_str()), hay: Vec::new() }
    }

    /// Whether the query is empty, which every candidate matches.
    pub fn is_empty(&self) -> (r: bool)
        ensures
            r == (self@.len() == 0),
    {
        self.needle.len() == 0
    }

    /// Whether a candidate of `chars` characters scores within an `i32`.
    pub fn can_score(&self, chars: usize) -> (r: bool)
        ensures
            r == scorable(self@.len(), chars as nat),
    {
        let q = self.needle.len();
        q == 0 || (chars <= MAX_CANDIDATE && (q <= MAX_MATCHES || chars <= MAX_MATCHES))
    }

    /// Whether the match at `at` starts a word.
    fn starts_a_word(&self, at: usize) -> (r: bool)
        requires
            at < self.hay.len(),
        ensures
            r == starts_word(self.hay@, at as int),
    {
        if at == 0 {
            return true;
        }
        let before = self.hay[at - 1];
        is_separator(before.lower) || (self.hay[at].upper && !before.upper)
    }

    /// What one matched character is worth.
    fn character_score(&self, at: usize, base: usize, previous: Option<usize>) -> (r: i32)
        requires
            at < self.hay.len(),
            self.hay.len() <= MAX_CANDIDATE,
            previous matches Some(p) ==> p < at,
        ensures
            r == char_score(self.hay@, base as int, at as int, opt_int(previous)),
            -(at as int) <= r <= 18,
    {
        let mut score: i32 = 0;
        match previous {
            Some(p) => {
                if at == p + 1 {
                    score = score + BONUS_CONSECUTIVE;
                } else {
                    score = score - PENALTY_GAP * ((at - p - 1) as i32);
                }
            },
            None => {},
        }
        if self.starts_a_word(at) {
            score = score + BONUS_BOUNDARY;
        }
        if at >= base {
            score = score + BONUS_BASENAME;
        }
        score
    }
}

/// The position `next_match` finds matches, and nothing before it does.
pub proof fn lemma_next_match(hay: Seq<Folded>, from: int, c: char)
    requires
        0 <= from,
    ensures
        from <= next_match(hay, from, c) || from > hay.len(),
        next_match(hay, from, c) <= hay.len(),
        next_match(hay, from, c) < hay.len() ==> hay[next_match(hay, from, c)].lower == c,
        forall|j: int| from <= j < next_match(hay, from, c) ==> hay[j].lower != c,
    decreases hay.len() - from,
{
    if from < hay.len() && hay[from].lower != c {
        lemma_next_match(hay, from + 1, c);
    }
}

/// A greedy alignment that finishes after a later match also finishes after an earlier one.
pub proof fn lemma_run_earlier(
    hay: Seq<Folded>,
    needle: Seq<char>,
    base: int,
    k: int,
    p1: int,
    p2: int,
)
    requires
        0 <= p1 <= p2,
        run(hay, needle, base, k, p2) is Some,
    ensures
        run(hay, needle, base, k, p1) is Some,
    decreases needle.len() - k,
{
    if k < needle.len() {
        let a1 = next_match(hay, p1 + 1, needle[k]);
        let a2 = next_match(hay, p2 + 1, needle[k]);
        lemma_next_match(hay, p1 + 1, needle[k]);
        lemma_next_match(hay, p2 + 1, needle[k]);
        assert(a1 <= a2);
        lemma_run_earlier(hay, needle, base, k + 1, a1, a2);
    }
}

/// Counting occurrences never goes down as the prefix grows.
pub proof fn lemma_count_grows(low: Seq<char>, c: char, i: int, j: int)
    requires
        i <= j,
    ensures
        count_before(low, c, i) <= count_before(low, c, j),
    decreases j - i,
{
    if i < j {
        lemma_count_grows(low, c, i, j - 1);
    }
}

/// An optional score, as an integer.
pub open spec fn opt_score(r: Option<i32>) -> Option<int> {
    match r {
        Some(x) => Some(x as int),
        None => None,
    }
}

impl Fuzzy {
    /// The greedy alignment from `start`: each needle character takes the next candidate
    /// character that matches it.
    fn score_from(&self, start: usize, base: usize) -> (r: Option<i32>)
        requires
            start < self.hay.len(),
            self.needle.len() > 0,
            self.hay@[start as int].lower == self.needle@[0],
            scorable(self.needle.len() as nat, self.hay.len() as nat),
        ensures
            opt_score(r) == score_from(self.hay@, self.needle@, base as int, start as int),
    {
        let ghost hay = self.hay@;
        let ghost needle = self.needle@;
        let n = self.hay.len();
        let mut total: i32 = self.character_score(start, base, None);
        let mut at: usize = start;
        let mut k: usize = 1;
        while k < self.needle.len()
            invariant
                hay == self.hay@,
                needle == self.needle@,
                n == hay.len(),
                scorable(needle.len() as nat, n as nat),
                1 <= k <= needle.len(),
                start <= at < n,
                k <= at - start + 1,
                -((at - start) as int) - (start as int) <= total <= 18 * k,
                score_from(hay, needle, base as int, start as int) == match run(
                    hay,
                    needle,
                    base as int,
                    k as int,
                    at as int,
                ) {
                    Some(t) => Some(total + t),
                    None => None,
                },
            decreases needle.len() - k,
        {
            let prev = at;
            let c = self.needle[k];
            proof {
                lemma_next_match(hay, prev + 1, c);
            }
            at = at + 1;
            while at < n && self.hay[at].lower != c
                invariant
                    hay == self.hay@,
                    n == hay.len(),
                    prev < at <= n,
                    next_match(hay, prev + 1, c) == next_match(hay, at as int, c),
                decreases n - at,
            {
                at = at + 1;
            }
            if at == n {
                return None;
            }
            let s = self.character_score(at, base, Some(prev));
            total = total + s;
            k = k + 1;
        }
        Some(total)
    }

    /// The best score among the first `MAX_STARTS` alignment starts, or None where the query is
    /// not a subsequence of the candidate. An empty query matches everything with score 0. The
    /// answer depends on the query and this candidate alone, never on an earlier candidate.
    pub fn score(&mut self, candidate: &str) -> (r: Option<i32>)
        requires
            scorable(old(self)@.len(), candidate@.len()),
        ensures
            final(self)@ == old(self)@,
            is_score(old(self)@, candidate@, r),
            r == score_of(old(self)@, candidate@),
    {
        let r = self.best_score(candidate);
        proof {
            lemma_score_of(old(self)@, candidate@, r);
        }
        r
    }

    /// The best score, as `score` answers it.
    fn best_score(&mut self, candidate: &str) -> (r: Option<i32>)
        requires
            scorable(old(self)@.len(), candidate@.len()),
        ensures
            final(self)@ == old(self)@,
            is_score(old(self)@, candidate@, r),
    {
        if self.needle.len() == 0 {
            return Some(0);
        }
        self.hay.clear();
        for c in it: candidate.chars()
            invariant
                self.hay@ == fold_all(it.history()),
                it.seq() == candidate@,
                self.needle@ == old(self).needle@,
                it.history().len() <= candidate@.len(),
        {
            assert(fold_all(it.history().push(c)) =~= fold_all(it.history()).push(folded(c)));
            self.hay.push(fold(c));
        }
        let ghost hay = self.hay@;
        let ghost needle = self.needle@;
        let ghost low = lowers(hay);
        assert(hay =~= fold_all(candidate@));
        let base = base_start(&self.hay);
        let first = self.needle[0];
        let n = self.hay.len();
        let mut best: Option<i32> = None;
        let mut starts: usize = 0;
        let mut i: usize = 0;
        while i < n
            invariant
                hay == self.hay@,
                needle == self.needle@,
                needle == old(self)@,
                needle.len() > 0,
                hay == fold_all(candidate@),
                low == lowers(hay),
                n == hay.len(),
                scorable(needle.len() as nat, n as nat),
                base == base_of(low),
                first == needle[0],
                i <= n,
                starts == count_before(low, first, i as int),
                starts < MAX_STARTS,
                match best {
                    None => forall|j: int|
                        0 <= j < i && #[trigger] considered_start(hay, needle, j) ==> start_score(
                            hay,
                            needle,
                            j,
                        ) is None,
                    Some(b) => {
                        &&& exists|j: int|
                            0 <= j < i && #[trigger] considered_start(hay, needle, j)
                                && start_score(hay, needle, j) == Some(b as int)
                        &&& forall|j: int|
                            0 <= j < i && #[trigger] considered_start(hay, needle, j)
                                && start_score(hay, needle, j) is Some ==> start_score(
                                hay,
                                needle,
                                j,
                            )->0 <= b
                    },
                },
            decreases n - i,
        {
            assert(low[i as int] == hay[i as int].lower);
            if self.hay[i].lower == first {
                assert(considered_start(hay, needle, i as int));
                match self.score_from(i, base) {
                    Some(s) => {
                        best = Some(
                            match best {
                                Some(b) => if s > b {
                                    s
                                } else {
                                    b
                                },
                                None => s,
                            },
                        );
                    },
                    None => {
                        proof {
                            assert forall|j: int| #[trigger]
                                considered_start(hay, needle, j) && j >= i implies start_score(
                                hay,
                                needle,
                                j,
                            ) is None by {
                                if start_score(hay, needle, j) is Some {
                                    lemma_run_earlier(hay, needle, base as int, 1, i as int, j);
                                }
                            }
                        }
                        return best;
                    },
                }
                starts = starts + 1;
                if starts == MAX_STARTS {
                    proof {
                        assert forall|j: int| #[trigger]
                            considered_start(hay, needle, j) implies j <= i by {
                            if j > i {
                                lemma_count_grows(low, first, i + 1, j);
                            }
                        }
                    }
                    return best;
                }
            }
            i = i + 1;
        }
        best
    }
}

/// `pos` places each character of `needle` on a position of `low` holding it, in increasing order.
pub open spec fn is_embedding(needle: Seq<char>, low: Seq<char>, pos: Seq<int>) -> bool {
    &&& pos.len() == needle.len()
    &&& forall|j: int| 0 <= j < pos.len() ==> 0 <= #[trigger] pos[j] < low.len()
    &&& forall|j: int| 0 <= j < pos.len() ==> low[#[trigger] pos[j]] == needle[j]
    &&& forall|j: int, l: int| 0 <= j < l < pos.len() ==> #[trigger] pos[j] < #[trigger] pos[l]
}

/// `needle` is a subsequence of `low`.
pub open spec fn subsequence(needle: Seq<char>, low: Seq<char>) -> bool {
    exists|pos: Seq<int>| is_embedding(needle, low, pos)
}

/// The positions a finished greedy alignment took, all after `prev`.
proof fn run_positions(hay: Seq<Folded>, needle: Seq<char>, base: int, k: int, prev: int) -> (pos:
    Seq<int>)
    requires
        0 <= k <= needle.len(),
        0 <= prev,
        run(hay, needle, base, k, prev) is Some,
    ensures
        is_embedding(needle.skip(k), lowers(hay), pos),
        forall|j: int| 0 <= j < pos.len() ==> prev < #[trigger] pos[j],
    decreases needle.len() - k,
{
    if k >= needle.len() {
        let pos = Seq::<int>::empty();
        assert(needle.skip(k).len() == 0);
        pos
    } else {
        let at = next_match(hay, prev + 1, needle[k]);
        lemma_next_match(hay, prev + 1, needle[k]);
        let rest = run_positions(hay, needle, base, k + 1, at);
        let pos = seq![at] + rest;
        assert forall|j: int| 0 <= j < pos.len() implies lowers(hay)[#[trigger] pos[j]]
            == needle.skip(k)[j] by {
            if j > 0 {
                assert(pos[j] == rest[j - 1]);
                assert(needle.skip(k + 1)[j - 1] == needle.skip(k)[j]);
            }
        }
        assert forall|j: int, l: int| 0 <= j < l < pos.len() implies #[trigger] pos[j]
            < #[trigger] pos[l] by {
            if j > 0 {
                assert(pos[j] == rest[j - 1] && pos[l] == rest[l - 1]);
            } else {
                assert(pos[l] == rest[l - 1]);
            }
        }
        pos
    }
}

/// Where `needle[k..]` can be placed after `prev`, the greedy alignment finishes.
proof fn lemma_embedding_runs(
    hay: Seq<Folded>,
    needle: Seq<char>,
    base: int,
    k: int,
    prev: int,
    pos: Seq<int>,
)
    requires
        0 <= k <= needle.len(),
        0 <= prev,
        is_embedding(needle.skip(k), lowers(hay), pos),
        forall|j: int| 0 <= j < pos.len() ==> prev < #[trigger] pos[j],
    ensures
        run(hay, needle, base, k, prev) is Some,
    decreases needle.len() - k,
{
    if k < needle.len() {
        let c = needle[k];
        assert(needle.skip(k)[0] == c);
        let p0 = pos[0];
        assert(lowers(hay)[p0] == c);
        lemma_next_match(hay, prev + 1, c);
        let at = next_match(hay, prev + 1, c);
        assert(at <= p0);
        let rest = pos.drop_first();
        assert forall|j: int| 0 <= j < rest.len() implies lowers(hay)[#[trigger] rest[j]]
            == needle.skip(k + 1)[j] by {
            assert(rest[j] == pos[j + 1]);
            assert(needle.skip(k + 1)[j] == needle.skip(k)[j + 1]);
        }
        assert forall|j: int| 0 <= j < rest.len() implies p0 < #[trigger] rest[j] by {
            assert(rest[j] == pos[j + 1]);
        }
        assert forall|j: int, l: int| 0 <= j < l < rest.len() implies #[trigger] rest[j]
            < #[trigger] rest[l] by {
            assert(rest[j] == pos[j + 1] && rest[l] == pos[l + 1]);
        }
        assert forall|j: int| 0 <= j < rest.len() implies 0 <= #[trigger] rest[j] < lowers(
            hay,
        ).len() by {
            assert(rest[j] == pos[j + 1]);
        }
        lemma_embedding_runs(hay, needle, base, k + 1, p0, rest);
        lemma_run_earlier(hay, needle, base, k + 1, at, p0);
    }
}

/// No occurrence before `i` counts as none.
proof fn lemma_count_zero(low: Seq<char>, c: char, i: int)
    requires
        i <= low.len(),
        forall|j: int| 0 <= j < i ==> low[j] != c,
    ensures
        count_before(low, c, i) == 0,
    decreases i,
{
    if i > 0 {
        lemma_count_zero(low, c, i - 1);
    }
}

/// A query matches a candidate, whatever its score, exactly when its folded characters occur in
/// the candidate's folded characters in order: a start that cannot finish is never the one that
/// matters, so bounding the starts loses no match.
pub proof fn law_match_iff_subsequence(needle: Seq<char>, candidate: Seq<char>, r: Option<i32>)
    requires
        is_score(needle, candidate, r),
    ensures
        r is Some <==> subsequence(needle, lowers(fold_all(candidate))),
{
    let hay = fold_all(candidate);
    let low = lowers(hay);
    if needle.len() == 0 {
        assert(is_embedding(needle, low, Seq::<int>::empty()));
    } else {
        if r is Some {
            let s = r->0;
            let i = choose|i: int|
                considered_start(hay, needle, i) && start_score(hay, needle, i) == Some(s as int);
            let base = base_of(low);
            let rest = run_positions(hay, needle, base, 1, i);
            let pos = seq![i] + rest;
            assert forall|j: int| 0 <= j < pos.len() implies low[#[trigger] pos[j]] == needle[j] by {
                if j > 0 {
                    assert(pos[j] == rest[j - 1]);
                    assert(needle.skip(1)[j - 1] == needle[j]);
                }
            }
            assert forall|j: int, l: int| 0 <= j < l < pos.len() implies #[trigger] pos[j]
                < #[trigger] pos[l] by {
                assert(pos[l] == rest[l - 1]);
                if j > 0 {
                    assert(pos[j] == rest[j - 1]);
                }
            }
            assert(is_embedding(needle, low, pos));
        }
        if subsequence(needle, low) {
            let pos = choose|pos: Seq<int>| is_embedding(needle, low, pos);
            let c = needle[0];
            let base = base_of(low);
            lemma_next_match(hay, 0, c);
            let i0 = next_match(hay, 0, c);
            assert(low[pos[0]] == c);
            assert(i0 <= pos[0]);
            lemma_count_zero(low, c, i0);
            assert(considered_start(hay, needle, i0));
            let rest = pos.drop_first();
            assert forall|j: int| 0 <= j < rest.len() implies low[#[trigger] rest[j]]
                == needle.skip(1)[j] by {
                assert(rest[j] == pos[j + 1]);
            }
            assert forall|j: int| 0 <= j < rest.len() implies pos[0] < #[trigger] rest[j] by {
                assert(rest[j] == pos[j + 1]);
            }
            assert forall|j: int, l: int| 0 <= j < l < rest.len() implies #[trigger] rest[j]
                < #[trigger] rest[l] by {
                assert(rest[j] == pos[j + 1] && rest[l] == pos[l + 1]);
            }
            assert forall|j: int| 0 <= j < rest.len() implies 0 <= #[trigger] rest[j] < low.len() by {
                assert(rest[j] == pos[j + 1]);
            }
            lemma_embedding_runs(hay, needle, base, 1, pos[0], rest);
            lemma_run_earlier(hay, needle, base, 1, i0, pos[0]);
            assert(start_score(hay, needle, i0) is Some);
        }
    }
}

/// An optional index, as an integer.
pub open spec fn opt_int(p: Option<usize>) -> Option<int> {
    match p {
        Some(x) => Some(x as int),
        None => None,
    }
}

/// The score of `candidate` for `needle`: the one answer `is_score` allows.
pub open spec fn score_of(needle: Seq<char>, candidate: Seq<char>) -> Option<i32> {
    choose|r: Option<i32>| is_score(needle, candidate, r)
}

/// `is_score` allows one answer only, so any score that meets it is `score_of`.
pub proof fn lemma_score_of(needle: Seq<char>, candidate: Seq<char>, r: Option<i32>)
    requires
        is_score(needle, candidate, r),
    ensures
        r == score_of(needle, candidate),
{
    let other = score_of(needle, candidate);
    assert(is_score(needle, candidate, other));
    let hay = fold_all(candidate);
    if needle.len() > 0 {
        match r {
            Some(s) => {
                let i = choose|i: int| #[trigger]
                    considered_start(hay, needle, i) && start_score(hay, needle, i) == Some(
                        s as int,
                    );
                match other {
                    Some(t) => {
                        let j = choose|j: int| #[trigger]
                            considered_start(hay, needle, j) && start_score(hay, needle, j)
                                == Some(t as int);
                        assert(start_score(hay, needle, i)->0 <= t);
                        assert(start_score(hay, needle, j)->0 <= s);
                    },
                    None => {
                        assert(start_score(hay, needle, i) is None);
                    },
                }
            },
            None => {
                if other is Some {
                    let t = other->0;
                    let j = choose|j: int| #[trigger]
                        considered_start(hay, needle, j) && start_score(hay, needle, j) == Some(
                            t as int,
                        );
                    assert(start_score(hay, needle, j) is None);
                }
            },
        }
    }
}

/// The three-way answer a sign stands for.
pub open spec fn ordering_of(c: int) -> Ordering {
    if c < 0 {
        Ordering::Less
    } else if c == 0 {
        Ordering::Equal
    } else {
        Ordering::Greater
    }
}

/// The order results are answered in: the better score first, then the shorter path, then the
/// listing's own name order, so one walk over one tree always answers in exactly one order.
pub fn rank_order(a_score: i32, a_name: &str, b_score: i32, b_name: &str) -> (r: Ordering)
    ensures
        r == ordering_of(rank_key(a_score, a_name.spec_bytes(), b_score, b_name.spec_bytes())),
{
    let s = rank_sign(a_score, a_name.as_bytes(), b_score, b_name.as_bytes());
    if s < 0 {
        Ordering::Less
    } else if s == 0 {
        Ordering::Equal
    } else {
        Ordering::Greater
    }
}

} // verus!
