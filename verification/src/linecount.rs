//! One bounded line count, which is everything the preview's "Lines" fact is built from. The
//! caller reads the file in chunks and hands each one over; the counter decides when to stop.
use vstd::prelude::*;

verus! {

/// A line count reads at most this much of a file, so a huge log costs one bounded read and
/// says so.
pub const LINE_BUDGET: u64 = 1048576;

/// What one bounded count learned. `partial` and `failed` are separate facts: a count can stop
/// early on a file it read fine, and a file it could not open has no count at all.
#[derive(Debug, Clone, Copy, PartialEq, Eq, Structural)]
pub struct LineCount {
    pub lines: u64,
    pub partial: bool,
    pub failed: bool,
}

/// The number of newline bytes in `s`.
pub open spec fn newlines(s: Seq<u8>) -> nat
    decreases s.len(),
{
    if s.len() == 0 {
        0
    } else {
        newlines(s.drop_last()) + if s.last() == 10u8 {
            1nat
        } else {
            0nat
        }
    }
}

/// The lines of a whole file: its newlines, plus one for any bytes after the final newline; an
/// empty file has no lines at all.
pub open spec fn lines_of(s: Seq<u8>) -> nat {
    if s.len() == 0 {
        0
    } else if s.last() == 10u8 {
        newlines(s)
    } else {
        newlines(s) + 1
    }
}

proof fn lemma_newlines_bound(s: Seq<u8>)
    ensures
        newlines(s) <= s.len(),
    decreases s.len(),
{
    if s.len() > 0 {
        lemma_newlines_bound(s.drop_last());
    }
}

/// Only the line feed byte, 10, ends a line: the newlines of `s` are exactly its bytes equal
/// to 10, so a carriage return or any other byte appended never adds one, and the lines of a
/// whole file are its line feeds plus one for any bytes after the last of them.
pub proof fn law_only_line_feeds_end_lines(s: Seq<u8>, b: u8)
    ensures
        newlines(s) == s.filter(|x: u8| x == 10u8).len(),
        b != 10u8 ==> newlines(s.push(b)) == newlines(s),
        b == 10u8 ==> newlines(s.push(b)) == newlines(s) + 1,
        lines_of(s) == s.filter(|x: u8| x == 10u8).len() + if s.len() > 0 && s.last() != 10u8 {
            1nat
        } else {
            0nat
        },
    decreases s.len(),
{
    reveal(Seq::filter);
    if s.len() > 0 {
        law_only_line_feeds_end_lines(s.drop_last(), b);
    }
    assert(s.push(b).drop_last() =~= s);
}

/// A count in progress: what it has read so far.
pub struct LineCounter {
    read: u64,
    newlines: u64,
    last_was_newline: bool,
    seen: Ghost<Seq<u8>>,
}

impl LineCounter {
    /// The bytes handed over so far.
    pub closed spec fn seen(&self) -> Seq<u8> {
        self.seen@
    }

    /// The counter is still under its budget and its tallies describe what it has seen.
    pub closed spec fn wf(&self) -> bool {
        &&& self.read == self.seen@.len()
        &&& self.read < LINE_BUDGET
        &&& self.newlines == newlines(self.seen@)
        &&& self.last_was_newline == (self.seen@.len() == 0 || self.seen@.last() == 10u8)
    }

    /// A count that has read nothing yet.
    pub fn new() -> (r: LineCounter)
        ensures
            r.wf(),
            r.seen() == Seq::<u8>::empty(),
    {
        LineCounter { read: 0, newlines: 0, last_was_newline: true, seen: Ghost(Seq::empty()) }
    }

    /// How many more bytes the count reads before it stops.
    pub fn remaining(&self) -> (r: u64)
        requires
            self.wf(),
        ensures
            r == LINE_BUDGET - self.seen().len(),
            r > 0,
    {
        LINE_BUDGET - self.read
    }

    /// Takes the next chunk of the file. Once the bytes handed over reach the budget the count
    /// stops and answers a partial count: the newlines among the first `LINE_BUDGET` bytes,
    /// and nothing of what lies past them.
    pub fn feed(&mut self, chunk: &[u8]) -> (r: Option<LineCount>)
        requires
            old(self).wf(),
        ensures
            final(self).seen() == old(self).seen() + chunk@,
            r is Some <==> final(self).seen().len() >= LINE_BUDGET,
            r matches Some(c) ==> c == (LineCount {
                lines: newlines(final(self).seen().take(LINE_BUDGET as int)) as u64,
                partial: true,
                failed: false,
            }),
            r matches Some(c) ==> c.lines == final(self).seen().take(LINE_BUDGET as int).filter(
                |x: u8| x == 10u8,
            ).len(),
            r is None ==> final(self).wf(),
    {
        let n = chunk.len();
        let rem = LINE_BUDGET - self.read;
        let stops = (n as u64) >= rem;
        let m: usize = if stops {
            rem as usize
        } else {
            n
        };
        let ghost start = self.seen@;
        let mut i: usize = 0;
        while i < m
            invariant
                i <= m <= n == chunk@.len(),
                start.len() + m <= LINE_BUDGET,
                self.read == start.len(),
                self.seen@ == start + chunk@.take(i as int),
                self.newlines == newlines(self.seen@),
                self.last_was_newline == (self.seen@.len() == 0 || self.seen@.last() == 10u8),
            decreases m - i,
        {
            proof {
                lemma_newlines_bound(self.seen@);
            }
            let b = chunk[i];
            if b == 10u8 {
                self.newlines = self.newlines + 1;
                self.last_was_newline = true;
            } else {
                self.last_was_newline = false;
            }
            proof {
                let next = start + chunk@.take(i + 1);
                assert(next.drop_last() =~= self.seen@);
                self.seen@ = next;
            }
            i = i + 1;
        }
        if stops {
            proof {
                let all = start + chunk@;
                assert(all.take(LINE_BUDGET as int) =~= start + chunk@.take(m as int));
                self.seen@ = all;
                law_only_line_feeds_end_lines(all.take(LINE_BUDGET as int), 0u8);
            }
            self.read = LINE_BUDGET;
            return Some(LineCount { lines: self.newlines, partial: true, failed: false });
        }
        assert(chunk@.take(n as int) =~= chunk@);
        self.read = self.read + (n as u64);
        None
    }

    /// The count of a file that was read to its end within the budget.
    pub fn finish(&self) -> (r: LineCount)
        requires
            self.wf(),
        ensures
            r == (LineCount { lines: lines_of(self.seen()) as u64, partial: false, failed: false }),
            r.lines == self.seen().filter(|x: u8| x == 10u8).len() + if self.seen().len() > 0
                && self.seen().last() != 10u8 {
                1nat
            } else {
                0nat
            },
    {
        proof {
            law_only_line_feeds_end_lines(self.seen@, 0u8);
        }
        if self.read == 0 {
            return LineCount { lines: 0, partial: false, failed: false };
        }
        proof {
            lemma_newlines_bound(self.seen@);
        }
        let lines = if self.last_was_newline {
            self.newlines
        } else {
            self.newlines + 1
        };
        LineCount { lines, partial: false, failed: false }
    }
}

/// The count of a file that could not be opened: no lines, and failed, which an empty file is not.
pub fn failed() -> (r: LineCount)
    ensures
        r == (LineCount { lines: 0, partial: false, failed: true }),
{
    LineCount { lines: 0, partial: false, failed: true }
}

} // verus!
