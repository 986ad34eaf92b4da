//! Resolves a uid to its login name from the text of /etc/passwd alone.
use vstd::prelude::*;
use crate::text::{chars_of, find_char, find_in, line_spans, lines, spans_text, string_of};

verus! {

/// Whether `c` is an ASCII decimal digit.
pub open spec fn is_digit(c: char) -> bool {
    '0' <= c <= '9'
}

/// The decimal value of a run of digits.
pub open spec fn digits_value(d: Seq<char>) -> nat
    decreases d.len(),
{
    if d.len() == 0 {
        0
    } else {
        digits_value(d.drop_last()) * 10 + ((d.last() as u32 - '0' as u32) as nat)
    }
}

/// The digits `u32::from_str` reads: `s` without one leading `+`.
pub open spec fn unsigned_digits(s: Seq<char>) -> Seq<char> {
    if s.len() > 0 && s[0] == '+' {
        s.drop_first()
    } else {
        s
    }
}

/// Every character of `d` is a decimal digit.
pub open spec fn all_digits(d: Seq<char>) -> bool {
    forall|i: int| 0 <= i < d.len() ==> is_digit(#[trigger] d[i])
}

/// What `u32::from_str` gives: an optional `+`, then one or more decimal digits whose value fits.
pub open spec fn parse_u32(s: Seq<char>) -> Option<u32> {
    let d = unsigned_digits(s);
    if d.len() > 0 && all_digits(d) && digits_value(d) <= u32::MAX {
        Some(digits_value(d) as u32)
    } else {
        None
    }
}

proof fn lemma_value_grows(d: Seq<char>, k: int)
    requires
        0 <= k <= d.len(),
    ensures
        digits_value(d.take(k)) <= digits_value(d),
    decreases d.len() - k,
{
    if k < d.len() {
        assert(d.drop_last().take(k) =~= d.take(k));
        lemma_value_grows(d.drop_last(), k);
    } else {
        assert(d.take(k) =~= d);
    }
}

/// Parses `v[lo..hi]` as `u32::from_str` does.
pub fn parse_u32_in(v: &Vec<char>, lo: usize, hi: usize) -> (r: Option<u32>)
    requires
        lo <= hi <= v.len(),
    ensures
        r == parse_u32(v@.subrange(lo as int, hi as int)),
{
    let ghost s = v@.subrange(lo as int, hi as int);
    let start = if lo < hi && v[lo] == '+' {
        lo + 1
    } else {
        lo
    };
    let ghost d = v@.subrange(start as int, hi as int);
    assert(d =~= unsigned_digits(s));
    if start == hi {
        return None;
    }
    let mut value: u64 = 0;
    let mut i = start;
    while i < hi
        invariant
            lo <= start <= i <= hi <= v.len(),
            d == v@.subrange(start as int, hi as int),
            d == unsigned_digits(v@.subrange(lo as int, hi as int)),
            forall|k: int| 0 <= k < i - start ==> is_digit(#[trigger] d[k]),
            value == digits_value(d.take(i - start)),
            value <= u32::MAX,
        decreases hi - i,
    {
        let c = v[i];
        if !('0' <= c && c <= '9') {
            assert(!is_digit(d[i - start]));
            assert(!all_digits(d));
            return None;
        }
        assert(d.take(i - start + 1).drop_last() =~= d.take(i - start));
        value = value * 10 + ((c as u32 - '0' as u32) as u64);
        assert(d.take(i - start + 1).last() == c);
        assert(value == digits_value(d.take(i - start + 1)));
        if value > 0xffff_ffff {
            proof {
                lemma_value_grows(d, i - start + 1);
            }
            return None;
        }
        i = i + 1;
    }
    assert(d.take(i - start) =~= d);
    Some(value as u32)
}

/// The login and the uid field of a passwd line, `login:x:uid:...`, where it has three fields.
pub open spec fn passwd_entry(line: Seq<char>) -> Option<(Seq<char>, Seq<char>)> {
    let i1 = find_char(line, ':');
    if i1 >= line.len() {
        None
    } else {
        let rest1 = line.skip(i1 + 1);
        let i2 = find_char(rest1, ':');
        if i2 >= rest1.len() {
            None
        } else {
            let rest2 = rest1.skip(i2 + 1);
            Some((line.take(i1), rest2.take(find_char(rest2, ':'))))
        }
    }
}

/// The login of the first line whose uid field parses to `uid`, or empty when none does.
pub open spec fn login_of(ls: Seq<Seq<char>>, uid: u32) -> Seq<char>
    decreases ls.len(),
{
    if ls.len() == 0 {
        seq![]
    } else {
        match passwd_entry(ls[0]) {
            Some(e) => if parse_u32(e.1) == Some(uid) {
                e.0
            } else {
                login_of(ls.drop_first(), uid)
            },
            None => login_of(ls.drop_first(), uid),
        }
    }
}

/// The login name of `uid` in the text of a passwd file; a uid the file does not list answers
/// the empty string, never the number dressed as a name.
pub fn name_in(passwd: &str, uid: u32) -> (r: String)
    ensures
        r@ == login_of(lines(passwd@), uid),
{
    let v = chars_of(passwd);
    let spans = line_spans(&v);
    let mut k: usize = 0;
    assert(spans_text(v@, spans@).skip(0) =~= spans_text(v@, spans@));
    while k < spans.len()
        invariant
            v@ == passwd@,
            spans_text(v@, spans@) == lines(v@),
            forall|i: int| 0 <= i < spans.len() ==> (#[trigger] spans@[i]).0 <= spans@[i].1
                <= v.len(),
            k <= spans.len(),
            login_of(lines(v@), uid) == login_of(spans_text(v@, spans@).skip(k as int), uid),
        decreases spans.len() - k,
    {
        let (lo, hi) = spans[k];
        let ghost line = v@.subrange(lo as int, hi as int);
        let ghost ls = spans_text(v@, spans@).skip(k as int);
        assert(ls[0] == line);
        assert(ls.drop_first() =~= spans_text(v@, spans@).skip(k + 1));
        let j1 = find_in(&v, lo, hi, ':');
        if j1 < hi {
            let j2 = find_in(&v, j1 + 1, hi, ':');
            assert(v@.subrange(j1 + 1, hi as int) =~= line.skip(j1 - lo + 1));
            if j2 < hi {
                let j3 = find_in(&v, j2 + 1, hi, ':');
                assert(v@.subrange(j2 + 1, hi as int) =~= line.skip(j1 - lo + 1).skip(j2 - j1));
                assert(v@.subrange(j2 + 1, j3 as int) =~= line.skip(j1 - lo + 1).skip(
                    j2 - j1,
                ).take(j3 - j2 - 1));
                assert(v@.subrange(lo as int, j1 as int) =~= line.take(j1 - lo));
                if parse_u32_in(&v, j2 + 1, j3) == Some(uid) {
                    return string_of(&v, lo, j1);
                }
            }
        }
        k = k + 1;
    }
    String::new()
}

/// The owner name of a path, from what the two reads gave: the uid of the path itself (None
/// where it could not be stat'ed) and the text of the passwd file (None where it could not be
/// read). Empty when either is missing or the uid is not listed.
pub fn of(uid: Option<u32>, passwd: Option<&str>) -> (r: String)
    ensures
        r@ == match (uid, passwd) {
            (Some(u), Some(text)) => login_of(lines(text@), u),
            _ => Seq::<char>::empty(),
        },
{
    match (uid, passwd) {
        (Some(u), Some(text)) => name_in(text, u),
        _ => String::new(),
    }
}

} // verus!
