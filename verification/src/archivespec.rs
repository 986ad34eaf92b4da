//! How each archive listing tool shapes its output: which whitespace field holds the size,
//! where the name starts, and how a directory is marked; and the reading of one listing line.
use vstd::prelude::*;
use vstd::string::StrSliceExecFns;
use crate::text::{
    chars_of, find_char, find_in, find_white, find_white_in, is_white, lemma_find_char_bound,
    lemma_trim_start_len, skip_white, trim, trim_span, trim_start,
};

verus! {

/// bsdtar's verbose listing puts the size in the fifth column, after the mode, the link count,
/// the owner and the group. Sample: `-rw-r--r--  0 gm     gm         10 Sep  1 09:14 a.txt`
pub const BSDTAR_SIZE_COLUMN: usize = 4;

/// bsdtar: mode, links, owner, group, size, month, day, time, then the name, which may hold spaces.
pub const BSDTAR_NAME_AFTER: usize = 8;

/// 7z's bare listing puts the size in the fourth column, after the date, the time and the
/// attributes. Sample: `2026-09-01 09:14:15 ....A           10           19  a.txt`
pub const SEVENZIP_SIZE_COLUMN: usize = 3;

/// How one tool's listing is read: which whitespace field holds the size, and how the name is found.
pub struct ListSpec {
    pub size_column: usize,
    pub name_after_fields: usize,
    /// 7z right-aligns its numeric columns and can leave the packed one blank, so its name is
    /// the last run separated by two or more spaces rather than a counted field.
    pub name_after_double_space: bool,
    pub dir_marker: DirMarker,
}

/// How a listing line marks a directory.
pub enum DirMarker {
    /// bsdtar: the mode string in field 0 begins with d.
    ModePrefix,
    /// 7z: the attribute string in field 2 contains D.
    AttrFlag,
}

/// The listing shape of bsdtar -tvf.
pub fn tar_spec() -> (r: ListSpec)
    ensures
        r.size_column == BSDTAR_SIZE_COLUMN,
        r.name_after_fields == BSDTAR_NAME_AFTER,
        !r.name_after_double_space,
        r.dir_marker is ModePrefix,
{
    ListSpec {
        size_column: BSDTAR_SIZE_COLUMN,
        name_after_fields: BSDTAR_NAME_AFTER,
        name_after_double_space: false,
        dir_marker: DirMarker::ModePrefix,
    }
}

/// The listing shape of 7z l -ba.
pub fn seven_spec() -> (r: ListSpec)
    ensures
        r.size_column == SEVENZIP_SIZE_COLUMN,
        r.name_after_fields == 0,
        r.name_after_double_space,
        r.dir_marker is AttrFlag,
{
    ListSpec {
        size_column: SEVENZIP_SIZE_COLUMN,
        name_after_fields: 0,
        name_after_double_space: true,
        dir_marker: DirMarker::AttrFlag,
    }
}

/// The pieces of `s` between occurrences of `c`, as `str::split` yields them.
pub open spec fn split_char(s: Seq<char>, c: char) -> Seq<Seq<char>>
    decreases s.len(),
{
    let i = find_char(s, c);
    proof {
        lemma_find_char_bound(s, c);
    }
    if i >= s.len() {
        seq![s]
    } else {
        seq![s.take(i)] + split_char(s.skip(i + 1), c)
    }
}

/// A path component that names nothing: empty or `.`.
pub open spec fn names_nothing(p: Seq<char>) -> bool {
    p.len() == 0 || p == seq!['.']
}

/// Every component in `ps` names nothing.
pub open spec fn all_name_nothing(ps: Seq<Seq<char>>) -> bool {
    forall|i: int| 0 <= i < ps.len() ==> names_nothing(#[trigger] ps[i])
}

/// The archive root: a member name none of whose `/`-separated components names anything,
/// such as `./` or `././`.
pub open spec fn archive_root(name: Seq<char>) -> bool {
    all_name_nothing(split_char(name, '/'))
}

/// One listing line, read once: the member's name, trailing slashes trimmed, and whether it is
/// a directory.
pub struct Row<'a> {
    pub name: &'a str,
    pub is_dir: bool,
}

impl Row<'_> {
    /// A member produces an entry in the destination unless it is the destination itself, the
    /// archive root, which extracts to nothing.
    pub fn produces_destination_entry(&self) -> (r: bool)
        ensures
            r == !archive_root(self.name@),
    {
        !is_archive_root(self.name)
    }
}

/// Whether `name` is the archive root.
pub fn is_archive_root(name: &str) -> (r: bool)
    ensures
        r == archive_root(name@),
{
    let v = chars_of(name);
    let n = v.len();
    let mut pos: usize = 0;
    assert(v@.skip(0) =~= v@);
    loop
        invariant
            v@ == name@,
            n == v.len(),
            pos <= n,
            archive_root(name@) == all_name_nothing(split_char(v@.skip(pos as int), '/')),
        decreases n + 1 - pos,
    {
        let j = find_in(&v, pos, n, '/');
        let ghost t = v@.skip(pos as int);
        assert(t =~= v@.subrange(pos as int, n as int));
        let ghost part = v@.subrange(pos as int, j as int);
        let ok = j == pos || (j == pos + 1 && v[pos] == '.');
        assert(ok == names_nothing(part)) by {
            if j == pos + 1 && v[pos as int] == '.' {
                assert(part =~= seq!['.']);
            }
            if part == seq!['.'] {
                assert(part.len() == 1);
            }
        }
        if j == n {
            assert(split_char(t, '/') == seq![t]);
            assert(part =~= t);
            assert(all_name_nothing(seq![t]) == names_nothing(t)) by {
                assert(seq![t][0] == t);
            }
            return ok;
        }
        let ghost rest = split_char(t.skip(j - pos + 1), '/');
        assert(part =~= t.take(j - pos));
        assert(split_char(t, '/') == seq![part] + rest);
        assert(t.skip(j - pos + 1) =~= v@.skip(j + 1));
        if !ok {
            assert((seq![part] + rest)[0] == part);
            return false;
        }
        assert(all_name_nothing(seq![part] + rest) == all_name_nothing(rest)) by {
            if all_name_nothing(rest) {
                assert forall|i: int| 0 <= i < (seq![part] + rest).len() implies names_nothing(
                    #[trigger] (seq![part] + rest)[i],
                ) by {
                    if i > 0 {
                        assert((seq![part] + rest)[i] == rest[i - 1]);
                    }
                }
            }
            if all_name_nothing(seq![part] + rest) {
                assert forall|i: int| 0 <= i < rest.len() implies names_nothing(
                    #[trigger] rest[i],
                ) by {
                    assert((seq![part] + rest)[i + 1] == rest[i]);
                }
            }
        }
        pos = j + 1;
    }
}

/// What is left of `r` after skipping `k` whitespace-separated fields, each skip also dropping
/// the whitespace that follows the field; None where fewer than `k` fields end in whitespace.
pub open spec fn field_rest(r: Seq<char>, k: nat) -> Option<Seq<char>>
    decreases k,
{
    if k == 0 {
        Some(r)
    } else {
        let e = find_white(r);
        if e >= r.len() {
            None
        } else {
            field_rest(trim_start(r.skip(e)), (k - 1) as nat)
        }
    }
}

/// Everything after the first `skip` whitespace-separated fields of `line`, the name's own
/// spaces kept.
pub open spec fn rest_after_fields(line: Seq<char>, skip: nat) -> Option<Seq<char>> {
    field_rest(trim_start(line), skip)
}

/// Field `k` of `line`, as `split_whitespace().nth(k)` gives it.
pub open spec fn nth_field(line: Seq<char>, k: nat) -> Option<Seq<char>> {
    match rest_after_fields(line, k) {
        Some(r) => if r.len() > 0 {
            Some(r.take(find_white(r)))
        } else {
            None
        },
        None => None,
    }
}

/// The first index of two consecutive spaces in `s`, or `s.len()`.
pub open spec fn find_double_space(s: Seq<char>) -> int
    decreases s.len(),
{
    if s.len() < 2 {
        s.len() as int
    } else if s[0] == ' ' && s[1] == ' ' {
        0
    } else {
        1 + find_double_space(s.drop_first())
    }
}

/// Two spaces start at `k`.
pub open spec fn spaces_at(s: Seq<char>, k: int) -> bool {
    s[k] == ' ' && s[k + 1] == ' '
}

proof fn lemma_find_double_space(s: Seq<char>, i: int)
    requires
        0 <= i <= s.len(),
        forall|k: int| 0 <= k < i && k + 1 < s.len() ==> !#[trigger] spaces_at(s, k),
        i == s.len() || (i + 1 < s.len() && spaces_at(s, i)),
    ensures
        find_double_space(s) == i,
    decreases s.len(),
{
    if s.len() >= 2 {
        if spaces_at(s, 0) {
            assert(i == 0);
        } else {
            assert(i > 0);
            let t = s.drop_first();
            assert forall|k: int| 0 <= k < i - 1 && k + 1 < t.len() implies !#[trigger] spaces_at(
                t,
                k,
            ) by {
                assert(t[k] == s[k + 1] && t[k + 1] == s[k + 2]);
                assert(!spaces_at(s, k + 1));
            }
            if i < s.len() {
                assert(t[i - 1] == s[i] && t[i] == s[i + 1]);
                assert(spaces_at(t, i - 1));
            }
            lemma_find_double_space(t, i - 1);
        }
    }
}

pub proof fn lemma_find_double_space_bound(s: Seq<char>)
    ensures
        0 <= find_double_space(s) <= s.len(),
        find_double_space(s) < s.len() ==> find_double_space(s) + 2 <= s.len(),
    decreases s.len(),
{
    if s.len() >= 2 && !(s[0] == ' ' && s[1] == ' ') {
        lemma_find_double_space_bound(s.drop_first());
    }
}

/// The pieces of `s` between non-overlapping runs of two spaces, as `str::split("  ")` yields them.
pub open spec fn split_double_space(s: Seq<char>) -> Seq<Seq<char>>
    decreases s.len(),
{
    let i = find_double_space(s);
    proof {
        lemma_find_double_space_bound(s);
    }
    if i >= s.len() {
        seq![s]
    } else {
        seq![s.take(i)] + split_double_space(s.skip(i + 2))
    }
}

/// The last piece that is not all whitespace.
pub open spec fn last_nonblank(ps: Seq<Seq<char>>) -> Option<Seq<char>>
    decreases ps.len(),
{
    if ps.len() == 0 {
        None
    } else if trim(ps.last()).len() > 0 {
        Some(ps.last())
    } else {
        last_nonblank(ps.drop_last())
    }
}

/// `s` without its trailing slashes.
pub open spec fn trim_end_slashes(s: Seq<char>) -> Seq<char>
    decreases s.len(),
{
    if s.len() > 0 && s.last() == '/' {
        trim_end_slashes(s.drop_last())
    } else {
        s
    }
}

/// The first non-whitespace character of `s` is `d`.
pub open spec fn d_after_white(s: Seq<char>) -> bool {
    exists|i: int|
        0 <= i < s.len() && s[i] == 'd' && forall|j: int| 0 <= j < i ==> is_white(#[trigger] s[j])
}

proof fn lemma_trim_start_d(s: Seq<char>)
    ensures
        (trim_start(s).len() > 0 && trim_start(s)[0] == 'd') <==> d_after_white(s),
    decreases s.len(),
{
    assert(!is_white('d'));
    if s.len() > 0 && is_white(s[0]) {
        let t = s.drop_first();
        lemma_trim_start_d(t);
        if d_after_white(t) {
            let i = choose|i: int|
                0 <= i < t.len() && t[i] == 'd' && forall|j: int| 0 <= j < i ==> is_white(#[trigger] t[j]);
            assert(s[i + 1] == 'd');
            assert forall|j: int| 0 <= j < i + 1 implies is_white(#[trigger] s[j]) by {
                if j > 0 {
                    assert(s[j] == t[j - 1]);
                }
            }
        }
        if d_after_white(s) {
            let i = choose|i: int|
                0 <= i < s.len() && s[i] == 'd' && forall|j: int| 0 <= j < i ==> is_white(#[trigger] s[j]);
            assert(i > 0);
            assert(t[i - 1] == 'd');
            assert forall|j: int| 0 <= j < i - 1 implies is_white(#[trigger] t[j]) by {
                assert(t[j] == s[j + 1]);
            }
        }
    } else if s.len() > 0 {
        if trim_start(s)[0] == 'd' {
            assert(s[0] == 'd');
        }
        if d_after_white(s) {
            let i = choose|i: int|
                0 <= i < s.len() && s[i] == 'd' && forall|j: int| 0 <= j < i ==> is_white(#[trigger] s[j]);
            if i > 0 {
                assert(is_white(s[0]));
            }
        }
    }
}

/// With the mode-prefix marker a line is a directory exactly when the first character after
/// its leading whitespace is `d`: a mode string starting `-`, `l` or anything else is no
/// directory.
pub proof fn law_mode_prefix_marks_directories_by_d(line: Seq<char>, spec: ListSpec)
    requires
        spec.dir_marker is ModePrefix,
    ensures
        line_is_dir(line, spec) <==> d_after_white(line),
        forall|i: int|
            0 <= i < line.len() && line[i] != 'd' && !is_white(line[i]) && (forall|j: int|
                0 <= j < i ==> is_white(#[trigger] line[j])) ==> !line_is_dir(line, spec),
{
    lemma_trim_start_d(line);
    assert forall|i: int|
        0 <= i < line.len() && line[i] != 'd' && !is_white(line[i]) && (forall|j: int|
            0 <= j < i ==> is_white(#[trigger] line[j])) implies !line_is_dir(line, spec) by {
        if d_after_white(line) {
            let k = choose|k: int|
                0 <= k < line.len() && line[k] == 'd' && forall|j: int| 0 <= j < k ==> is_white(#[trigger] line[j]);
            if k < i {
                assert(is_white(line[k]));
            } else if k > i {
                assert(is_white(line[i]));
            }
        }
    }
}

/// The name a listing line gives, before its trailing slashes are trimmed: the last double-space
/// separated piece, trimmed, or what follows the name's leading fields.
pub open spec fn raw_name(line: Seq<char>, spec: ListSpec) -> Option<Seq<char>> {
    if spec.name_after_double_space {
        match last_nonblank(split_double_space(line)) {
            Some(p) => Some(trim(p)),
            None => None,
        }
    } else {
        rest_after_fields(line, spec.name_after_fields as nat)
    }
}

/// Whether a listing line marks a directory.
pub open spec fn line_is_dir(line: Seq<char>, spec: ListSpec) -> bool {
    match spec.dir_marker {
        DirMarker::ModePrefix => trim_start(line).len() > 0 && trim_start(line)[0] == 'd',
        DirMarker::AttrFlag => match nth_field(line, 2) {
            Some(f) => f.contains('D'),
            None => false,
        },
    }
}

/// The name a listing line gives, trailing slashes trimmed, or None where there is none or it
/// is empty once trimmed.
pub open spec fn line_name(line: Seq<char>, spec: ListSpec) -> Option<Seq<char>> {
    match raw_name(line, spec) {
        Some(n) => if trim_end_slashes(n).len() > 0 {
            Some(trim_end_slashes(n))
        } else {
            None
        },
        None => None,
    }
}

/// Where in `v` the text after the first `skip` fields starts, if it exists.
fn fields_rest_start(v: &Vec<char>, skip: usize) -> (r: Option<usize>)
    ensures
        match r {
            Some(a) => a <= v.len() && rest_after_fields(v@, skip as nat) == Some(
                v@.subrange(a as int, v.len() as int),
            ),
            None => rest_after_fields(v@, skip as nat) is None,
        },
{
    let n = v.len();
    let mut a = skip_white(v, 0, n);
    assert(v@.subrange(0, n as int) =~= v@);
    let mut k: usize = 0;
    while k < skip
        invariant
            n == v.len(),
            a <= n,
            k <= skip,
            rest_after_fields(v@, skip as nat) == field_rest(
                v@.subrange(a as int, n as int),
                (skip - k) as nat,
            ),
        decreases skip - k,
    {
        let e = find_white_in(v, a, n);
        if e == n {
            return None;
        }
        let b = skip_white(v, e, n);
        assert(v@.subrange(a as int, n as int).skip(e - a) =~= v@.subrange(e as int, n as int));
        a = b;
        k = k + 1;
    }
    Some(a)
}

/// Field `k` of `v` as a span, if it exists.
fn nth_field_span(v: &Vec<char>, k: usize) -> (r: Option<(usize, usize)>)
    ensures
        match r {
            Some(p) => p.0 <= p.1 <= v.len() && nth_field(v@, k as nat) == Some(
                v@.subrange(p.0 as int, p.1 as int),
            ),
            None => nth_field(v@, k as nat) is None,
        },
{
    match fields_rest_start(v, k) {
        Some(a) => {
            if a == v.len() {
                return None;
            }
            let e = find_white_in(v, a, v.len());
            assert(v@.subrange(a as int, v.len() as int).take(e - a) =~= v@.subrange(
                a as int,
                e as int,
            ));
            Some((a, e))
        },
        None => None,
    }
}

/// Whether `c` occurs in `v[lo..hi]`.
fn contains_in(v: &Vec<char>, lo: usize, hi: usize, c: char) -> (r: bool)
    requires
        lo <= hi <= v.len(),
    ensures
        r == v@.subrange(lo as int, hi as int).contains(c),
{
    let j = find_in(v, lo, hi, c);
    if j < hi {
        assert(v@.subrange(lo as int, hi as int)[j - lo] == c);
        true
    } else {
        assert forall|i: int| 0 <= i < hi - lo implies v@.subrange(lo as int, hi as int)[i]
            != c by {
            assert(v@[lo + i] != c);
        }
        false
    }
}

/// The span of the last double-space separated piece of `v` that is not all whitespace.
fn last_nonblank_span(v: &Vec<char>) -> (r: Option<(usize, usize)>)
    ensures
        match r {
            Some(p) => p.0 <= p.1 <= v.len() && last_nonblank(split_double_space(v@)) == Some(
                v@.subrange(p.0 as int, p.1 as int),
            ),
            None => last_nonblank(split_double_space(v@)) is None,
        },
{
    let n = v.len();
    let mut pos: usize = 0;
    let mut last: Option<(usize, usize)> = None;
    let ghost mut done: Seq<Seq<char>> = seq![];
    assert(v@.skip(0) =~= v@);
    loop
        invariant
            n == v.len(),
            pos <= n,
            split_double_space(v@) == done + split_double_space(v@.skip(pos as int)),
            match last {
                Some(p) => p.0 <= p.1 <= n && last_nonblank(done) == Some(
                    v@.subrange(p.0 as int, p.1 as int),
                ),
                None => last_nonblank(done) is None,
            },
        decreases n + 1 - pos,
    {
        let ghost t = v@.skip(pos as int);
        let mut j = pos;
        while j < n && !(j + 1 < n && v[j] == ' ' && v[j + 1] == ' ')
            invariant
                pos <= j <= n,
                n == v.len(),
                forall|k: int| pos <= k < j && k + 1 < n ==> !#[trigger] spaces_at(v@, k),
            decreases n - j,
        {
            j = j + 1;
        }
        proof {
            if j + 1 == n {
                assert(false);
            }
            assert forall|k: int| 0 <= k < j - pos && k + 1 < t.len() implies !#[trigger] spaces_at(
                t,
                k,
            ) by {
                assert(!spaces_at(v@, pos + k));
            }
            if j < n {
                assert(spaces_at(v@, j as int));
            }
            lemma_find_double_space(t, j - pos);
        }
        let part = trim_span(v, pos, j);
        let ghost piece = v@.subrange(pos as int, j as int);
        assert(piece =~= t.take(j - pos));
        let ghost old_done = done;
        proof {
            done = done.push(piece);
            assert(done.drop_last() =~= old_done);
        }
        if part.0 < part.1 {
            last = Some((pos, j));
        }
        if j == n {
            assert(piece =~= t);
            assert(split_double_space(t) == seq![t]);
            assert(split_double_space(v@) =~= done);
            return last;
        }
        assert(t.skip(j - pos + 2) =~= v@.skip(j + 2));
        assert(split_double_space(v@) =~= done + split_double_space(v@.skip(j + 2)));
        pos = j + 2;
    }
}

/// Reads one listing line with `spec`: the member's name and whether it is a directory. None
/// where the line names no member.
pub fn row_of<'a>(line: &'a str, spec: &ListSpec) -> (r: Option<Row<'a>>)
    ensures
        match r {
            Some(row) => line_name(line@, *spec) == Some(row.name@) && row.is_dir == line_is_dir(
                line@,
                *spec,
            ),
            None => line_name(line@, *spec) is None,
        },
{
    let v = chars_of(line);
    let n = v.len();
    let is_dir = match spec.dir_marker {
        DirMarker::ModePrefix => {
            let a = skip_white(&v, 0, n);
            assert(v@.subrange(0, n as int) =~= v@);
            a < n && v[a] == 'd'
        },
        DirMarker::AttrFlag => match nth_field_span(&v, 2) {
            Some((a, b)) => contains_in(&v, a, b, 'D'),
            None => false,
        },
    };
    let (a, mut b) = if spec.name_after_double_space {
        match last_nonblank_span(&v) {
            Some((lo, hi)) => trim_span(&v, lo, hi),
            None => return None,
        }
    } else {
        match fields_rest_start(&v, spec.name_after_fields) {
            Some(a) => (a, n),
            None => return None,
        }
    };
    assert(raw_name(line@, *spec) == Some(v@.subrange(a as int, b as int)));
    while b > a && v[b - 1] == '/'
        invariant
            a <= b <= n,
            n == v.len(),
            trim_end_slashes(raw_name(line@, *spec)->0) == trim_end_slashes(
                v@.subrange(a as int, b as int),
            ),
        decreases b - a,
    {
        assert(v@.subrange(a as int, b as int).drop_last() =~= v@.subrange(a as int, b - 1));
        b = b - 1;
    }
    if a == b {
        return None;
    }
    Some(Row { name: line.substring_char(a, b), is_dir })
}

} // verus!
