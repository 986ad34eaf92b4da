//! The listing's own name order: names compare as runs of tokens, where a run of decimal digits
//! is one token compared by the number it spells and every other byte is compared with ASCII
//! letters folded to lower case; names that tie that way fall back to their raw bytes, so the
//! order is total and one set of names always lists the same way.
use vstd::prelude::*;

verus! {

/// An ASCII decimal digit.
pub open spec fn is_digit_byte(b: u8) -> bool {
    48 <= b <= 57
}

/// ASCII upper case folded to lower case; every other byte unchanged.
pub open spec fn fold_byte(b: u8) -> u8 {
    if 65 <= b <= 90 {
        (b + 32) as u8
    } else {
        b
    }
}

/// The sign of `x`: -1, 0 or 1.
pub open spec fn sign(x: int) -> int {
    if x < 0 {
        -1
    } else if x == 0 {
        0
    } else {
        1
    }
}

/// Byte-by-byte order, a proper prefix first: -1, 0 or 1.
pub open spec fn lex(a: Seq<u8>, b: Seq<u8>) -> int
    decreases a.len(),
{
    if a.len() == 0 && b.len() == 0 {
        0
    } else if a.len() == 0 {
        -1
    } else if b.len() == 0 {
        1
    } else if a[0] != b[0] {
        sign(a[0] - b[0])
    } else {
        lex(a.drop_first(), b.drop_first())
    }
}

/// The length of the run of ASCII digits that `s` starts with.
pub open spec fn digit_run(s: Seq<u8>) -> nat
    decreases s.len(),
{
    if s.len() > 0 && is_digit_byte(s[0]) {
        1 + digit_run(s.drop_first())
    } else {
        0
    }
}

/// The number of leading `0` bytes of `s`.
pub open spec fn zero_run(s: Seq<u8>) -> nat
    decreases s.len(),
{
    if s.len() > 0 && s[0] == 48u8 {
        1 + zero_run(s.drop_first())
    } else {
        0
    }
}

/// The order of the numbers two digit runs spell: with leading zeros dropped the longer run is
/// the larger number, and runs of one length compare digit by digit.
pub open spec fn number_order(x: Seq<u8>, y: Seq<u8>) -> int {
    let sx = x.skip(zero_run(x) as int);
    let sy = y.skip(zero_run(y) as int);
    if sx.len() != sy.len() {
        sign(sx.len() - sy.len())
    } else {
        lex(sx, sy)
    }
}

/// The length of the first token of a non-empty name: its digit run, or one byte.
pub open spec fn token_len(s: Seq<u8>) -> nat {
    if is_digit_byte(s[0]) {
        digit_run(s)
    } else {
        1
    }
}

/// The order of the first tokens of two non-empty names.
pub open spec fn token_order(a: Seq<u8>, b: Seq<u8>) -> int {
    if is_digit_byte(a[0]) && is_digit_byte(b[0]) {
        number_order(a.take(digit_run(a) as int), b.take(digit_run(b) as int))
    } else {
        sign(fold_byte(a[0]) - fold_byte(b[0]))
    }
}

pub proof fn lemma_digit_run_bound(s: Seq<u8>)
    ensures
        digit_run(s) <= s.len(),
        s.len() > 0 && is_digit_byte(s[0]) ==> digit_run(s) >= 1,
    decreases s.len(),
{
    if s.len() > 0 && is_digit_byte(s[0]) {
        lemma_digit_run_bound(s.drop_first());
    }
}

pub proof fn lemma_zero_run_bound(s: Seq<u8>)
    ensures
        zero_run(s) <= s.len(),
    decreases s.len(),
{
    if s.len() > 0 && s[0] == 48u8 {
        lemma_zero_run_bound(s.drop_first());
    }
}

/// Token by token, a name that runs out first ordering first: -1, 0 or 1.
pub open spec fn natural(a: Seq<u8>, b: Seq<u8>) -> int
    decreases a.len(),
{
    if a.len() == 0 && b.len() == 0 {
        0
    } else if a.len() == 0 {
        -1
    } else if b.len() == 0 {
        1
    } else {
        let t = token_order(a, b);
        if t != 0 {
            t
        } else {
            proof {
                lemma_digit_run_bound(a);
            }
            natural(a.skip(token_len(a) as int), b.skip(token_len(b) as int))
        }
    }
}

/// The name order: the token order, then the raw bytes.
pub open spec fn name_rank(a: Seq<u8>, b: Seq<u8>) -> int {
    let n = natural(a, b);
    if n != 0 {
        n
    } else {
        lex(a, b)
    }
}

// ---- laws of the byte order ----

proof fn lemma_lex_anti(a: Seq<u8>, b: Seq<u8>)
    ensures
        lex(a, b) == -lex(b, a),
        lex(a, b) == 0 <==> a == b,
        -1 <= lex(a, b) <= 1,
    decreases a.len(),
{
    if a.len() > 0 && b.len() > 0 && a[0] == b[0] {
        lemma_lex_anti(a.drop_first(), b.drop_first());
        if a.drop_first() == b.drop_first() {
            assert(a =~= seq![a[0]] + a.drop_first());
            assert(b =~= seq![b[0]] + b.drop_first());
        }
    }
    if a.len() == 0 && b.len() == 0 {
        assert(a =~= b);
    }
}

proof fn lemma_lex_trans(a: Seq<u8>, b: Seq<u8>, c: Seq<u8>)
    requires
        lex(a, b) < 0,
        lex(b, c) < 0,
    ensures
        lex(a, c) < 0,
    decreases a.len(),
{
    if a.len() > 0 && b.len() > 0 && c.len() > 0 && a[0] == b[0] && b[0] == c[0] {
        lemma_lex_trans(a.drop_first(), b.drop_first(), c.drop_first());
    }
}

/// Lexicographic order on runs of one length is transitive with ties.
proof fn lemma_lex_le_trans(a: Seq<u8>, b: Seq<u8>, c: Seq<u8>)
    requires
        lex(a, b) <= 0,
        lex(b, c) <= 0,
    ensures
        lex(a, c) <= 0,
        lex(a, b) < 0 || lex(b, c) < 0 ==> lex(a, c) < 0,
{
    lemma_lex_anti(a, b);
    lemma_lex_anti(b, c);
    if lex(a, b) < 0 && lex(b, c) < 0 {
        lemma_lex_trans(a, b, c);
    }
}

// ---- laws of the number order ----

proof fn lemma_number_anti(x: Seq<u8>, y: Seq<u8>)
    ensures
        number_order(x, y) == -number_order(y, x),
        -1 <= number_order(x, y) <= 1,
{
    lemma_lex_anti(x.skip(zero_run(x) as int), y.skip(zero_run(y) as int));
}

proof fn lemma_number_trans(x: Seq<u8>, y: Seq<u8>, z: Seq<u8>)
    requires
        number_order(x, y) <= 0,
        number_order(y, z) <= 0,
    ensures
        number_order(x, z) <= 0,
        number_order(x, y) < 0 || number_order(y, z) < 0 ==> number_order(x, z) < 0,
{
    let sx = x.skip(zero_run(x) as int);
    let sy = y.skip(zero_run(y) as int);
    let sz = z.skip(zero_run(z) as int);
    if sx.len() == sy.len() && sy.len() == sz.len() {
        lemma_lex_le_trans(sx, sy, sz);
    }
}

// ---- laws of the token order ----

proof fn lemma_fold_digit(b: u8)
    ensures
        is_digit_byte(fold_byte(b)) <==> is_digit_byte(b),
        is_digit_byte(b) ==> fold_byte(b) == b,
{
}

proof fn lemma_token_anti(a: Seq<u8>, b: Seq<u8>)
    requires
        a.len() > 0,
        b.len() > 0,
    ensures
        token_order(a, b) == -token_order(b, a),
        -1 <= token_order(a, b) <= 1,
{
    lemma_number_anti(a.take(digit_run(a) as int), b.take(digit_run(b) as int));
}

proof fn lemma_token_trans(a: Seq<u8>, b: Seq<u8>, c: Seq<u8>)
    requires
        a.len() > 0,
        b.len() > 0,
        c.len() > 0,
        token_order(a, b) <= 0,
        token_order(b, c) <= 0,
    ensures
        token_order(a, c) <= 0,
        token_order(a, b) < 0 || token_order(b, c) < 0 ==> token_order(a, c) < 0,
{
    lemma_fold_digit(a[0]);
    lemma_fold_digit(b[0]);
    lemma_fold_digit(c[0]);
    let da = is_digit_byte(a[0]);
    let db = is_digit_byte(b[0]);
    let dc = is_digit_byte(c[0]);
    if da && db && dc {
        lemma_number_trans(
            a.take(digit_run(a) as int),
            b.take(digit_run(b) as int),
            c.take(digit_run(c) as int),
        );
    }
}

// ---- laws of the token-by-token order ----

proof fn lemma_natural_anti(a: Seq<u8>, b: Seq<u8>)
    ensures
        natural(a, b) == -natural(b, a),
        -1 <= natural(a, b) <= 1,
    decreases a.len(),
{
    if a.len() > 0 && b.len() > 0 {
        lemma_token_anti(a, b);
        if token_order(a, b) == 0 {
            lemma_digit_run_bound(a);
            lemma_digit_run_bound(b);
            lemma_natural_anti(a.skip(token_len(a) as int), b.skip(token_len(b) as int));
        }
    }
}

proof fn lemma_natural_trans(a: Seq<u8>, b: Seq<u8>, c: Seq<u8>)
    requires
        natural(a, b) <= 0,
        natural(b, c) <= 0,
    ensures
        natural(a, c) <= 0,
        natural(a, b) < 0 || natural(b, c) < 0 ==> natural(a, c) < 0,
    decreases a.len(),
{
    if a.len() > 0 && b.len() > 0 && c.len() > 0 {
        lemma_token_trans(a, b, c);
        if token_order(a, b) == 0 && token_order(b, c) == 0 {
            lemma_digit_run_bound(a);
            lemma_digit_run_bound(b);
            lemma_digit_run_bound(c);
            lemma_natural_trans(
                a.skip(token_len(a) as int),
                b.skip(token_len(b) as int),
                c.skip(token_len(c) as int),
            );
        }
    }
}

/// The name order is antisymmetric, ties only a name with itself, and is transitive: a total
/// order, so one set of names always lists in one order.
pub proof fn law_name_order_total(a: Seq<u8>, b: Seq<u8>, c: Seq<u8>)
    ensures
        name_rank(a, b) == -name_rank(b, a),
        -1 <= name_rank(a, b) <= 1,
        name_rank(a, b) == 0 <==> a == b,
        name_rank(a, b) < 0 && name_rank(b, c) < 0 ==> name_rank(a, c) < 0,
{
    lemma_natural_anti(a, b);
    lemma_natural_anti(b, c);
    lemma_natural_anti(a, c);
    lemma_lex_anti(a, b);
    lemma_lex_anti(b, c);
    lemma_lex_anti(a, c);
    if a == b {
        assert(natural(a, b) == 0);
    }
    if name_rank(a, b) < 0 && name_rank(b, c) < 0 {
        lemma_natural_trans(a, b, c);
        if natural(a, b) == 0 && natural(b, c) == 0 {
            lemma_lex_trans(a, b, c);
        }
    }
}

// ---- digit runs compare by the numbers they spell ----

/// Ten to the `n`.
pub open spec fn pow10(n: nat) -> nat
    decreases n,
{
    if n == 0 {
        1
    } else {
        10 * pow10((n - 1) as nat)
    }
}

/// The number a run of ASCII digits spells in decimal.
pub open spec fn digits_value(s: Seq<u8>) -> nat
    decreases s.len(),
{
    if s.len() == 0 {
        0
    } else {
        digits_value(s.drop_last()) * 10 + (s.last() - 48) as nat
    }
}

/// Every byte of `s` is an ASCII digit.
pub open spec fn all_digits(s: Seq<u8>) -> bool {
    forall|i: int| 0 <= i < s.len() ==> is_digit_byte(#[trigger] s[i])
}

proof fn lemma_pow10_pos(n: nat)
    ensures
        pow10(n) >= 1,
    decreases n,
{
    if n > 0 {
        lemma_pow10_pos((n - 1) as nat);
    }
}

proof fn lemma_value_bound(s: Seq<u8>)
    requires
        all_digits(s),
    ensures
        digits_value(s) < pow10(s.len()),
    decreases s.len(),
{
    if s.len() > 0 {
        let t = s.drop_last();
        assert(all_digits(t)) by {
            assert forall|i: int| 0 <= i < t.len() implies is_digit_byte(#[trigger] t[i]) by {
                assert(t[i] == s[i]);
            }
        }
        lemma_value_bound(t);
        assert(is_digit_byte(s[s.len() - 1]));
        let v = digits_value(t);
        let p = pow10(t.len());
        let d = (s.last() - 48) as nat;
        assert(v * 10 + d < p * 10) by (nonlinear_arith)
            requires
                v < p,
                d < 10,
        ;
    }
}

proof fn lemma_value_front(s: Seq<u8>)
    requires
        s.len() > 0,
        all_digits(s),
    ensures
        digits_value(s) == (s[0] - 48) as nat * pow10((s.len() - 1) as nat) + digits_value(
            s.drop_first(),
        ),
    decreases s.len(),
{
    if s.len() == 1 {
        assert(s.drop_last().len() == 0);
        assert(s.drop_first().len() == 0);
        assert(digits_value(s.drop_last()) == 0);
        assert(digits_value(s.drop_first()) == 0);
        assert(s.last() == s[0]);
        assert(pow10(0) == 1);
        let d = (s[0] - 48) as nat;
        assert(digits_value(s) == digits_value(s.drop_last()) * 10 + (s.last() - 48) as nat);
        assert(digits_value(s) == d);
        assert(d * pow10(0) == d) by (nonlinear_arith)
            requires
                pow10(0) == 1,
        ;
    } else {
        let t = s.drop_last();
        assert(all_digits(t)) by {
            assert forall|i: int| 0 <= i < t.len() implies is_digit_byte(#[trigger] t[i]) by {
                assert(t[i] == s[i]);
            }
        }
        lemma_value_front(t);
        let u = s.drop_first();
        assert(u.drop_last() =~= t.drop_first());
        assert(u.last() == s.last());
        let d0 = (s[0] - 48) as nat;
        let p = pow10((t.len() - 1) as nat);
        let r = digits_value(t.drop_first());
        let dl = (s.last() - 48) as nat;
        assert(t[0] == s[0]);
        assert(digits_value(s) == digits_value(t) * 10 + dl);
        assert(digits_value(u) == digits_value(u.drop_last()) * 10 + dl);
        assert(pow10((s.len() - 1) as nat) == 10 * p);
        assert((d0 * p + r) * 10 + dl == d0 * (10 * p) + (r * 10 + dl)) by (nonlinear_arith);
        assert(digits_value(t) == d0 * p + r);
        assert(digits_value(u) == r * 10 + dl);
        assert(digits_value(s) == d0 * pow10((s.len() - 1) as nat) + digits_value(u));
    }
}

proof fn lemma_value_skip_zeros(s: Seq<u8>)
    requires
        all_digits(s),
    ensures
        digits_value(s) == digits_value(s.skip(zero_run(s) as int)),
        all_digits(s.skip(zero_run(s) as int)),
        s.skip(zero_run(s) as int).len() > 0 ==> s.skip(zero_run(s) as int)[0] != 48u8,
    decreases s.len(),
{
    lemma_zero_run_bound(s);
    if s.len() > 0 && s[0] == 48u8 {
        let t = s.drop_first();
        assert(all_digits(t)) by {
            assert forall|i: int| 0 <= i < t.len() implies is_digit_byte(#[trigger] t[i]) by {
                assert(t[i] == s[i + 1]);
            }
        }
        lemma_value_front(s);
        let d = (s[0] - 48) as nat;
        let p = pow10((s.len() - 1) as nat);
        assert(d * p == 0) by (nonlinear_arith)
            requires
                d == 0,
        ;
        assert(digits_value(s) == digits_value(t));
        lemma_value_skip_zeros(t);
        assert(s.skip(zero_run(s) as int) =~= t.skip(zero_run(t) as int));
    } else {
        assert(s.skip(0) =~= s);
    }
}

proof fn lemma_value_lower(s: Seq<u8>)
    requires
        s.len() > 0,
        all_digits(s),
        s[0] != 48u8,
    ensures
        digits_value(s) >= pow10((s.len() - 1) as nat),
{
    lemma_value_front(s);
    let d0 = (s[0] - 48) as nat;
    let p = pow10((s.len() - 1) as nat);
    assert(d0 >= 1);
    assert(d0 * p >= p) by (nonlinear_arith)
        requires
            d0 >= 1,
    ;
}

proof fn lemma_value_lex(a: Seq<u8>, b: Seq<u8>)
    requires
        a.len() == b.len(),
        all_digits(a),
        all_digits(b),
    ensures
        lex(a, b) == sign(digits_value(a) - digits_value(b)),
    decreases a.len(),
{
    if a.len() > 0 {
        let (ta, tb) = (a.drop_first(), b.drop_first());
        assert(all_digits(ta)) by {
            assert forall|i: int| 0 <= i < ta.len() implies is_digit_byte(#[trigger] ta[i]) by {
                assert(ta[i] == a[i + 1]);
            }
        }
        assert(all_digits(tb)) by {
            assert forall|i: int| 0 <= i < tb.len() implies is_digit_byte(#[trigger] tb[i]) by {
                assert(tb[i] == b[i + 1]);
            }
        }
        lemma_value_front(a);
        lemma_value_front(b);
        lemma_value_bound(ta);
        lemma_value_bound(tb);
        assert(is_digit_byte(a[0]) && is_digit_byte(b[0]));
        let p = pow10(ta.len());
        let (da, db) = ((a[0] - 48) as nat, (b[0] - 48) as nat);
        let (ra, rb) = (digits_value(ta), digits_value(tb));
        if a[0] == b[0] {
            lemma_value_lex(ta, tb);
        } else if a[0] < b[0] {
            assert(da * p + ra < db * p + rb) by (nonlinear_arith)
                requires
                    da < db,
                    ra < p,
                    rb >= 0,
            ;
        } else {
            assert(db * p + rb < da * p + ra) by (nonlinear_arith)
                requires
                    db < da,
                    rb < p,
                    ra >= 0,
            ;
        }
    }
}

/// Two runs of digits compare by the numbers they spell, leading zeros and all: the order
/// behind "file_2" listing before "file_10".
pub proof fn law_digit_runs_compare_by_value(x: Seq<u8>, y: Seq<u8>)
    requires
        all_digits(x),
        all_digits(y),
    ensures
        number_order(x, y) == sign(digits_value(x) - digits_value(y)),
{
    lemma_value_skip_zeros(x);
    lemma_value_skip_zeros(y);
    let sx = x.skip(zero_run(x) as int);
    let sy = y.skip(zero_run(y) as int);
    lemma_value_bound(sx);
    lemma_value_bound(sy);
    if sx.len() < sy.len() {
        lemma_value_lower(sy);
        lemma_pow10_mono(sx.len(), (sy.len() - 1) as nat);
    } else if sx.len() > sy.len() {
        lemma_value_lower(sx);
        lemma_pow10_mono(sy.len(), (sx.len() - 1) as nat);
    } else {
        lemma_value_lex(sx, sy);
    }
}

proof fn lemma_pow10_mono(m: nat, n: nat)
    requires
        m <= n,
    ensures
        pow10(m) <= pow10(n),
    decreases n,
{
    if m < n {
        lemma_pow10_mono(m, (n - 1) as nat);
        lemma_pow10_pos((n - 1) as nat);
    }
}

// ---- the executable order ----

/// Whether a byte is an ASCII digit.
fn digit(b: u8) -> (r: bool)
    ensures
        r == is_digit_byte(b),
{
    48 <= b && b <= 57
}

/// ASCII upper case folded to lower case.
fn fold(b: u8) -> (r: u8)
    ensures
        r == fold_byte(b),
{
    if 65 <= b && b <= 90 {
        b + 32
    } else {
        b
    }
}

proof fn lemma_digit_run_at(s: Seq<u8>, m: int)
    requires
        0 <= m <= s.len(),
        forall|k: int| 0 <= k < m ==> is_digit_byte(#[trigger] s[k]),
        m == s.len() || !is_digit_byte(s[m]),
    ensures
        digit_run(s) == m,
    decreases m,
{
    if m > 0 {
        assert forall|k: int| 0 <= k < m - 1 implies is_digit_byte(#[trigger] s.drop_first()[k]) by {
            assert(s.drop_first()[k] == s[k + 1]);
        }
        lemma_digit_run_at(s.drop_first(), m - 1);
    }
}

proof fn lemma_zero_run_at(s: Seq<u8>, m: int)
    requires
        0 <= m <= s.len(),
        forall|k: int| 0 <= k < m ==> #[trigger] s[k] == 48u8,
        m == s.len() || s[m] != 48u8,
    ensures
        zero_run(s) == m,
    decreases m,
{
    if m > 0 {
        assert forall|k: int| 0 <= k < m - 1 implies #[trigger] s.drop_first()[k] == 48u8 by {
            assert(s.drop_first()[k] == s[k + 1]);
        }
        lemma_zero_run_at(s.drop_first(), m - 1);
    }
}

/// The end of the digit run starting at `i`.
fn digit_run_end(a: &[u8], i: usize) -> (r: usize)
    requires
        i <= a.len(),
    ensures
        i <= r <= a.len(),
        r - i == digit_run(a@.skip(i as int)),
{
    let mut k = i;
    while k < a.len() && digit(a[k])
        invariant
            i <= k <= a.len(),
            forall|l: int| i <= l < k ==> is_digit_byte(#[trigger] a@[l]),
        decreases a.len() - k,
    {
        k = k + 1;
    }
    proof {
        let s = a@.skip(i as int);
        assert forall|l: int| 0 <= l < k - i implies is_digit_byte(#[trigger] s[l]) by {
            assert(s[l] == a@[i + l]);
        }
        lemma_digit_run_at(s, k - i);
    }
    k
}

/// The end of the run of `0` bytes starting at `i`, no further than `hi`.
fn zero_run_end(a: &[u8], i: usize, hi: usize) -> (r: usize)
    requires
        i <= hi <= a.len(),
    ensures
        i <= r <= hi,
        r - i == zero_run(a@.subrange(i as int, hi as int)),
{
    let mut k = i;
    while k < hi && a[k] == 48u8
        invariant
            i <= k <= hi <= a.len(),
            forall|l: int| i <= l < k ==> #[trigger] a@[l] == 48u8,
        decreases hi - k,
    {
        k = k + 1;
    }
    proof {
        let s = a@.subrange(i as int, hi as int);
        assert forall|l: int| 0 <= l < k - i implies #[trigger] s[l] == 48u8 by {
            assert(s[l] == a@[i + l]);
        }
        lemma_zero_run_at(s, k - i);
    }
    k
}

/// The byte order of `a[i..ie]` and `b[j..je]`, as -1, 0 or 1.
fn lex_range(a: &[u8], i: usize, ie: usize, b: &[u8], j: usize, je: usize) -> (r: i8)
    requires
        i <= ie <= a.len(),
        j <= je <= b.len(),
    ensures
        r == lex(a@.subrange(i as int, ie as int), b@.subrange(j as int, je as int)),
{
    let mut p = i;
    let mut q = j;
    while p < ie && q < je && a[p] == b[q]
        invariant
            i <= p <= ie <= a.len(),
            j <= q <= je <= b.len(),
            lex(a@.subrange(i as int, ie as int), b@.subrange(j as int, je as int)) == lex(
                a@.subrange(p as int, ie as int),
                b@.subrange(q as int, je as int),
            ),
        decreases ie - p,
    {
        assert(a@.subrange(p as int, ie as int).drop_first() =~= a@.subrange(p + 1, ie as int));
        assert(b@.subrange(q as int, je as int).drop_first() =~= b@.subrange(q + 1, je as int));
        p = p + 1;
        q = q + 1;
    }
    if p == ie && q == je {
        0
    } else if p == ie {
        -1
    } else if q == je {
        1
    } else if a[p] < b[q] {
        -1
    } else {
        1
    }
}

/// The number order of the digit runs `a[i..ie]` and `b[j..je]`.
fn number_sign(a: &[u8], i: usize, ie: usize, b: &[u8], j: usize, je: usize) -> (r: i8)
    requires
        i <= ie <= a.len(),
        j <= je <= b.len(),
    ensures
        r == number_order(a@.subrange(i as int, ie as int), b@.subrange(j as int, je as int)),
{
    let za = zero_run_end(a, i, ie);
    let zb = zero_run_end(b, j, je);
    let ghost x = a@.subrange(i as int, ie as int);
    let ghost y = b@.subrange(j as int, je as int);
    assert(x.skip(za - i) =~= a@.subrange(za as int, ie as int));
    assert(y.skip(zb - j) =~= b@.subrange(zb as int, je as int));
    let la = ie - za;
    let lb = je - zb;
    if la < lb {
        -1
    } else if la > lb {
        1
    } else {
        lex_range(a, za, ie, b, zb, je)
    }
}

/// The token-by-token order of two byte names, as -1, 0 or 1.
pub fn natural_sign(a: &[u8], b: &[u8]) -> (r: i8)
    ensures
        r == natural(a@, b@),
{
    let mut i: usize = 0;
    let mut j: usize = 0;
    assert(a@.skip(0) =~= a@);
    assert(b@.skip(0) =~= b@);
    loop
        invariant
            i <= a.len(),
            j <= b.len(),
            natural(a@, b@) == natural(a@.skip(i as int), b@.skip(j as int)),
        decreases a.len() - i,
    {
        let ghost sa = a@.skip(i as int);
        let ghost sb = b@.skip(j as int);
        if i == a.len() && j == b.len() {
            return 0;
        }
        if i == a.len() {
            return -1;
        }
        if j == b.len() {
            return 1;
        }
        let x = a[i];
        let y = b[j];
        assert(sa[0] == x && sb[0] == y);
        if digit(x) && digit(y) {
            let ie = digit_run_end(a, i);
            let je = digit_run_end(b, j);
            proof {
                lemma_digit_run_bound(sa);
                lemma_digit_run_bound(sb);
            }
            assert(sa.take(digit_run(sa) as int) =~= a@.subrange(i as int, ie as int));
            assert(sb.take(digit_run(sb) as int) =~= b@.subrange(j as int, je as int));
            let t = number_sign(a, i, ie, b, j, je);
            if t != 0 {
                return t;
            }
            assert(sa.skip(token_len(sa) as int) =~= a@.skip(ie as int));
            assert(sb.skip(token_len(sb) as int) =~= b@.skip(je as int));
            i = ie;
            j = je;
        } else {
            let fx = fold(x);
            let fy = fold(y);
            if fx < fy {
                return -1;
            }
            if fx > fy {
                return 1;
            }
            assert(sa.skip(1) =~= a@.skip(i + 1));
            assert(sb.skip(1) =~= b@.skip(j + 1));
            i = i + 1;
            j = j + 1;
        }
    }
}

/// The byte order of two whole names, as -1, 0 or 1.
pub fn lex_sign(a: &[u8], b: &[u8]) -> (r: i8)
    ensures
        r == lex(a@, b@),
{
    assert(a@.subrange(0, a@.len() as int) =~= a@);
    assert(b@.subrange(0, b@.len() as int) =~= b@);
    lex_range(a, 0, a.len(), b, 0, b.len())
}

/// The name order of two byte names, as -1, 0 or 1.
pub fn name_sign(a: &[u8], b: &[u8]) -> (r: i8)
    ensures
        r == name_rank(a@, b@),
{
    let n = natural_sign(a, b);
    if n != 0 {
        n
    } else {
        lex_sign(a, b)
    }
}

/// The order search results are answered in: the better score first, then the shorter name,
/// then the name order.
pub open spec fn rank_key(a_score: i32, a: Seq<u8>, b_score: i32, b: Seq<u8>) -> int {
    if a_score != b_score {
        sign(b_score - a_score)
    } else if a.len() != b.len() {
        sign(a.len() - b.len())
    } else {
        name_rank(a, b)
    }
}

/// The rank order is antisymmetric, ties two results only when score and name are both equal,
/// and is transitive, so one walk over one tree always answers in exactly one order.
pub proof fn law_rank_order_total(
    a_score: i32,
    a: Seq<u8>,
    b_score: i32,
    b: Seq<u8>,
    c_score: i32,
    c: Seq<u8>,
)
    ensures
        rank_key(a_score, a, b_score, b) == -rank_key(b_score, b, a_score, a),
        -1 <= rank_key(a_score, a, b_score, b) <= 1,
        rank_key(a_score, a, b_score, b) == 0 <==> a_score == b_score && a == b,
        rank_key(a_score, a, b_score, b) < 0 && rank_key(b_score, b, c_score, c) < 0
            ==> rank_key(a_score, a, c_score, c) < 0,
{
    law_name_order_total(a, b, c);
    law_name_order_total(b, a, c);
}

/// The rank order of two results, as -1, 0 or 1.
pub fn rank_sign(a_score: i32, a: &[u8], b_score: i32, b: &[u8]) -> (r: i8)
    ensures
        r == rank_key(a_score, a@, b_score, b@),
{
    if a_score != b_score {
        if b_score < a_score {
            -1
        } else {
            1
        }
    } else if a.len() != b.len() {
        if a.len() < b.len() {
            -1
        } else {
            1
        }
    } else {
        name_sign(a, b)
    }
}

} // verus!
