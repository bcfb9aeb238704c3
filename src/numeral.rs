//! The text of a 64-bit float, as std's `f64` parser accepts it:
//! an optional sign, then `inf`, `infinity` or `nan` in any case, or a
//! mantissa of digits with at most one `.` and at least one digit, followed
//! by an optional `e` or `E` exponent with an optional sign and digits.
use vstd::prelude::*;

use crate::expr::is_decimal;
use crate::text::{chars_of, is_digit, is_digit_char};

verus! {

/// A `+` or `-` sign.
pub open spec fn is_sign(c: char) -> bool {
    c == '+' || c == '-'
}

/// The mark that starts an exponent.
pub open spec fn is_exp_mark(c: char) -> bool {
    c == 'e' || c == 'E'
}

/// `c` is the lowercase ASCII letter `l`, or its uppercase form.
pub open spec fn ci_eq(c: char, l: char) -> bool {
    c == l || (c as u32) + 32 == (l as u32)
}

/// `u` spells the lowercase word `w`, ignoring ASCII case.
pub open spec fn word_ci(u: Seq<char>, w: Seq<char>) -> bool {
    u.len() == w.len() && forall|i: int| 0 <= i < u.len() ==> ci_eq(#[trigger] u[i], w[i])
}

/// `inf`, `infinity` or `nan`, in any case.
pub open spec fn is_special(u: Seq<char>) -> bool {
    word_ci(u, seq!['i', 'n', 'f']) || word_ci(u, seq!['i', 'n', 'f', 'i', 'n', 'i', 't', 'y'])
        || word_ci(u, seq!['n', 'a', 'n'])
}

/// Digits with at most one `.`, and at least one digit.
pub open spec fn is_mantissa(m: Seq<char>) -> bool {
    &&& forall|i: int| 0 <= i < m.len() ==> is_digit(#[trigger] m[i]) || m[i] == '.'
    &&& forall|i: int, j: int|
        0 <= i < j < m.len() && #[trigger] m[i] == '.' ==> #[trigger] m[j] != '.'
    &&& exists|i: int| 0 <= i < m.len() && is_digit(#[trigger] m[i])
}

/// One or more digits.
pub open spec fn is_digit_run(d: Seq<char>) -> bool {
    d.len() > 0 && forall|i: int| 0 <= i < d.len() ==> is_digit(#[trigger] d[i])
}

/// What follows the exponent mark: an optional sign, then one or more
/// digits.
pub open spec fn is_exponent(x: Seq<char>) -> bool {
    if x.len() > 0 && is_sign(x[0]) {
        is_digit_run(x.skip(1))
    } else {
        is_digit_run(x)
    }
}

/// A mantissa, then optionally an exponent mark and an exponent.
pub open spec fn is_float_number(u: Seq<char>) -> bool {
    exists|k: int|
        0 <= k <= u.len() && #[trigger] is_mantissa(u.take(k)) && (k == u.len() || (is_exp_mark(
            u[k],
        ) && is_exponent(u.skip(k + 1))))
}

/// Text that std's `f64` parser accepts.
pub open spec fn is_float_text(t: Seq<char>) -> bool {
    let u = if t.len() > 0 && is_sign(t[0]) {
        t.skip(1)
    } else {
        t
    };
    is_special(u) || is_float_number(u)
}

/// Decimal text, digits with at most one inner `.`, is float text.
pub proof fn lemma_decimal_is_float(t: Seq<char>)
    requires
        is_decimal(t),
    ensures
        is_float_text(t),
{
    assert(t.take(t.len() as int) =~= t);
    assert(is_digit(t[0]));
    assert(is_mantissa(t.take(t.len() as int)));
}

/// Tests `ci_eq(c, l)`.
fn ci_eq_char(c: char, l: char) -> (r: bool)
    requires
        'a' <= l <= 'z',
    ensures
        r == ci_eq(c, l),
{
    c == l || (c as u32) == (l as u32) - 32
}

/// Tests whether `v[lo..]` spells the lowercase word `w`, ignoring case.
fn word_at(v: &Vec<char>, lo: usize, w: &Vec<char>) -> (r: bool)
    requires
        lo <= v.len(),
        forall|i: int| 0 <= i < w.len() ==> 'a' <= #[trigger] w@[i] <= 'z',
    ensures
        r == word_ci(v@.skip(lo as int), w@),
{
    if v.len() - lo != w.len() {
        return false;
    }
    let mut i: usize = 0;
    while i < w.len()
        invariant
            v.len() - lo == w.len(),
            0 <= i <= w.len(),
            lo <= v.len(),
            forall|j: int| 0 <= j < w.len() ==> 'a' <= #[trigger] w@[j] <= 'z',
            forall|j: int| 0 <= j < i ==> ci_eq(#[trigger] v@.skip(lo as int)[j], w@[j]),
        decreases w.len() - i,
    {
        if !ci_eq_char(v[lo + i], w[i]) {
            assert(v@.skip(lo as int)[i as int] == v@[lo + i]);
            return false;
        }
        i = i + 1;
    }
    true
}

/// Tests `is_special(v[lo..])`.
fn special_at(v: &Vec<char>, lo: usize) -> (r: bool)
    requires
        lo <= v.len(),
    ensures
        r == is_special(v@.skip(lo as int)),
{
    let inf = chars_of("inf");
    let infinity = chars_of("infinity");
    let nan = chars_of("nan");
    proof {
        reveal_strlit("inf");
        reveal_strlit("infinity");
        reveal_strlit("nan");
        assert(inf@ =~= seq!['i', 'n', 'f']);
        assert(infinity@ =~= seq!['i', 'n', 'f', 'i', 'n', 'i', 't', 'y']);
        assert(nan@ =~= seq!['n', 'a', 'n']);
    }
    word_at(v, lo, &inf) || word_at(v, lo, &infinity) || word_at(v, lo, &nan)
}

/// Tests `is_mantissa(v[lo..hi])`.
fn mantissa_at(v: &Vec<char>, lo: usize, hi: usize) -> (r: bool)
    requires
        lo <= hi <= v.len(),
    ensures
        r == is_mantissa(v@.subrange(lo as int, hi as int)),
{
    let ghost m = v@.subrange(lo as int, hi as int);
    let mut seen_dot = false;
    let mut seen_digit = false;
    let mut i = lo;
    while i < hi
        invariant
            lo <= i <= hi <= v.len(),
            m == v@.subrange(lo as int, hi as int),
            forall|j: int| 0 <= j < i - lo ==> is_digit(#[trigger] m[j]) || m[j] == '.',
            forall|a: int, b: int|
                0 <= a < b < i - lo && #[trigger] m[a] == '.' ==> #[trigger] m[b] != '.',
            seen_dot <==> exists|j: int| 0 <= j < i - lo && m[j] == '.',
            seen_digit <==> exists|j: int| 0 <= j < i - lo && is_digit(#[trigger] m[j]),
        decreases hi - i,
    {
        let c = v[i];
        assert(m[i - lo] == c);
        if is_digit_char(c) {
            seen_digit = true;
        } else if c == '.' && !seen_dot {
            seen_dot = true;
        } else {
            proof {
                if c == '.' {
                    let j = choose|j: int| 0 <= j < i - lo && m[j] == '.';
                    assert(m[j] == '.' && m[i - lo] == '.');
                }
            }
            return false;
        }
        i = i + 1;
    }
    seen_digit
}

/// Tests `is_exponent(v[lo..])`.
fn exponent_at(v: &Vec<char>, lo: usize) -> (r: bool)
    requires
        lo <= v.len(),
    ensures
        r == is_exponent(v@.skip(lo as int)),
{
    let ghost x = v@.skip(lo as int);
    let mut i = lo;
    if i < v.len() && (v[i] == '+' || v[i] == '-') {
        i = i + 1;
    }
    let ghost d = v@.skip(i as int);
    proof {
        if x.len() > 0 {
            assert(x[0] == v@[lo as int]);
        }
        if i > lo {
            assert(d =~= x.skip(1));
        } else {
            assert(d =~= x);
        }
        assert(is_exponent(x) == is_digit_run(d));
    }
    if i == v.len() {
        return false;
    }
    let start = i;
    while i < v.len()
        invariant
            start <= i <= v.len(),
            d == v@.skip(start as int),
            forall|j: int| 0 <= j < i - start ==> is_digit(#[trigger] d[j]),
            x == v@.skip(lo as int),
            d.len() == v.len() - start,
            d.len() > 0,
            is_exponent(x) == is_digit_run(d),
        decreases v.len() - i,
    {
        assert(d[i - start] == v@[i as int]);
        if !is_digit_char(v[i]) {
            return false;
        }
        i = i + 1;
    }
    true
}

/// Tests `is_float_number(v[lo..])`.
fn float_number_at(v: &Vec<char>, lo: usize) -> (r: bool)
    requires
        lo <= v.len(),
    ensures
        r == is_float_number(v@.skip(lo as int)),
{
    let ghost u = v@.skip(lo as int);
    let mut k = lo;
    while k < v.len() && !(v[k] == 'e' || v[k] == 'E')
        invariant
            lo <= k <= v.len(),
            forall|j: int| lo <= j < k ==> !is_exp_mark(#[trigger] v@[j]),
        decreases v.len() - k,
    {
        k = k + 1;
    }
    let ghost kk = k - lo;
    proof {
        assert(u.take(kk) =~= v@.subrange(lo as int, k as int));
        // any split point other than the first exponent mark fails
        assert forall|k2: int|
            0 <= k2 <= u.len() && k2 != kk && #[trigger] is_mantissa(u.take(k2)) implies !(k2
            == u.len() || is_exp_mark(u[k2])) by {
            if k2 < kk {
                assert(u[k2] == v@[lo + k2]);
            } else {
                assert(u.take(k2)[kk] == v@[k as int]);
            }
        }
    }
    let m = mantissa_at(v, lo, k);
    if !m {
        return false;
    }
    if k == v.len() {
        return true;
    }
    let e = exponent_at(v, k + 1);
    assert(u[kk] == v@[k as int]);
    assert(u.skip(kk + 1) =~= v@.skip(k + 1));
    e
}

/// Tests whether `t` is text that std's `f64` parser accepts.
pub fn is_float_text_exec(t: &str) -> (r: bool)
    ensures
        r == is_float_text(t@),
{
    let v = chars_of(t);
    let lo: usize = if v.len() > 0 && (v[0] == '+' || v[0] == '-') {
        1
    } else {
        0
    };
    assert(v@.skip(lo as int) =~= if t@.len() > 0 && is_sign(t@[0]) {
        t@.skip(1)
    } else {
        t@
    });
    special_at(&v, lo) || float_number_at(&v, lo)
}

} // verus!
