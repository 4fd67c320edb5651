//! Base-unit amounts and their decimal display text. One display unit is
//! ten to the 24th base units.

use vstd::prelude::*;
use crate::decimal::{
    char_value, decimal_text, digit_char, digits_value, is_digit, lemma_decimal_text_digits,
    lemma_digits_value_concat, lemma_padded_text_digits, lemma_pow10_add, lemma_pow10_fits,
    lemma_pow10_positive, lemma_pow10_step, padded_text, pow10, pow10_u128, push_decimal,
    push_padded,
};

verus! {

/// Number of base units in one display unit, as a power of ten.
pub const SCALE_DIGITS: u32 = 24;

/// Number of digits kept by the display text.
pub const KEPT_DIGITS: u32 = 5;

/// Base units in one display unit.
pub open spec fn one_unit() -> nat {
    pow10(24)
}

/// Number of decimal digits of `a`.
pub open spec fn digit_count(a: nat) -> nat {
    decimal_text(a).len()
}

/// How many low digits of `a` the display text drops: all but the first five
/// fractional digits above one display unit, all but the first five
/// significant digits below it.
pub open spec fn dropped_digits(a: nat) -> nat {
    let n = digit_count(a);
    if n > 24 { 19 } else if n > 5 { (n - 5) as nat } else { 0 }
}

/// `a` with the digits that the display text drops set to zero.
pub open spec fn display_truncated(a: nat) -> nat {
    let p = pow10(dropped_digits(a));
    a / p * p
}

/// `s` without its trailing '0' characters.
pub open spec fn strip_trailing_zeros(s: Seq<char>) -> Seq<char>
    decreases s.len(),
{
    if s.len() > 0 && s.last() == '0' { strip_trailing_zeros(s.drop_last()) } else { s }
}

/// Exact fixed-point text of `v` base units: the whole display units, then a
/// point and the fractional digits without trailing zeros, if any remain.
pub open spec fn fixed_point_text(v: nat) -> Seq<char> {
    let frac = v % one_unit();
    decimal_text(v / one_unit()) + if frac == 0 {
        Seq::<char>::empty()
    } else {
        seq!['.'] + strip_trailing_zeros(padded_text(frac, 24))
    }
}

/// The display text of `a` base units.
pub open spec fn display_text(a: nat) -> Seq<char> {
    fixed_point_text(display_truncated(a))
}

proof fn lemma_strip_step(f: nat, w: nat)
    requires
        w > 0,
        f % 10 == 0,
    ensures
        strip_trailing_zeros(padded_text(f, w)) == strip_trailing_zeros(padded_text(f / 10, (w - 1) as nat)),
{
    let p = padded_text(f, w);
    assert(p.drop_last() =~= padded_text(f / 10, (w - 1) as nat));
}

proof fn lemma_strip_stop(f: nat, w: nat)
    requires
        w > 0,
        f % 10 != 0,
    ensures
        strip_trailing_zeros(padded_text(f, w)) == padded_text(f, w),
{
    assert(padded_text(f, w).last() == digit_char(f % 10));
}

/// Number of decimal digits of `a`.
fn count_digits(a: u128) -> (r: u32)
    ensures
        r as nat == digit_count(a as nat),
        1 <= r <= 39,
{
    let mut m: u128 = a;
    let mut n: u32 = 1;
    assert(pow10((n - 1) as nat) == 1);
    assert(m as nat * 1 == a);
    assert(m as nat * pow10((n - 1) as nat) == a);
    while m >= 10
        invariant
            digit_count(a as nat) == digit_count(m as nat) + n - 1,
            1 <= n <= 39,
            m as nat * pow10((n - 1) as nat) <= a,
        decreases m,
    {
        proof {
            lemma_pow10_positive((n - 1) as nat);
            assert((m / 10) as nat * pow10(n as nat) <= m as nat * pow10((n - 1) as nat)) by (nonlinear_arith)
                requires pow10(n as nat) == 10 * pow10((n - 1) as nat), m >= 10;
            assert(pow10(n as nat) <= a) by (nonlinear_arith)
                requires (m / 10) as nat * pow10(n as nat) <= a, m >= 10;
            if n >= 39 {
                lemma_pow10_fits(38);
                lemma_pow10_step(38);
                assert(false);
            }
        }
        m = m / 10;
        n = n + 1;
    }
    n
}

/// Renders `amount` base units as display units, keeping five digits: the
/// first five fractional digits from one display unit up, the first five
/// significant digits below it. Dropped digits are cut, not rounded; trailing
/// zeros and a bare point are left out, and zero renders as "0".
pub fn yoctonear_to_near(amount: u128) -> (r: String)
    ensures
        r@ == display_text(amount as nat),
{
    let n = count_digits(amount);
    let drop: u32 = if n > SCALE_DIGITS {
        SCALE_DIGITS - KEPT_DIGITS
    } else if n > KEPT_DIGITS {
        n - KEPT_DIGITS
    } else {
        0
    };
    let p = pow10_u128(drop);
    proof {
        lemma_pow10_positive(drop as nat);
        assert(amount / p * p <= amount) by (nonlinear_arith) requires p >= 1;
    }
    let t = amount / p * p;
    let one = pow10_u128(SCALE_DIGITS);
    proof { lemma_pow10_positive(24); }
    let mut s = String::new();
    push_decimal(&mut s, t / one);
    let mut f = t % one;
    if f != 0 {
        let ghost f0 = f;
        let mut w: u32 = SCALE_DIGITS;
        while f % 10 == 0
            invariant
                0 < f < pow10(w as nat),
                w <= 24,
                strip_trailing_zeros(padded_text(f0 as nat, 24)) == strip_trailing_zeros(padded_text(f as nat, w as nat)),
            decreases w,
        {
            proof {
                if w == 0 { assert(false); }
                lemma_strip_step(f as nat, w as nat);
                assert(pow10(w as nat) == 10 * pow10((w - 1) as nat));
            }
            f = f / 10;
            w = w - 1;
        }
        proof {
            if w == 0 { assert(false); }
            lemma_strip_stop(f as nat, w as nat);
        }
        s.append(".");
        push_padded(&mut s, f, w);
        proof {
            reveal_strlit(".");
        }
    }
    assert(s@ =~= display_text(amount as nat));
    s
}

/// Reduces `amount` to its first `keep_digit` digits and the power of ten that
/// scales them back: `amount` is about `r.0` times ten to the `r.1`, with the
/// dropped digits taken as zero.
pub fn as_scientific_notation(amount: u128, keep_digit: usize) -> (r: (u32, u8))
    requires
        1 <= keep_digit <= digit_count(amount as nat),
        amount as nat / pow10((digit_count(amount as nat) - keep_digit) as nat) <= u32::MAX,
    ensures
        r.1 == digit_count(amount as nat) - keep_digit,
        r.0 == amount as nat / pow10(r.1 as nat),
{
    let n = count_digits(amount);
    let e: u32 = n - keep_digit as u32;
    let p = pow10_u128(e);
    proof { lemma_pow10_positive(e as nat); }
    let m = amount / p;
    (m as u32, e as u8)
}

/// The digit characters of `s`, in order, without the point.
pub open spec fn digits_only(s: Seq<char>) -> Seq<char>
    decreases s.len(),
{
    if s.len() == 0 {
        s
    } else if s.last() == '.' {
        digits_only(s.drop_last())
    } else {
        digits_only(s.drop_last()).push(s.last())
    }
}

/// Number of characters after the last point of `s` (all of them if none).
pub open spec fn trailing_run(s: Seq<char>) -> nat
    decreases s.len(),
{
    if s.len() == 0 || s.last() == '.' { 0 } else { 1 + trailing_run(s.drop_last()) }
}

/// Number of fractional digits of the decimal text `s`.
pub open spec fn fraction_len(s: Seq<char>) -> nat {
    if s.contains('.') { trailing_run(s) } else { 0 }
}

/// Decimal text of a display amount: ASCII digits with at most one point, at
/// least one digit, and no more fractional digits than base units resolve.
pub open spec fn valid_amount_text(s: Seq<char>) -> bool {
    &&& forall|i: int| 0 <= i < s.len() ==> is_digit(#[trigger] s[i]) || s[i] == '.'
    &&& forall|i: int, j: int| 0 <= i < s.len() && 0 <= j < s.len() && s[i] == '.' && s[j] == '.' ==> i == j
    &&& exists|i: int| 0 <= i < s.len() && is_digit(#[trigger] s[i])
    &&& fraction_len(s) <= 24
}

/// Base units denoted by the decimal text `s`: its digits read as one number,
/// padded on the right with zeros to 24 fractional digits.
pub open spec fn amount_value(s: Seq<char>) -> nat {
    digits_value(digits_only(s)) * pow10((24 - fraction_len(s)) as nat)
}

proof fn lemma_digits_only_monotone(s: Seq<char>, i: int, j: int)
    requires
        0 <= i <= j <= s.len(),
    ensures
        digits_value(digits_only(s.take(i))) <= digits_value(digits_only(s.take(j))),
    decreases j - i,
{
    if i < j {
        lemma_digits_only_monotone(s, i, j - 1);
        assert(s.take(j).drop_last() =~= s.take(j - 1));
        let d = digits_only(s.take(j - 1));
        if s[j - 1] != '.' {
            assert(digits_only(s.take(j)).drop_last() =~= d);
        }
    }
}

/// Parses display-unit decimal text into base units: the digits of the text,
/// padded on the right with zeros to 24 fractional digits, read as a number.
/// Leading zeros, after the point or before it, add nothing to that value,
/// so "0.0021" and "0" need no rule of their own.
pub fn near_to_yoctonear(amount: String) -> (r: u128)
    requires
        valid_amount_text(amount@),
        amount_value(amount@) <= u128::MAX,
    ensures
        r == amount_value(amount@),
{
    let s = amount.as_str();
    let len = s.unicode_len();
    let ghost t = amount@;
    let mut acc: u128 = 0;
    let mut frac: usize = 0;
    let mut seen_point = false;
    let mut i: usize = 0;
    proof {
        let p = pow10((24 - fraction_len(t)) as nat);
        lemma_pow10_positive((24 - fraction_len(t)) as nat);
        assert(digits_value(digits_only(t)) <= digits_value(digits_only(t)) * p) by (nonlinear_arith)
            requires p >= 1;
        lemma_digits_only_monotone(t, 0, t.len() as int);
        assert(t.take(t.len() as int) =~= t);
    }
    while i < len
        invariant
            s@ == t,
            len == t.len(),
            i <= len,
            valid_amount_text(t),
            amount_value(t) <= u128::MAX,
            digits_value(digits_only(t)) <= amount_value(t),
            acc == digits_value(digits_only(t.take(i as int))),
            seen_point == t.take(i as int).contains('.'),
            frac == (if seen_point { trailing_run(t.take(i as int)) } else { 0 }),
            frac <= i,
        decreases len - i,
    {
        let c = s.get_char(i);
        let ghost prev = t.take(i as int);
        assert(t.take(i + 1).drop_last() =~= prev);
        assert(t.take(i + 1).last() == c);
        if c == '.' {
            seen_point = true;
            frac = 0;
            assert(t.take(i + 1)[i as int] == '.');
        } else {
            proof {
                lemma_digits_only_monotone(t, i + 1, t.len() as int);
                assert(t.take(t.len() as int) =~= t);
                assert(is_digit(t[i as int]));
                assert(digits_only(t.take(i + 1)) == digits_only(prev).push(c));
                assert(digits_only(prev).push(c).drop_last() =~= digits_only(prev));
                let nxt = t.take(i + 1);
                assert(nxt.contains('.') == prev.contains('.')) by {
                    if nxt.contains('.') {
                        let j = choose|j: int| 0 <= j < nxt.len() && nxt[j] == '.';
                        assert(prev[j] == '.');
                    }
                    if prev.contains('.') {
                        let j = choose|j: int| 0 <= j < prev.len() && prev[j] == '.';
                        assert(nxt[j] == '.');
                    }
                }
            }
            let d = (c as u32 - '0' as u32) as u128;
            acc = acc * 10 + d;
            if seen_point {
                frac = frac + 1;
            }
        }
        i = i + 1;
    }
    assert(t.take(len as int) =~= t);
    let p = pow10_u128(SCALE_DIGITS - frac as u32);
    acc * p
}

proof fn lemma_no_point(s: Seq<char>)
    requires
        forall|i: int| 0 <= i < s.len() ==> is_digit(#[trigger] s[i]),
    ensures
        digits_only(s) == s,
        trailing_run(s) == s.len(),
        !s.contains('.'),
    decreases s.len(),
{
    if s.len() > 0 {
        let s0 = s.drop_last();
        assert forall|i: int| 0 <= i < s0.len() implies is_digit(#[trigger] s0[i]) by {
            assert(s0[i] == s[i]);
        }
        lemma_no_point(s0);
        assert(is_digit(s[s.len() - 1]));
        assert(s0.push(s.last()) =~= s);
    }
    if s.contains('.') {
        let j = choose|j: int| 0 <= j < s.len() && s[j] == '.';
        assert(is_digit(s[j]));
    }
}

proof fn lemma_point_join(a: Seq<char>, b: Seq<char>)
    requires
        forall|i: int| 0 <= i < a.len() ==> is_digit(#[trigger] a[i]),
        forall|i: int| 0 <= i < b.len() ==> is_digit(#[trigger] b[i]),
    ensures
        digits_only(a + (seq!['.'] + b)) == a + b,
        trailing_run(a + (seq!['.'] + b)) == b.len(),
    decreases b.len(),
{
    let t = a + (seq!['.'] + b);
    if b.len() == 0 {
        lemma_no_point(a);
        assert(t.drop_last() =~= a);
        assert(a + b =~= a);
    } else {
        let b0 = b.drop_last();
        assert forall|i: int| 0 <= i < b0.len() implies is_digit(#[trigger] b0[i]) by {
            assert(b0[i] == b[i]);
        }
        lemma_point_join(a, b0);
        assert(t.drop_last() =~= a + (seq!['.'] + b0));
        assert(t.last() == b.last());
        assert(is_digit(b[b.len() - 1]));
        assert((a + b0).push(b.last()) =~= a + b);
    }
}

proof fn lemma_strip_padded(f: nat, w: nat)
    requires
        0 < f < pow10(w),
    ensures
        1 <= strip_trailing_zeros(padded_text(f, w)).len() <= w,
        forall|i: int| 0 <= i < strip_trailing_zeros(padded_text(f, w)).len()
            ==> is_digit(#[trigger] strip_trailing_zeros(padded_text(f, w))[i]),
        digits_value(strip_trailing_zeros(padded_text(f, w)))
            * pow10((w - strip_trailing_zeros(padded_text(f, w)).len()) as nat) == f,
    decreases w,
{
    if w == 0 {
        assert(pow10(0) == 1);
    } else if f % 10 == 0 {
        lemma_strip_step(f, w);
        assert(pow10(w) == 10 * pow10((w - 1) as nat));
        lemma_strip_padded(f / 10, (w - 1) as nat);
        let st = strip_trailing_zeros(padded_text(f / 10, (w - 1) as nat));
        let k = st.len();
        assert(pow10((w - k) as nat) == 10 * pow10((w - 1 - k) as nat));
        assert(digits_value(st) * (10 * pow10((w - 1 - k) as nat))
            == 10 * (digits_value(st) * pow10((w - 1 - k) as nat))) by (nonlinear_arith);
        assert(strip_trailing_zeros(padded_text(f, w)) == st);
        assert(10 * (f / 10) == f);
    } else {
        lemma_strip_stop(f, w);
        lemma_padded_text_digits(f, w);
        assert(pow10(0) == 1);
        assert(f % pow10(w) == f) by (nonlinear_arith) requires 0 < f < pow10(w);
        assert((w - padded_text(f, w).len()) as nat == 0);
        assert(digits_value(padded_text(f, w)) * 1 == f);
    }
}

/// Reading back the fixed-point text of `v` gives `v`.
pub proof fn lemma_fixed_point_round_trip(v: nat)
    ensures
        valid_amount_text(fixed_point_text(v)),
        amount_value(fixed_point_text(v)) == v,
{
    let u = one_unit();
    lemma_pow10_positive(24);
    let q = v / u;
    let f = v % u;
    let d = decimal_text(q);
    let t = fixed_point_text(v);
    lemma_decimal_text_digits(q);
    assert(is_digit(d[0]));
    if f == 0 {
        assert(t =~= d);
        lemma_no_point(d);
        assert(is_digit(t[0]));
        assert(q * u == v) by (nonlinear_arith) requires q == v / u, v % u == 0, u > 0;
        assert(digits_value(d) * pow10(24) == v);
    } else {
        lemma_strip_padded(f, 24);
        let st = strip_trailing_zeros(padded_text(f, 24));
        let k = st.len();
        assert(t =~= d + (seq!['.'] + st));
        lemma_point_join(d, st);
        let n = d.len();
        assert(t[n as int] == '.');
        assert(t.contains('.'));
        assert(is_digit(t[0]));
        assert forall|i: int| 0 <= i < t.len() implies is_digit(#[trigger] t[i]) || t[i] == '.' by {
            if i < n {
                assert(t[i] == d[i]);
            } else if i > n {
                assert(t[i] == st[i - n - 1]);
            }
        }
        assert forall|i: int, j: int| 0 <= i < t.len() && 0 <= j < t.len() && t[i] == '.' && t[j] == '.' implies i == j by {
            if i < n {
                assert(t[i] == d[i]);
            } else if i > n {
                assert(t[i] == st[i - n - 1]);
            }
            if j < n {
                assert(t[j] == d[j]);
            } else if j > n {
                assert(t[j] == st[j - n - 1]);
            }
        }
        lemma_digits_value_concat(d, st);
        lemma_pow10_add(k, (24 - k) as nat);
        assert((k + (24 - k)) as nat == 24);
        let pk = pow10(k);
        let pr = pow10((24 - k) as nat);
        assert((q * pk + digits_value(st)) * pr == q * (pk * pr) + digits_value(st) * pr) by (nonlinear_arith);
        assert(q * u + f == v) by (nonlinear_arith) requires q == v / u, f == v % u, u > 0;
    }
}

/// The display text of an amount reads back, through the parser's rules, as
/// the amount with the dropped digits set to zero, which fits where the
/// amount did.
pub proof fn lemma_display_round_trip(amount: u128)
    ensures
        valid_amount_text(display_text(amount as nat)),
        amount_value(display_text(amount as nat)) == display_truncated(amount as nat),
        display_truncated(amount as nat) <= amount,
{
    lemma_fixed_point_round_trip(display_truncated(amount as nat));
    let p = pow10(dropped_digits(amount as nat));
    lemma_pow10_positive(dropped_digits(amount as nat));
    assert(amount as nat / p * p <= amount) by (nonlinear_arith) requires p >= 1;
}

} // verus!
