//! Rendering of non-negative numbers in fixed-point decimal notation.

use vstd::prelude::*;

verus! {

/// The character of a decimal digit.
pub open spec fn digit_char(d: nat) -> char {
    if d == 0 { '0' }
    else if d == 1 { '1' }
    else if d == 2 { '2' }
    else if d == 3 { '3' }
    else if d == 4 { '4' }
    else if d == 5 { '5' }
    else if d == 6 { '6' }
    else if d == 7 { '7' }
    else if d == 8 { '8' }
    else { '9' }
}

/// The decimal digits of `n`, most significant first, without leading zeros
/// (zero is the single digit `0`).
pub open spec fn digits(n: nat) -> Seq<char>
    decreases n,
{
    if n < 10 {
        seq![digit_char(n)]
    } else {
        digits(n / 10).push(digit_char(n % 10))
    }
}

/// The `width` least significant decimal digits of `n`, with leading zeros.
pub open spec fn padded_digits(n: nat, width: nat) -> Seq<char>
    decreases width,
{
    if width == 0 {
        Seq::empty()
    } else {
        padded_digits(n / 10, (width - 1) as nat).push(digit_char(n % 10))
    }
}

/// Ten to the power `p`.
pub open spec fn pow10(p: nat) -> nat
    decreases p,
{
    if p == 0 {
        1
    } else {
        10 * pow10((p - 1) as nat)
    }
}

/// `n / d` rounded to the nearest integer, ties to the even neighbour.
pub open spec fn round_half_even(n: nat, d: nat) -> nat
    recommends
        d > 0,
{
    let q = n / d;
    let r = n % d;
    if 2 * r < d {
        q
    } else if 2 * r > d {
        q + 1
    } else if q % 2 == 0 {
        q
    } else {
        q + 1
    }
}

/// The text of `q / 10^p` with exactly `p` digits after the decimal point
/// (no point at all when `p` is zero).
pub open spec fn fixed_point(q: nat, p: nat) -> Seq<char> {
    if p == 0 {
        digits(q)
    } else {
        digits(q / pow10(p)) + seq!['.'] + padded_digits(q, p)
    }
}

/// A one-character string holding the digit `d`.
pub(crate) fn digit_str(d: u128) -> (s: &'static str)
    requires
        d < 10,
    ensures
        s@ == seq![digit_char(d as nat)],
{
    if d == 0 {
        proof { reveal_strlit("0"); }
        "0"
    } else if d == 1 {
        proof { reveal_strlit("1"); }
        "1"
    } else if d == 2 {
        proof { reveal_strlit("2"); }
        "2"
    } else if d == 3 {
        proof { reveal_strlit("3"); }
        "3"
    } else if d == 4 {
        proof { reveal_strlit("4"); }
        "4"
    } else if d == 5 {
        proof { reveal_strlit("5"); }
        "5"
    } else if d == 6 {
        proof { reveal_strlit("6"); }
        "6"
    } else if d == 7 {
        proof { reveal_strlit("7"); }
        "7"
    } else if d == 8 {
        proof { reveal_strlit("8"); }
        "8"
    } else {
        proof { reveal_strlit("9"); }
        "9"
    }
}

/// Appends the decimal digits of `n`.
fn push_digits(s: &mut String, n: u128)
    ensures
        final(s)@ == old(s)@ + digits(n as nat),
    decreases n,
{
    if n >= 10 {
        push_digits(s, n / 10);
    }
    s.append(digit_str(n % 10));
}

/// Appends the `width` least significant decimal digits of `n`, with leading zeros.
fn push_padded_digits(s: &mut String, n: u128, width: u32)
    ensures
        final(s)@ == old(s)@ + padded_digits(n as nat, width as nat),
    decreases width,
{
    if width > 0 {
        push_padded_digits(s, n / 10, width - 1);
        s.append(digit_str(n % 10));
    }
}

pub proof fn lemma_pow10_positive(p: nat)
    ensures
        pow10(p) >= 1,
    decreases p,
{
    if p > 0 {
        lemma_pow10_positive((p - 1) as nat);
    }
}

pub proof fn lemma_pow10_monotone(a: nat, b: nat)
    requires
        a <= b,
    ensures
        pow10(a) <= pow10(b),
    decreases b,
{
    if a < b {
        lemma_pow10_monotone(a, (b - 1) as nat);
        lemma_pow10_positive((b - 1) as nat);
    }
}

proof fn lemma_pow10_37()
    ensures
        pow10(37) == 10_000_000_000_000_000_000_000_000_000_000_000_000,
{
    reveal_with_fuel(pow10, 38);
}

/// Ten to the power `p`, for every `p` whose power fits in 128 bits.
pub fn pow10_u128(p: u32) -> (r: u128)
    requires
        p <= 38,
    ensures
        r == pow10(p as nat),
{
    let mut r: u128 = 1;
    let mut i: u32 = 0;
    while i < p
        invariant
            i <= p <= 38,
            r == pow10(i as nat),
        decreases p - i,
    {
        proof {
            lemma_pow10_monotone(i as nat, 37);
            lemma_pow10_37();
        }
        r = r * 10;
        i = i + 1;
    }
    r
}

/// `n / d` rounded to the nearest integer, ties to the even neighbour.
pub fn round_div(n: u128, d: u128) -> (q: u128)
    requires
        d > 0,
    ensures
        q == round_half_even(n as nat, d as nat),
{
    let q = n / d;
    let r = n % d;
    if d == 1 {
        return q;
    }
    assert(q < u128::MAX) by (nonlinear_arith)
        requires q == n / d, d >= 2;
    if r < d - r {
        q
    } else if r > d - r {
        q + 1
    } else if q % 2 == 0 {
        q
    } else {
        q + 1
    }
}

/// Appends the text of `q / 10^p` with exactly `p` digits after the decimal point.
pub fn push_fixed_point(s: &mut String, q: u128, p: u32)
    requires
        p <= 38,
    ensures
        final(s)@ == old(s)@ + fixed_point(q as nat, p as nat),
{
    let scale = pow10_u128(p);
    proof { lemma_pow10_positive(p as nat); }
    push_digits(s, q / scale);
    if p > 0 {
        proof { reveal_strlit("."); }
        s.append(".");
        push_padded_digits(s, q, p);
    }
    proof {
        if p > 0 {
            assert(s@ =~= old(s)@ + fixed_point(q as nat, p as nat));
        } else {
            assert(pow10(0) == 1);
            assert(q / scale == q) by (nonlinear_arith)
                requires scale == 1;
        }
    }
}

/// The value of a decimal digit character.
pub open spec fn digit_value(c: char) -> nat {
    if c == '1' { 1 }
    else if c == '2' { 2 }
    else if c == '3' { 3 }
    else if c == '4' { 4 }
    else if c == '5' { 5 }
    else if c == '6' { 6 }
    else if c == '7' { 7 }
    else if c == '8' { 8 }
    else if c == '9' { 9 }
    else { 0 }
}

/// The number a string of decimal digits denotes, most significant first.
pub open spec fn digits_value(s: Seq<char>) -> nat
    decreases s.len(),
{
    if s.len() == 0 {
        0
    } else {
        digits_value(s.drop_last()) * 10 + digit_value(s.last())
    }
}

proof fn lemma_digit_char_value(d: nat)
    requires
        d < 10,
    ensures
        digit_value(digit_char(d)) == d,
{
}

/// Reading the digits of `n` back gives `n`.
pub proof fn lemma_digits_read_back(n: nat)
    ensures
        digits_value(digits(n)) == n,
        digits(n).len() >= 1,
    decreases n,
{
    if n < 10 {
        lemma_digit_char_value(n);
        assert(seq![digit_char(n)].drop_last() =~= Seq::<char>::empty());
        assert(digits_value(Seq::<char>::empty()) == 0);
        assert(digits(n).last() == digit_char(n));
    } else {
        lemma_digits_read_back(n / 10);
        lemma_digit_char_value(n % 10);
        assert(digits(n).drop_last() =~= digits(n / 10));
        assert(digits(n).last() == digit_char(n % 10));
        assert(n == (n / 10) * 10 + n % 10);
    }
}

/// The `width` padded digits of `n` are `width` characters long and read back
/// as `n` modulo `10^width`.
pub proof fn lemma_padded_digits_read_back(n: nat, width: nat)
    ensures
        padded_digits(n, width).len() == width,
        digits_value(padded_digits(n, width)) == n % pow10(width),
    decreases width,
{
    if width > 0 {
        let w1 = (width - 1) as nat;
        lemma_padded_digits_read_back(n / 10, w1);
        lemma_digit_char_value(n % 10);
        assert(padded_digits(n, width).drop_last() =~= padded_digits(n / 10, w1));
        lemma_pow10_positive(w1);
        vstd::arithmetic::div_mod::lemma_breakdown(n as int, 10, pow10(w1) as int);
        assert(pow10(width) == 10 * pow10(w1));
        vstd::arithmetic::mul::lemma_mul_is_commutative(10, pow10(w1) as int);
    }
}

/// A fixed-point text with `p > 0` decimals is an integer part, a point and
/// exactly `p` fraction digits, and the two parts together spell `q`:
/// the text shows exactly `q / 10^p`.
pub proof fn lemma_fixed_point_read_back(q: nat, p: nat)
    requires
        p > 0,
    ensures
        ({
            let int_part = digits(q / pow10(p));
            let frac_part = padded_digits(q, p);
            &&& fixed_point(q, p) == int_part + seq!['.'] + frac_part
            &&& frac_part.len() == p
            &&& digits_value(int_part) * pow10(p) + digits_value(frac_part) == q
        }),
{
    lemma_pow10_positive(p);
    lemma_digits_read_back(q / pow10(p));
    lemma_padded_digits_read_back(q, p);
    vstd::arithmetic::div_mod::lemma_fundamental_div_mod(q as int, pow10(p) as int);
    vstd::arithmetic::mul::lemma_mul_is_commutative(pow10(p) as int, (q / pow10(p)) as int);
}

/// Rounding picks a nearest multiple: `q * d` is within `d / 2` of `n`, and an
/// exact tie goes to the even quotient.
pub proof fn lemma_round_half_even_nearest(n: nat, d: nat)
    requires
        d > 0,
    ensures
        2 * n <= (2 * round_half_even(n, d) + 1) * d,
        (2 * round_half_even(n, d)) * d <= 2 * n + d,
        2 * (n % d) == d ==> round_half_even(n, d) % 2 == 0,
{
    let q = n / d;
    let r = n % d;
    vstd::arithmetic::div_mod::lemma_fundamental_div_mod(n as int, d as int);
    vstd::arithmetic::div_mod::lemma_mod_bound(n as int, d as int);
    let rq = round_half_even(n, d);
    if rq == q {
        assert(2 * n <= (2 * q + 1) * d) by (nonlinear_arith)
            requires n == d * q + r, 2 * r <= d;
        assert((2 * q) * d <= 2 * n + d) by (nonlinear_arith)
            requires n == d * q + r, r >= 0;
    } else {
        assert(2 * n <= (2 * (q + 1) + 1) * d) by (nonlinear_arith)
            requires n == d * q + r, r < d;
        assert((2 * (q + 1)) * d <= 2 * n + d) by (nonlinear_arith)
            requires n == d * q + r, 2 * r >= d;
    }
}

/// A decimal digit character.
pub open spec fn is_digit(c: char) -> bool {
    c == '0' || c == '1' || c == '2' || c == '3' || c == '4' || c == '5' || c == '6' || c == '7'
        || c == '8' || c == '9'
}

/// The number spelled by the digits of `t`, read left to right, skipping any
/// other character (such as a decimal point).
pub open spec fn shown_value(t: Seq<char>) -> nat
    decreases t.len(),
{
    if t.len() == 0 {
        0
    } else if is_digit(t.last()) {
        shown_value(t.drop_last()) * 10 + digit_value(t.last())
    } else {
        shown_value(t.drop_last())
    }
}

/// `t` is a decimal number with `p` digits after the point: digits only, with
/// a point in front of the last `p` of them when `p > 0`, and at least one
/// digit before the point.
pub open spec fn has_decimal_shape(t: Seq<char>, p: nat) -> bool {
    &&& t.len() >= p + 1 + (if p > 0 { 1nat } else { 0nat })
    &&& forall|i: int|
        0 <= i < t.len() ==> if p > 0 && i == t.len() - p - 1 {
            #[trigger] t[i] == '.'
        } else {
            is_digit(t[i])
        }
}

/// `t`, a decimal number with `p` digits after the point, has no superfluous
/// leading zero: its whole part starts with a zero only when that zero is all
/// of it.
pub open spec fn no_leading_zero(t: Seq<char>, p: nat) -> bool {
    t.len() > p + (if p > 0 { 1nat } else { 0nat }) + 1 ==> t[0] != '0'
}

/// Every character is a digit.
pub open spec fn all_digits(t: Seq<char>) -> bool {
    forall|i: int| 0 <= i < t.len() ==> is_digit(#[trigger] t[i])
}

proof fn lemma_digits_all_digits(n: nat)
    ensures
        all_digits(digits(n)),
    decreases n,
{
    if n >= 10 {
        lemma_digits_all_digits(n / 10);
    }
}

proof fn lemma_padded_all_digits(n: nat, w: nat)
    ensures
        all_digits(padded_digits(n, w)),
    decreases w,
{
    if w > 0 {
        lemma_padded_all_digits(n / 10, (w - 1) as nat);
    }
}

proof fn lemma_shown_concat(a: Seq<char>, b: Seq<char>)
    requires
        all_digits(b),
    ensures
        shown_value(a + b) == shown_value(a) * pow10(b.len()) + digits_value(b),
    decreases b.len(),
{
    if b.len() == 0 {
        assert(a + b =~= a);
        assert(pow10(0) == 1);
        assert(digits_value(b) == 0);
    } else {
        let b1 = b.drop_last();
        assert(all_digits(b1)) by {
            assert forall|i: int| 0 <= i < b1.len() implies is_digit(#[trigger] b1[i]) by {
                assert(b1[i] == b[i]);
            }
        }
        assert((a + b).drop_last() =~= a + b1);
        assert((a + b).last() == b.last());
        assert(is_digit(b[b.len() - 1]));
        lemma_shown_concat(a, b1);
        let x = shown_value(a);
        assert(shown_value(a + b) == shown_value(a + b1) * 10 + digit_value(b.last()));
        assert(digits_value(b) == digits_value(b1) * 10 + digit_value(b.last()));
        let k = pow10(b1.len());
        assert(pow10(b.len()) == 10 * k);
        assert((x * k + digits_value(b1)) * 10 + digit_value(b.last()) == x * (10 * k) + (digits_value(b1) * 10
            + digit_value(b.last()))) by (nonlinear_arith);
    }
}

/// A whole number without a point, with no superfluous leading zero, that
/// reads as a single digit is that one digit.
pub proof fn lemma_one_digit(t: Seq<char>)
    requires
        has_decimal_shape(t, 0),
        no_leading_zero(t, 0),
        shown_value(t) < 10,
    ensures
        t == seq![digit_char(shown_value(t))],
{
    let e = Seq::<char>::empty();
    let a = t.subrange(0, 1);
    assert(is_digit(t[0]));
    assert(a.drop_last() =~= e);
    assert(shown_value(e) == 0);
    assert(shown_value(a) == digit_value(t[0]));
    if t.len() >= 2 {
        let b = t.subrange(1, t.len() as int);
        assert(all_digits(b)) by {
            assert forall|i: int| 0 <= i < b.len() implies is_digit(#[trigger] b[i]) by {
                assert(b[i] == t[i + 1]);
            }
        }
        assert(a + b =~= t);
        lemma_shown_concat(a, b);
        lemma_pow10_monotone(1, b.len());
        assert(pow10(1) == 10) by {
            reveal_with_fuel(pow10, 2);
        }
        assert(digit_value(t[0]) >= 1);
        assert(shown_value(a) * pow10(b.len()) >= 10) by (nonlinear_arith)
            requires
                shown_value(a) >= 1,
                pow10(b.len()) >= 10,
        ;
        assert(false);
    }
    assert(t =~= a);
    assert(t =~= seq![digit_char(shown_value(t))]);
}

proof fn lemma_digits_leading(n: nat)
    ensures
        digits(n).len() > 1 ==> n >= 10,
        n >= 1 ==> digits(n)[0] != '0',
    decreases n,
{
    lemma_digits_read_back(n);
    if n >= 10 {
        lemma_digits_leading(n / 10);
        lemma_digits_read_back(n / 10);
        assert(digits(n)[0] == digits(n / 10)[0]);
    }
}

/// The text of `q / 10^p` has the shape of a decimal number with `p` digits
/// after the point, no superfluous leading zero, and its digits spell `q`.
pub proof fn lemma_fixed_point_shown(q: nat, p: nat)
    ensures
        has_decimal_shape(fixed_point(q, p), p),
        no_leading_zero(fixed_point(q, p), p),
        shown_value(fixed_point(q, p)) == q,
{
    lemma_digits_read_back(q);
    lemma_digits_leading(q);
    lemma_pow10_positive(p);
    lemma_digits_leading(q / pow10(p));
    let e = Seq::<char>::empty();
    if p == 0 {
        lemma_digits_all_digits(q);
        assert(e + digits(q) =~= digits(q));
        lemma_shown_concat(e, digits(q));
        assert(shown_value(e) == 0);
        assert(fixed_point(q, p) == digits(q));
        assert(0 * pow10(digits(q).len()) == 0);
    } else {
        let int_part = digits(q / pow10(p));
        let frac = padded_digits(q, p);
        lemma_fixed_point_read_back(q, p);
        lemma_digits_all_digits(q / pow10(p));
        lemma_digits_read_back(q / pow10(p));
        lemma_padded_all_digits(q, p);
        assert(e + int_part =~= int_part);
        lemma_shown_concat(e, int_part);
        assert(shown_value(e) == 0);
        let with_point = int_part + seq!['.'];
        assert(with_point.drop_last() =~= int_part);
        assert(!is_digit(with_point.last()));
        lemma_shown_concat(with_point, frac);
        assert(shown_value(int_part) == 0 * pow10(int_part.len()) + digits_value(int_part));
        assert(0 * pow10(int_part.len()) == 0);
        assert(shown_value(int_part) == digits_value(int_part));
        assert(shown_value(with_point) == shown_value(int_part));
        assert(frac.len() == p);
        assert(shown_value(with_point + frac) == shown_value(with_point) * pow10(p) + digits_value(frac));
        assert(digits_value(int_part) == q / pow10(p));
        assert(digits_value(int_part) * pow10(p) + digits_value(frac) == q);
        assert(shown_value(with_point + frac) == q);
        let t = fixed_point(q, p);
        assert(t =~= with_point + frac);
        assert(t[0] == int_part[0]);
        assert forall|i: int| 0 <= i < t.len() implies if p > 0 && i == t.len() - p - 1 {
            #[trigger] t[i] == '.'
        } else {
            is_digit(t[i])
        } by {
            if i < int_part.len() {
                assert(t[i] == int_part[i]);
            } else if i > int_part.len() {
                assert(t[i] == frac[i - int_part.len() - 1]);
            }
        }
    }
}

} // verus!
