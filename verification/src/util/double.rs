//! Double-precision floating-point numbers, held as their 64-bit patterns and
//! reasoned about exactly: rounding to the nearest double and decimal text.

use vstd::prelude::*;

use crate::util::decimal::{
    has_decimal_shape, lemma_fixed_point_shown, lemma_round_half_even_nearest, no_leading_zero,
    shown_value,
    digit_char, digit_str, digits, fixed_point, lemma_pow10_monotone,
    lemma_pow10_positive, padded_digits, pow10, pow10_u128,
    push_fixed_point, round_div, round_half_even,
};

verus! {

/// Two to the power `e`.
pub open spec fn pow2(e: nat) -> nat
    decreases e,
{
    if e == 0 {
        1
    } else {
        2 * pow2((e - 1) as nat)
    }
}

/// The largest power of two below which every whole number has an exact
/// double-precision value (the width of its significand).
pub open spec fn significand_limit() -> nat {
    9_007_199_254_740_992
}

/// The number of low-order bits of `n` that do not fit in a double's significand.
pub open spec fn dropped_bits(n: nat) -> nat
    decreases n,
{
    if n < significand_limit() {
        0
    } else {
        1 + dropped_bits(n / 2)
    }
}

pub proof fn lemma_pow2_positive(e: nat)
    ensures
        pow2(e) >= 1,
    decreases e,
{
    if e > 0 {
        lemma_pow2_positive((e - 1) as nat);
    }
}

pub proof fn lemma_pow2_add(a: nat, b: nat)
    ensures
        pow2(a + b) == pow2(a) * pow2(b),
    decreases a,
{
    if a > 0 {
        let a1 = (a - 1) as nat;
        lemma_pow2_add(a1, b);
        assert(((a + b) - 1) as nat == a1 + b);
        assert(pow2(a + b) == 2 * pow2(a1 + b));
        assert(pow2(a) == 2 * pow2(a1));
        let x = pow2(a1);
        let y = pow2(b);
        assert(2 * (x * y) == (2 * x) * y) by (nonlinear_arith);
    } else {
        assert(pow2(0) == 1);
        assert(a + b == b);
    }
}

pub proof fn lemma_pow2_monotone(a: nat, b: nat)
    requires
        a <= b,
    ensures
        pow2(a) <= pow2(b),
{
    lemma_pow2_add(a, (b - a) as nat);
    lemma_pow2_positive((b - a) as nat);
    lemma_pow2_positive(a);
    vstd::arithmetic::mul::lemma_mul_inequality(1, pow2((b - a) as nat) as int, pow2(a) as int);
}

proof fn lemma_div_mul_bound(b: int, scale: int, q: int)
    requires
        0 <= b,
        1 <= scale,
        0 <= q <= b / scale + 1,
    ensures
        q * scale <= b + scale,
        (b / scale) * scale <= b,
{
    vstd::arithmetic::div_mod::lemma_fundamental_div_mod(b, scale);
    vstd::arithmetic::mul::lemma_mul_inequality(q, b / scale + 1, scale);
    vstd::arithmetic::mul::lemma_mul_is_distributive_add_other_way(scale, b / scale, 1);
    vstd::arithmetic::mul::lemma_mul_is_commutative(scale, b / scale);
}

/// Rounds `n` to a double's 53-bit significand, ties to even: returns the
/// rounded significand `r` and the number `s` of dropped bits, so that the
/// nearest double to `n` is `r * 2^s`.
pub fn round_significand(n: u128) -> (r: (u128, u32))
    requires
        n < 0x100_0000_0000_0000_0000_0000_0000_0000,
    ensures
        r.1 == dropped_bits(n as nat),
        r.0 == round_half_even(n as nat, pow2(r.1 as nat)),
        r.0 <= significand_limit(),
        r.1 > 0 ==> r.0 >= significand_limit() / 2,
        r.1 == 0 ==> r.0 == n,
        r.1 <= 68,
{
    let mut rest: u128 = n;
    let mut scale: u128 = 1;
    let mut s: u32 = 0;
    while rest >= 9_007_199_254_740_992
        invariant
            n < 0x100_0000_0000_0000_0000_0000_0000_0000,
            scale == pow2(s as nat),
            rest as int == n as int / scale as int,
            dropped_bits(n as nat) == s + dropped_bits(rest as nat),
            1 <= scale <= 0x20_0000_0000_0000_0000,
            s <= 68,
            s > 0 ==> rest >= 4_503_599_627_370_496,
        decreases rest,
    {
        proof {
            lemma_div_mul_bound(n as int, scale as int, 0);
            assert(scale * 9_007_199_254_740_992 <= (n as int / scale as int) * scale) by (nonlinear_arith)
                requires
                    n as int / scale as int >= 9_007_199_254_740_992,
                    scale >= 1,
            ;
            assert(scale * 9_007_199_254_740_992 <= n);
            assert(scale < 0x10_0000_0000_0000_0000) by (nonlinear_arith)
                requires
                    scale * 9_007_199_254_740_992 <= n,
                    n < 0x100_0000_0000_0000_0000_0000_0000_0000,
            ;
            vstd::arithmetic::div_mod::lemma_div_denominator(n as int, scale as int, 2);
            assert(s < 68) by {
                if s >= 68 {
                    lemma_pow2_monotone(68, s as nat);
                    lemma_pow2_values();
                    lemma_pow2_add(63, 5);
                    assert(pow2(5) == 32) by {
                        reveal_with_fuel(pow2, 6);
                    }
                }
            }
        }
        rest = rest / 2;
        scale = scale * 2;
        s = s + 1;
    }
    proof {
        lemma_pow2_positive(s as nat);
    }
    let q = round_div(n, scale);
    proof {
        assert(q <= n as int / scale as int + 1);
        assert(q >= n as int / scale as int);
        if s == 0 {
            assert(n / 1 == n);
            assert(n % 1 == 0);
        }
    }
    (q, s)
}

/// The magnitude of `m * 2^e`, counted in units of `2^-1074` (the spacing of
/// the smallest doubles), for exponents `e >= -1074`.
pub open spec fn value_units(m: nat, e: int) -> nat {
    m * pow2((e + 1074) as nat)
}

/// A double-precision floating-point number, held as its IEEE 754 bit pattern.
#[derive(Debug, Default, Clone, Copy, PartialEq, Eq, Structural)]
pub struct Float64 {
    pub bits: u64,
}

/// A time span in seconds.
pub type Second = Float64;

impl Float64 {
    /// The number with the bit pattern `bits`.
    pub fn from_bits(bits: u64) -> (x: Self)
        ensures
            x.bits == bits,
    {
        Float64 { bits }
    }

    /// The sign bit is set (this includes negative zero).
    pub open spec fn negative(self) -> bool {
        self.bits >= 0x8000_0000_0000_0000
    }

    /// The 11-bit exponent field.
    pub open spec fn biased_exponent(self) -> nat {
        ((self.bits as nat / 4_503_599_627_370_496) % 2048) as nat
    }

    /// The 52-bit fraction field.
    pub open spec fn fraction(self) -> nat {
        (self.bits as nat % 4_503_599_627_370_496) as nat
    }

    pub open spec fn is_nan(self) -> bool {
        self.biased_exponent() == 2047 && self.fraction() != 0
    }

    pub open spec fn is_infinite(self) -> bool {
        self.biased_exponent() == 2047 && self.fraction() == 0
    }

    /// The significand of a finite number, with its hidden bit.
    pub open spec fn significand(self) -> nat {
        if self.biased_exponent() == 0 {
            self.fraction()
        } else {
            self.fraction() + 4_503_599_627_370_496
        }
    }

    /// The power of two that scales the significand of a finite number.
    pub open spec fn exponent(self) -> int {
        if self.biased_exponent() == 0 {
            -1074
        } else {
            self.biased_exponent() - 1075
        }
    }

    /// The magnitude of a finite number in units of `2^-1074`.
    pub open spec fn units(self) -> nat {
        value_units(self.significand(), self.exponent())
    }

    /// The exact value of a finite number, in units of `2^-1074`, with its sign.
    pub open spec fn signed_units(self) -> int {
        if self.negative() {
            -(self.units() as int)
        } else {
            self.units() as int
        }
    }
}

/// `x < y` as floating-point numbers compare: never with a NaN, infinities
/// beyond every finite number, and otherwise by exact value.
pub open spec fn less_than(x: Float64, y: Float64) -> bool {
    if x.is_nan() || y.is_nan() {
        false
    } else if x.is_infinite() || y.is_infinite() {
        (x.is_infinite() && x.negative() && !(y.is_infinite() && y.negative())) || (y.is_infinite()
            && !y.negative() && !(x.is_infinite() && !x.negative()))
    } else {
        x.signed_units() < y.signed_units()
    }
}

pub proof fn lemma_fields(x: Float64)
    ensures
        !x.negative() ==> x.bits as nat == x.biased_exponent() * 4_503_599_627_370_496 + x.fraction(),
        !x.negative() ==> x.biased_exponent() == x.bits as nat / 4_503_599_627_370_496,
        x.fraction() < 4_503_599_627_370_496,
        x.biased_exponent() < 2048,
        !x.is_nan() && !x.is_infinite() ==> x.units() == x.significand() * pow2(
            (if x.biased_exponent() == 0 { 0 } else { x.biased_exponent() - 1 }) as nat,
        ),
        x.significand() < 9_007_199_254_740_992,
{
    let b = x.bits as nat;
    vstd::arithmetic::div_mod::lemma_fundamental_div_mod(b as int, 4_503_599_627_370_496);
    if !x.negative() {
        assert(b / 4_503_599_627_370_496 < 2048);
    }
}

proof fn lemma_units_monotone(a: Float64, b: Float64)
    requires
        !a.negative(),
        !b.negative(),
        a.biased_exponent() < 2047,
        b.biased_exponent() < 2047,
        a.bits < b.bits,
    ensures
        a.units() < b.units(),
{
    lemma_fields(a);
    lemma_fields(b);
    let ea = a.biased_exponent();
    let eb = b.biased_exponent();
    vstd::arithmetic::div_mod::lemma_div_is_ordered(a.bits as int, b.bits as int, 4_503_599_627_370_496);
    let two52: nat = 4_503_599_627_370_496;
    if ea == eb {
        let k: nat = (if ea == 0 { 0 } else { ea - 1 }) as nat;
        lemma_pow2_positive(k);
        assert(a.fraction() < b.fraction());
        assert(a.significand() < b.significand());
        vstd::arithmetic::mul::lemma_mul_strict_inequality(
            a.significand() as int,
            b.significand() as int,
            pow2(k) as int,
        );
    } else {
        let kb: nat = (eb - 1) as nat;
        lemma_pow2_positive(kb);
        assert(b.units() >= two52 * pow2(kb)) by (nonlinear_arith)
            requires
                b.units() == b.significand() * pow2(kb),
                b.significand() >= two52,
        ;
        if ea == 0 {
            assert(two52 * 1 <= two52 * pow2(kb)) by (nonlinear_arith)
                requires pow2(kb) >= 1;
            assert(pow2(0) == 1);
            assert(a.units() == a.fraction() * 1);
            assert(a.units() < two52);
        } else {
            let ka: nat = (ea - 1) as nat;
            lemma_pow2_positive(ka);
            assert(ea < eb);
            lemma_pow2_monotone(ka + 1, kb);
            assert(pow2(ka + 1) == 2 * pow2(ka));
            assert(a.units() < 2 * two52 * pow2(ka)) by (nonlinear_arith)
                requires
                    a.units() == a.significand() * pow2(ka),
                    a.significand() < 2 * two52,
                    pow2(ka) >= 1,
            ;
            assert(2 * two52 * pow2(ka) <= two52 * pow2(kb)) by (nonlinear_arith)
                requires
                    2 * pow2(ka) <= pow2(kb),
            ;
        }
    }
}

/// `x < c` for a positive finite constant `c`.
pub fn less_than_positive(x: Float64, c: Float64) -> (r: bool)
    requires
        !c.negative(),
        !c.is_nan(),
        !c.is_infinite(),
        c.units() > 0,
    ensures
        r == less_than(x, c),
{
    let biased = (x.bits / 4_503_599_627_370_496) % 2048;
    let fraction = x.bits % 4_503_599_627_370_496;
    if biased == 2047 && fraction != 0 {
        false
    } else if x.bits >= 0x8000_0000_0000_0000 {
        true
    } else {
        proof {
            lemma_fields(x);
            lemma_fields(c);
            if x.is_infinite() {
                assert(x.bits as nat >= 2047 * 4_503_599_627_370_496);
                assert((c.bits as nat) < 2047 * 4_503_599_627_370_496);
            } else if x.bits < c.bits {
                lemma_units_monotone(x, c);
            } else if x.bits > c.bits {
                lemma_units_monotone(c, x);
            }
        }
        x.bits < c.bits
    }
}

proof fn lemma_round_exact(n: nat, d: nat)
    requires
        d > 0,
        n % d == 0,
    ensures
        round_half_even(n, d) == n / d,
{
}

proof fn lemma_round_zero(n: nat, d: nat)
    requires
        2 * n < d,
    ensures
        round_half_even(n, d) == 0,
{
    vstd::arithmetic::div_mod::lemma_fundamental_div_mod_converse(n as int, d as int, 0, n as int);
}

/// Scaling both the number and the divisor by `k` does not change the rounding.
proof fn lemma_round_scale(a: nat, b: nat, k: nat)
    requires
        b > 0,
        k > 0,
    ensures
        round_half_even(a * k, b * k) == round_half_even(a, b),
{
    let q = a / b;
    let r = a % b;
    vstd::arithmetic::div_mod::lemma_fundamental_div_mod(a as int, b as int);
    assert(a * k == q * (b * k) + r * k) by (nonlinear_arith)
        requires a == b * q + r;
    assert(r * k < b * k) by (nonlinear_arith)
        requires r < b, k > 0;
    assert(0 <= r * k) by (nonlinear_arith)
        requires r >= 0, k > 0;
    vstd::arithmetic::div_mod::lemma_fundamental_div_mod_converse(
        (a * k) as int,
        (b * k) as int,
        q as int,
        (r * k) as int,
    );
    assert(2 * (r * k) < b * k <==> 2 * r < b) by (nonlinear_arith)
        requires k > 0;
    assert(2 * (r * k) > b * k <==> 2 * r > b) by (nonlinear_arith)
        requires k > 0;
}

/// `p` zero digits.
pub open spec fn zeros(p: nat) -> Seq<char> {
    Seq::new(p, |i: int| '0')
}

proof fn lemma_padded_zeros(x: nat, p: nat)
    ensures
        padded_digits(x * pow10(p), p) == zeros(p),
    decreases p,
{
    if p > 0 {
        let p1 = (p - 1) as nat;
        lemma_padded_zeros(x, p1);
        let y = x * pow10(p1);
        assert(x * pow10(p) == y * 10) by (nonlinear_arith)
            requires pow10(p) == 10 * pow10(p1), y == x * pow10(p1);
        vstd::arithmetic::div_mod::lemma_fundamental_div_mod_converse((y * 10) as int, 10, y as int, 0);
        assert(zeros(p) =~= zeros(p1).push('0'));
    } else {
        assert(zeros(0) =~= Seq::<char>::empty());
    }
}

/// The text of a whole number `x` shown with `p` decimals: its digits, then a
/// point and `p` zeros when `p > 0`.
proof fn lemma_fixed_point_whole(x: nat, p: nat)
    ensures
        fixed_point(x * pow10(p), p) == if p == 0 {
            digits(x)
        } else {
            digits(x) + seq!['.'] + zeros(p)
        },
{
    lemma_pow10_positive(p);
    if p == 0 {
        assert(x * 1 == x);
    } else {
        lemma_padded_zeros(x, p);
        vstd::arithmetic::mul::lemma_mul_is_commutative(x as int, pow10(p) as int);
        vstd::arithmetic::div_mod::lemma_div_multiples_vanish(x as int, pow10(p) as int);
    }
}

/// The value of a little-endian sequence of decimal digits.
pub open spec fn le_value(s: Seq<u8>) -> nat
    decreases s.len(),
{
    if s.len() == 0 {
        0
    } else {
        (s[0] + 10 * le_value(s.subrange(1, s.len() as int))) as nat
    }
}

/// A little-endian digit sequence without leading zeros (zero is one digit).
pub open spec fn le_wf(s: Seq<u8>) -> bool {
    &&& s.len() >= 1
    &&& forall|i: int| 0 <= i < s.len() ==> #[trigger] s[i] < 10
    &&& s.len() > 1 ==> s.last() != 0
}

/// The characters of a little-endian digit sequence, most significant first.
pub open spec fn le_text(s: Seq<u8>) -> Seq<char>
    decreases s.len(),
{
    if s.len() == 0 {
        Seq::empty()
    } else {
        le_text(s.subrange(1, s.len() as int)).push(digit_char(s[0] as nat))
    }
}

proof fn lemma_le_positive(s: Seq<u8>)
    requires
        s.len() >= 1,
        s.last() != 0,
    ensures
        le_value(s) >= 1,
    decreases s.len(),
{
    if s.len() > 1 {
        let rest = s.subrange(1, s.len() as int);
        assert(rest.last() == s.last());
        lemma_le_positive(rest);
    }
}

proof fn lemma_le_text(s: Seq<u8>)
    requires
        le_wf(s),
    ensures
        le_text(s) == digits(le_value(s)),
    decreases s.len(),
{
    let rest = s.subrange(1, s.len() as int);
    assert(s[0] < 10);
    if s.len() == 1 {
        assert(rest =~= Seq::<u8>::empty());
        assert(le_text(rest) =~= Seq::<char>::empty());
        assert(le_text(s) =~= seq![digit_char(s[0] as nat)]);
        assert(le_value(rest) == 0);
        assert(le_value(s) == s[0]);
    } else {
        assert(rest.last() == s.last());
        assert forall|i: int| 0 <= i < rest.len() implies #[trigger] rest[i] < 10 by {
            assert(rest[i] == s[i + 1]);
        }
        lemma_le_text(rest);
        lemma_le_positive(rest);
        let n = le_value(s);
        assert(n >= 10);
        assert(n / 10 == le_value(rest));
        assert(n % 10 == s[0]);
    }
}

/// Doubles the digits from position `i` on, adding `carry` there.
fn double_from(v: &mut Vec<u8>, i: usize, carry: u8)
    requires
        i <= old(v)@.len(),
        carry <= 1,
        forall|k: int| 0 <= k < old(v)@.len() ==> #[trigger] old(v)@[k] < 10,
        old(v)@.len() < usize::MAX,
    ensures
        final(v)@.subrange(0, i as int) == old(v)@.subrange(0, i as int),
        le_value(final(v)@.subrange(i as int, final(v)@.len() as int)) == 2 * le_value(
            old(v)@.subrange(i as int, old(v)@.len() as int),
        ) + carry,
        forall|k: int| 0 <= k < final(v)@.len() ==> #[trigger] final(v)@[k] < 10,
        final(v)@.len() == old(v)@.len() || (final(v)@.len() == old(v)@.len() + 1 && final(v)@.last() == 1),
        (final(v)@.len() == old(v)@.len() && i < old(v)@.len() && old(v)@.last() != 0) ==> final(v)@.last() != 0,
    decreases old(v)@.len() - i,
{
    let len = v.len();
    if i == len {
        if carry > 0 {
            v.push(carry);
            proof {
                let t = v@.subrange(i as int, v@.len() as int);
                assert(t =~= seq![carry]);
                assert(t.subrange(1, 1) =~= Seq::<u8>::empty());
                assert(le_value(t.subrange(1, 1)) == 0);
                assert(le_value(t) == carry);
                assert(old(v)@.subrange(i as int, i as int) =~= Seq::<u8>::empty());
                assert(le_value(old(v)@.subrange(i as int, i as int)) == 0);
                assert(v@.subrange(0, i as int) =~= old(v)@.subrange(0, i as int));
            }
        } else {
            proof {
                assert(v@.subrange(i as int, len as int) =~= Seq::<u8>::empty());
                assert(le_value(v@.subrange(i as int, len as int)) == 0);
            }
        }
    } else {
        let d = v[i];
        let t = 2 * d + carry;
        let ghost before = v@;
        v.set(i, t % 10);
        let ghost mid = v@;
        double_from(v, i + 1, t / 10);
        proof {
            let ob = before.subrange(i as int, len as int);
            assert(ob.subrange(1, ob.len() as int) =~= before.subrange(i + 1, len as int));
            assert(mid.subrange(i + 1, len as int) =~= before.subrange(i + 1, len as int));
            let fb = v@.subrange(i as int, v@.len() as int);
            assert(fb.subrange(1, fb.len() as int) =~= v@.subrange(i + 1, v@.len() as int));
            assert(v@.subrange(0, i + 1)[i as int] == mid[i as int]);
            assert(v@[i as int] == t % 10);
            assert(fb[0] == t % 10);
            let l_old = le_value(before.subrange(i + 1, len as int));
            let l_new = le_value(v@.subrange(i + 1, v@.len() as int));
            assert(l_new == 2 * l_old + t / 10);
            assert(le_value(fb) == fb[0] + 10 * l_new);
            assert(le_value(ob) == ob[0] + 10 * l_old);
            assert(ob[0] == d);
            assert(v@.subrange(0, i as int) =~= v@.subrange(0, i + 1).subrange(0, i as int));
            assert(mid.subrange(0, i as int) =~= mid.subrange(0, i + 1).subrange(0, i as int));
            assert(mid.subrange(0, i as int) =~= before.subrange(0, i as int));
            if i + 1 == len && v@.len() == len {
                assert(v@.last() == t % 10);
                assert(t / 10 == 0);
            }
        }
    }
}

/// Doubles a little-endian decimal number in place.
fn double_digits(v: &mut Vec<u8>)
    requires
        le_wf(old(v)@),
        old(v)@.len() < usize::MAX - 1,
    ensures
        le_wf(final(v)@),
        le_value(final(v)@) == 2 * le_value(old(v)@),
        final(v)@.len() <= old(v)@.len() + 1,
{
    double_from(v, 0, 0);
    proof {
        assert(v@.subrange(0, v@.len() as int) =~= v@);
        assert(old(v)@.subrange(0, old(v)@.len() as int) =~= old(v)@);
    }
}

/// Appends the digits of `v[i..]`, most significant first.
fn push_le_text(s: &mut String, v: &Vec<u8>, i: usize)
    requires
        i <= v@.len(),
        forall|k: int| 0 <= k < v@.len() ==> #[trigger] v@[k] < 10,
    ensures
        final(s)@ == old(s)@ + le_text(v@.subrange(i as int, v@.len() as int)),
    decreases v@.len() - i,
{
    if i < v.len() {
        push_le_text(s, v, i + 1);
        s.append(digit_str(v[i] as u128));
        proof {
            let t = v@.subrange(i as int, v@.len() as int);
            assert(t.subrange(1, t.len() as int) =~= v@.subrange(i + 1, v@.len() as int));
        }
    } else {
        proof {
            assert(v@.subrange(i as int, v@.len() as int) =~= Seq::<u8>::empty());
        }
    }
}

pub proof fn lemma_pow2_values()
    ensures
        pow2(51) == 2_251_799_813_685_248,
        pow2(52) == 4_503_599_627_370_496,
        pow2(53) == 9_007_199_254_740_992,
        pow2(63) == 0x8000_0000_0000_0000,
        pow2(126) == 0x4000_0000_0000_0000_0000_0000_0000_0000,
{
    reveal_with_fuel(pow2, 14);
    assert(pow2(13) == 8192);
    assert(pow2(11) == 2048);
    lemma_pow2_add(13, 13);
    assert(pow2(26) == 67_108_864);
    lemma_pow2_add(26, 26);
    assert(pow2(52) == 4_503_599_627_370_496);
    assert(pow2(53) == 2 * pow2(52));
    lemma_pow2_add(52, 11);
    assert(pow2(63) == 0x8000_0000_0000_0000);
    lemma_pow2_add(63, 63);
}

proof fn lemma_pow10_values()
    ensures
        pow10(16) == 10_000_000_000_000_000,
        pow10(20) == 100_000_000_000_000_000_000,
{
    reveal_with_fuel(pow10, 21);
}

/// Two to the power `k`, for every `k` whose power fits in 128 bits.
pub(crate) fn pow2_u128(k: u32) -> (r: u128)
    requires
        k <= 127,
    ensures
        r == pow2(k as nat),
{
    let mut r: u128 = 1;
    let mut i: u32 = 0;
    while i < k
        invariant
            i <= k <= 127,
            r == pow2(i as nat),
        decreases k - i,
    {
        proof {
            lemma_pow2_monotone(i as nat, 126);
            lemma_pow2_values();
        }
        r = r * 2;
        i = i + 1;
    }
    r
}

/// The little-endian decimal digits of `n`, with at most `bound` digits when
/// `n < 10^bound`.
fn le_digits_bounded(n: u128, Ghost(bound): Ghost<nat>) -> (v: Vec<u8>)
    requires
        bound >= 1,
        n < pow10(bound),
    ensures
        le_wf(v@),
        le_value(v@) == n,
        v@.len() <= bound,
    decreases n,
{
    if n < 10 {
        let v = vec![n as u8];
        proof {
            assert(v@.subrange(1, 1) =~= Seq::<u8>::empty());
            assert(le_value(v@.subrange(1, 1)) == 0);
            assert(v@[0] == n);
        }
        v
    } else {
        let ghost b1 = (bound - 1) as nat;
        proof {
            if bound == 1 {
                assert(pow10(1) == 10);
            }
            assert(pow10(bound) == 10 * pow10(b1));
            vstd::arithmetic::div_mod::lemma_div_by_multiple_is_strongly_ordered(
                n as int, (pow10(b1) * 10) as int, pow10(b1) as int, 10);
            vstd::arithmetic::div_mod::lemma_div_multiples_vanish(pow10(b1) as int, 10);
        }
        let mut v = le_digits_bounded(n / 10, Ghost(b1));
        let ghost old_v = v@;
        v.insert(0, (n % 10) as u8);
        proof {
            assert(v@.subrange(1, v@.len() as int) =~= old_v);
            assert(v@.last() == old_v.last());
            assert(le_value(v@) == v@[0] + 10 * le_value(old_v));
            if old_v.len() == 1 {
                assert(old_v.subrange(1, 1) =~= Seq::<u8>::empty());
                assert(le_value(old_v.subrange(1, 1)) == 0);
                assert(old_v[0] == n / 10);
            }
        }
        v
    }
}

/// The text of the finite number `m * 2^e` rounded to `p` decimals, ties to even.
pub open spec fn finite_text(m: nat, e: int, p: nat) -> Seq<char> {
    fixed_point(round_half_even(value_units(m, e) * pow10(p), pow2(1074)), p)
}

/// Appends the text of `r * 2^e` with `p` decimals.
fn push_finite(s: &mut String, r: u128, e: i32, p: u32)
    requires
        r <= 9_007_199_254_740_992,
        -1074 <= e <= 1100,
        p <= 20,
    ensures
        final(s)@ == old(s)@ + finite_text(r as nat, e as int, p as nat),
{
    let ghost units = value_units(r as nat, e as int);
    if e >= 0 {
        proof {
            lemma_pow10_values();
        }
        let mut v = le_digits_bounded(r, Ghost(16));
        let mut k: i32 = 0;
        while k < e
            invariant
                0 <= k <= e <= 1100,
                le_wf(v@),
                le_value(v@) == r * pow2(k as nat),
                v@.len() <= 16 + k,
            decreases e - k,
        {
            double_digits(&mut v);
            proof {
                assert(pow2((k + 1) as nat) == 2 * pow2(k as nat));
                assert(r * pow2((k + 1) as nat) == 2 * (r * pow2(k as nat))) by (nonlinear_arith)
                    requires pow2((k + 1) as nat) == 2 * pow2(k as nat);
            }
            k = k + 1;
        }
        push_le_text(s, &v, 0);
        let ghost x: nat = (r * pow2(e as nat)) as nat;
        proof {
            assert(v@.subrange(0, v@.len() as int) =~= v@);
            lemma_le_text(v@);
        }
        if p > 0 {
            proof { reveal_strlit("."); }
            s.append(".");
            let mut i: u32 = 0;
            while i < p
                invariant
                    i <= p,
                    s@ == old(s)@ + digits(x) + seq!['.'] + zeros(i as nat),
                decreases p - i,
            {
                proof { reveal_strlit("0"); }
                s.append("0");
                proof {
                    assert(zeros((i + 1) as nat) =~= zeros(i as nat).push('0'));
                }
                i = i + 1;
            }
        }
        proof {
            if p == 0 {
                assert(s@ =~= old(s)@ + digits(x));
            }
            lemma_pow2_add(e as nat, 1074);
            lemma_pow2_positive(1074);
            lemma_pow10_positive(p as nat);
            let n = units * pow10(p as nat);
            assert(n == (x * pow10(p as nat)) * pow2(1074)) by (nonlinear_arith)
                requires
                    units == r * pow2((e + 1074) as nat),
                    pow2((e + 1074) as nat) == pow2(e as nat) * pow2(1074),
                    x == r * pow2(e as nat),
                    n == units * pow10(p as nat),
            ;
            vstd::arithmetic::div_mod::lemma_fundamental_div_mod_converse(
                n as int, pow2(1074) as int, (x * pow10(p as nat)) as int, 0);
            lemma_round_exact(n, pow2(1074));
            lemma_fixed_point_whole(x, p as nat);
        }
    } else {
        let k: u32 = (-e) as u32;
        let q: u128 = if k <= 127 {
            let den = pow2_u128(k);
            proof {
                lemma_pow10_values();
                lemma_pow10_monotone(p as nat, 20);
                assert(r * pow10(p as nat) <= 9_007_199_254_740_992 * 100_000_000_000_000_000_000) by (nonlinear_arith)
                    requires r <= 9_007_199_254_740_992, pow10(p as nat) <= 100_000_000_000_000_000_000;
                lemma_pow2_positive(k as nat);
            }
            let num = r * pow10_u128(p);
            let q = round_div(num, den);
            proof {
                let rest = (e + 1074) as nat;
                lemma_pow2_add(k as nat, rest);
                assert(k + rest == 1074);
                lemma_pow2_positive(rest);
                lemma_round_scale(num as nat, den as nat, pow2(rest));
                assert(units * pow10(p as nat) == num * pow2(rest)) by (nonlinear_arith)
                    requires
                        units == r * pow2(rest),
                        num == r * pow10(p as nat),
                ;
            }
            q
        } else {
            proof {
                let rest = (e + 1074) as nat;
                lemma_pow2_add(k as nat, rest);
                lemma_pow2_monotone(127, k as nat);
                lemma_pow2_values();
                lemma_pow10_values();
                lemma_pow10_monotone(p as nat, 20);
                assert(pow2(127) == 2 * pow2(126));
                lemma_pow2_positive(rest);
                let n = units * pow10(p as nat);
                assert(2 * n < pow2(1074)) by (nonlinear_arith)
                    requires
                        units == r * pow2(rest),
                        n == units * pow10(p as nat),
                        r <= 9_007_199_254_740_992,
                        pow10(p as nat) <= 100_000_000_000_000_000_000,
                        pow2(1074) == pow2(k as nat) * pow2(rest),
                        pow2(k as nat) >= 0x8000_0000_0000_0000_0000_0000_0000_0000,
                        pow2(rest) >= 1,
                ;
                lemma_pow2_positive(rest);
                lemma_round_zero(n, pow2(1074));
            }
            0
        };
        push_fixed_point(s, q, p);
    }
}

/// The magnitude at which doubles overflow to infinity, `2^1024`, in units.
pub open spec fn overflow_units() -> nat {
    pow2(2098)
}

/// The text of `x * factor` computed in double precision (the exact product
/// rounded to the nearest double, ties to even, infinite from `2^1024` on),
/// shown with `p` decimals: "NaN", "inf" or "-inf" where floating point gives
/// those, and a minus sign on every negative number, zero included.
pub open spec fn product_text(x: Float64, factor: nat, p: nat) -> Seq<char> {
    if x.is_nan() {
        seq!['N', 'a', 'N']
    } else {
        let sign = if x.negative() { seq!['-'] } else { Seq::<char>::empty() };
        let n = x.significand() * factor;
        let d = dropped_bits(n);
        let r = round_half_even(n, pow2(d));
        let e = x.exponent() + d;
        if x.is_infinite() || value_units(r, e) >= overflow_units() {
            sign + seq!['i', 'n', 'f']
        } else {
            sign + finite_text(r, e, p)
        }
    }
}

/// Whether `r * 2^e` overflows, for a significand rounded by `round_significand`.
proof fn lemma_overflow(r: nat, e: int, d: nat)
    requires
        -1074 <= e,
        r <= 9_007_199_254_740_992,
        d > 0 ==> r >= 4_503_599_627_370_496,
        d == 0 ==> r < 9_007_199_254_740_992 && e <= 971,
    ensures
        (value_units(r, e) >= overflow_units()) == if d == 0 {
            false
        } else if r == 9_007_199_254_740_992 {
            e >= 971
        } else {
            e >= 972
        },
{
    lemma_pow2_values();
    let k = (e + 1074) as nat;
    lemma_pow2_positive(k);
    if r == 9_007_199_254_740_992 {
        lemma_pow2_add(53, k);
        if e >= 971 {
            lemma_pow2_monotone(2098, 53 + k);
        } else {
            lemma_pow2_monotone(53 + k, 2097);
            lemma_pow2_add(2097, 1);
            assert(pow2(0) == 1);
            assert(pow2(1) == 2);
        }
    } else {
        lemma_pow2_add(52, k);
        lemma_pow2_add(53, k);
        assert(r * pow2(k) < pow2(53) * pow2(k)) by (nonlinear_arith)
            requires r < 9_007_199_254_740_992, pow2(53) == 9_007_199_254_740_992, pow2(k) >= 1;
        if d > 0 {
            assert(r * pow2(k) >= pow2(52) * pow2(k)) by (nonlinear_arith)
                requires r >= 4_503_599_627_370_496, pow2(52) == 4_503_599_627_370_496, pow2(k) >= 1;
        }
        if d > 0 && e >= 972 {
            lemma_pow2_monotone(2098, 52 + k);
        } else {
            lemma_pow2_monotone(53 + k, 2098);
        }
    }
}

/// Appends the text of `x * factor`, computed in double precision, with `p` decimals.
/// The factor is a positive whole number of at most 64 bits (a zero factor
/// would turn an infinity into NaN), and `p <= 20` keeps a significand times
/// `10^p` within the 128-bit arithmetic used.
pub fn push_product_text(s: &mut String, x: Float64, factor: u128, p: u32)
    requires
        1 <= factor <= 0xFFFF_FFFF_FFFF_FFFF,
        p <= 20,
    ensures
        final(s)@ == old(s)@ + product_text(x, factor as nat, p as nat),
{
    proof {
        lemma_fields(x);
        lemma_pow2_values();
    }
    let biased = (x.bits / 4_503_599_627_370_496) % 2048;
    let fraction = x.bits % 4_503_599_627_370_496;
    if biased == 2047 && fraction != 0 {
        proof { reveal_strlit("NaN"); }
        s.append("NaN");
        return;
    }
    if x.bits >= 0x8000_0000_0000_0000 {
        proof { reveal_strlit("-"); }
        s.append("-");
    }
    let ghost signed = s@;
    if biased == 2047 {
        proof { reveal_strlit("inf"); }
        s.append("inf");
        assert(s@ =~= old(s)@ + product_text(x, factor as nat, p as nat));
        return;
    }
    let m: u128 = if biased == 0 { fraction as u128 } else { fraction as u128 + 4_503_599_627_370_496 };
    let e: i32 = if biased == 0 { -1074 } else { biased as i32 - 1075 };
    assert(m * factor < 0x100_0000_0000_0000_0000_0000_0000_0000) by (nonlinear_arith)
        requires m < 9_007_199_254_740_992, factor <= 0xFFFF_FFFF_FFFF_FFFF;
    let (r, d) = round_significand(m * factor);
    proof {
        if d == 0 {
            assert(m * factor >= m) by (nonlinear_arith)
                requires factor >= 1;
        }
    }
    assert(d <= 68);
    let e2: i32 = e + d as i32;
    proof {
        lemma_overflow(r as nat, e2 as int, d as nat);
    }
    let over = if d == 0 {
        false
    } else if r == 9_007_199_254_740_992 {
        e2 >= 971
    } else {
        e2 >= 972
    };
    if over {
        proof { reveal_strlit("inf"); }
        s.append("inf");
    } else {
        push_finite(s, r, e2, p);
    }
    assert(s@ =~= old(s)@ + product_text(x, factor as nat, p as nat));
}

/// A positive normal number is finite, not NaN, and has a positive magnitude.
pub proof fn lemma_positive_normal(c: Float64)
    requires
        !c.negative(),
        0 < c.biased_exponent() < 2047,
    ensures
        !c.is_nan(),
        !c.is_infinite(),
        c.units() > 0,
{
    lemma_fields(c);
    let k = (c.biased_exponent() - 1) as nat;
    lemma_pow2_positive(k);
    assert(c.significand() * pow2(k) > 0) by (nonlinear_arith)
        requires c.significand() >= 1, pow2(k) >= 1;
}

/// A number below `2^(53 + k)` loses at most `k` bits when rounded to a double.
pub proof fn lemma_dropped_bits_bound(n: nat, k: nat)
    requires
        n < pow2(53 + k),
    ensures
        dropped_bits(n) <= k,
    decreases k,
{
    lemma_pow2_values();
    if n >= significand_limit() {
        if k == 0 {
            assert(false);
        } else {
            let k1 = (k - 1) as nat;
            assert(pow2(53 + k) == 2 * pow2(53 + k1));
            lemma_dropped_bits_bound(n / 2, k1);
        }
    }
}

proof fn lemma_encode(sign: nat, field: nat, frac: nat)
    requires
        sign <= 1,
        1 <= field <= 2046,
        frac < 4_503_599_627_370_496,
    ensures
        ({
            let x = Float64 {
                bits: (sign * 0x8000_0000_0000_0000 + field * 4_503_599_627_370_496 + frac) as u64,
            };
            &&& x.negative() == (sign == 1)
            &&& x.biased_exponent() == field
            &&& x.fraction() == frac
            &&& !x.is_nan()
            &&& !x.is_infinite()
            &&& x.units() == value_units(frac + 4_503_599_627_370_496, field - 1075)
        }),
{
    let b = sign * 0x8000_0000_0000_0000 + field * 4_503_599_627_370_496 + frac;
    assert(b == (sign * 2048 + field) * 4_503_599_627_370_496 + frac);
    vstd::arithmetic::div_mod::lemma_fundamental_div_mod_converse(
        b as int, 4_503_599_627_370_496, (sign * 2048 + field) as int, frac as int);
    vstd::arithmetic::div_mod::lemma_fundamental_div_mod_converse(
        (sign * 2048 + field) as int, 2048, sign as int, field as int);
}

/// The magnitude, in units of `2^-1074`, of `us as f64 * 1e-6`: the whole
/// number `us` rounded to a double, times the double nearest to 1e-6
/// (`4722366482869645 * 2^-72`), rounded to a double again.
pub open spec fn micros_seconds_units(us: int) -> nat {
    let a: nat = if us < 0 { (-us) as nat } else { us as nat };
    let d1 = dropped_bits(a);
    let r1 = round_half_even(a, pow2(d1));
    let n = r1 * 4_722_366_482_869_645;
    let d2 = dropped_bits(n);
    value_units(round_half_even(n, pow2(d2)), d1 + d2 - 72)
}

/// A count of microseconds converted to seconds as floating point does it:
/// `us as f64 * 1e-6`.
pub fn micros_to_seconds(us: i64) -> (x: Float64)
    ensures
        !x.is_nan(),
        !x.is_infinite(),
        x.negative() == (us < 0),
        x.units() == micros_seconds_units(us as int),
{
    let a: u128 = if us < 0 { (-(us as i128)) as u128 } else { us as u128 };
    proof {
        lemma_pow2_values();
    }
    if a == 0 {
        let x = Float64::from_bits(0);
        proof {
            lemma_encode(0, 1, 0);
            lemma_fields(x);
            assert(dropped_bits(0) == 0);
            assert(pow2(0) == 1);
            assert(x.biased_exponent() == 0);
            assert(x.units() == 0);
            assert(round_half_even(0, 1) == 0);
            assert(0 * pow2(1002) == 0);
            assert(micros_seconds_units(0) == 0);
        }
        return x;
    }
    let (r1, d1) = round_significand(a);
    proof {
        lemma_pow2_add(53, 11);
        assert(pow2(11) == 2048) by {
            reveal_with_fuel(pow2, 12);
        }
        lemma_dropped_bits_bound(a as nat, 11);
    }
    assert(r1 * 4_722_366_482_869_645 < 0x100_0000_0000_0000_0000_0000_0000_0000) by (nonlinear_arith)
        requires r1 <= 9_007_199_254_740_992;
    let n = r1 * 4_722_366_482_869_645;
    let (r2, d2) = round_significand(n);
    proof {
        assert(r1 >= 1);
        assert(n >= 4_722_366_482_869_645) by (nonlinear_arith)
            requires n == r1 * 4_722_366_482_869_645, r1 >= 1;
    }
    let e2: i32 = d1 as i32 + d2 as i32 - 72;
    let ghost e2i = d1 + d2 - 72;
    let sig: u128 = if r2 == 9_007_199_254_740_992 { 4_503_599_627_370_496 } else { r2 };
    let exp: i32 = if r2 == 9_007_199_254_740_992 { e2 + 1 } else { e2 };
    let field: u64 = (exp + 1075) as u64;
    let frac: u64 = (sig - 4_503_599_627_370_496) as u64;
    let sign: u64 = if us < 0 { 1 } else { 0 };
    let x = Float64::from_bits(sign * 0x8000_0000_0000_0000 + field * 4_503_599_627_370_496 + frac);
    proof {
        lemma_encode(sign as nat, field as nat, frac as nat);
        let k = (e2i + 1074) as nat;
        if r2 == 9_007_199_254_740_992 {
            assert(pow2(k + 1) == 2 * pow2(k));
            assert(9_007_199_254_740_992 * pow2(k) == 4_503_599_627_370_496 * pow2(k + 1)) by (nonlinear_arith)
                requires pow2(k + 1) == 2 * pow2(k);
        }
    }
    x
}

/// A number that loses `s > 0` bits is at least `2^(52 + s)`.
proof fn lemma_dropped_bits_floor(n: nat)
    ensures
        dropped_bits(n) > 0 ==> n >= pow2(52 + dropped_bits(n)),
    decreases n,
{
    lemma_pow2_values();
    if n >= significand_limit() {
        lemma_dropped_bits_floor(n / 2);
        let s = dropped_bits(n);
        assert(s == 1 + dropped_bits(n / 2));
        assert(pow2(52 + s) == 2 * pow2((52 + s - 1) as nat));
        if dropped_bits(n / 2) == 0 {
            assert(s == 1);
            assert(pow2(53) == 9_007_199_254_740_992);
        }
    }
}

/// Rounding `n` to a double's significand is off by at most `n / 2^53`.
pub proof fn lemma_round_relative(n: nat)
    ensures
        ({
            let s = dropped_bits(n);
            let r = round_half_even(n, pow2(s));
            &&& pow2(53) * (r * pow2(s)) <= (pow2(53) + 1) * n
            &&& (pow2(53) - 1) * n <= pow2(53) * (r * pow2(s))
        }),
{
    let s = dropped_bits(n);
    let d = pow2(s);
    lemma_pow2_positive(s);
    lemma_pow2_values();
    let r = round_half_even(n, d);
    lemma_round_half_even_nearest(n, d);
    if s == 0 {
        assert(d == 1);
        assert(n / 1 == n);
        assert(n % 1 == 0);
        assert(r == n);
        assert(r * d == n) by (nonlinear_arith)
            requires r == n, d == 1;
        assert(pow2(53) * n <= (pow2(53) + 1) * n && (pow2(53) - 1) * n <= pow2(53) * n) by (nonlinear_arith);
    } else {
        lemma_dropped_bits_floor(n);
        lemma_pow2_add(52, s);
        assert(pow2(53) * (r * d) <= (pow2(53) + 1) * n) by (nonlinear_arith)
            requires
                2 * r * d <= 2 * n + d,
                n >= pow2(52) * d,
                pow2(53) == 2 * pow2(52),
        ;
        assert((pow2(53) - 1) * n <= pow2(53) * (r * d)) by (nonlinear_arith)
            requires
                2 * n <= (2 * r + 1) * d,
                n >= pow2(52) * d,
                pow2(53) == 2 * pow2(52),
        ;
    }
}

/// The text of `x * factor` is what the exact product gives: for a finite `x`
/// and a product below `2^1023`, the text is a decimal number with `p`
/// decimals and no superfluous leading zero (after a minus sign exactly when
/// `x` is negative), and the number
/// it spells differs from the exact `x * factor` by at most half a unit in
/// the last decimal plus `2^-53` of the product (the rounding to a double).
pub proof fn lemma_product_text_accuracy(x: Float64, factor: nat, p: nat)
    requires
        !x.is_nan(),
        !x.is_infinite(),
        factor >= 1,
        x.units() * factor <= pow2(2097),
    ensures
        ({
            let t = product_text(x, factor, p);
            let body = if x.negative() { t.subrange(1, t.len() as int) } else { t };
            let exact = x.units() * factor * pow10(p);
            let shown = shown_value(body) * pow2(1074);
            &&& t.len() >= 1
            &&& (t[0] == '-') == x.negative()
            &&& has_decimal_shape(body, p)
            &&& no_leading_zero(body, p)
            &&& pow2(53) * shown <= pow2(53) * exact + pow2(1126) + exact
            &&& pow2(53) * exact <= pow2(53) * shown + pow2(1126) + exact
        }),
{
    lemma_fields(x);
    lemma_pow2_values();
    let m = x.significand();
    let n = m * factor;
    let d = dropped_bits(n);
    let r = round_half_even(n, pow2(d));
    let shifted = x.exponent() + d;
    let k = (x.exponent() + 1074) as nat;
    lemma_round_relative(n);
    lemma_pow2_add(d, k);
    lemma_pow2_positive(k);
    lemma_pow2_positive(d);
    lemma_pow10_positive(p);
    let big_p = x.units() * factor;
    let v = value_units(r, shifted);
    assert(big_p == n * pow2(k)) by (nonlinear_arith)
        requires big_p == x.units() * factor, x.units() == m * pow2(k), n == m * factor;
    assert((shifted + 1074) as nat == d + k);
    assert(v == r * pow2(d + k));
    assert(v == (r * pow2(d)) * pow2(k)) by (nonlinear_arith)
        requires v == r * pow2(d + k), pow2(d + k) == pow2(d) * pow2(k);
    let two53 = pow2(53);
    assert(two53 * v <= (two53 + 1) * big_p && (two53 - 1) * big_p <= two53 * v) by (nonlinear_arith)
        requires
            two53 * (r * pow2(d)) <= (two53 + 1) * n,
            (two53 - 1) * n <= two53 * (r * pow2(d)),
            v == (r * pow2(d)) * pow2(k),
            big_p == n * pow2(k),
            pow2(k) >= 1,
    ;
    lemma_pow2_add(2097, 1);
    lemma_pow2_positive(2097);
    lemma_pow2_positive(1074);
    assert(pow2(1) == 2) by {
        reveal_with_fuel(pow2, 2);
    }
    assert(v < overflow_units()) by (nonlinear_arith)
        requires
            two53 * v <= (two53 + 1) * big_p,
            big_p <= pow2(2097),
            pow2(2097) >= 1,
            overflow_units() == pow2(2097) * 2,
            two53 == 9_007_199_254_740_992,
    ;
    let q = round_half_even(v * pow10(p), pow2(1074));
    lemma_pow2_positive(1074);
    lemma_round_half_even_nearest(v * pow10(p), pow2(1074));
    lemma_fixed_point_shown(q, p);
    let t = product_text(x, factor, p);
    let sign = if x.negative() { seq!['-'] } else { Seq::<char>::empty() };
    assert(t == sign + fixed_point(q, p));
    let body = if x.negative() { t.subrange(1, t.len() as int) } else { t };
    assert(body =~= fixed_point(q, p));
    let f = fixed_point(q, p);
    assert(f[0] != '-') by {
        assert(p > 0 ==> 0 != f.len() - p - 1);
    }
    lemma_pow2_add(53, 1073);
    assert(pow2(1074) == 2 * pow2(1073));
    let exact = big_p * pow10(p);
    let sv = q * pow2(1074);
    assert(two53 * sv <= two53 * exact + pow2(1126) + exact && two53 * exact <= two53 * sv + pow2(1126) + exact) by (nonlinear_arith)
        requires
            2 * (v * pow10(p)) <= (2 * q + 1) * pow2(1074),
            (2 * q) * pow2(1074) <= 2 * (v * pow10(p)) + pow2(1074),
            two53 * v <= (two53 + 1) * big_p,
            (two53 - 1) * big_p <= two53 * v,
            sv == q * pow2(1074),
            exact == big_p * pow10(p),
            pow2(1126) == two53 * pow2(1073),
            pow2(1074) == 2 * pow2(1073),
            pow10(p) >= 1,
    ;
}

/// NaN is shown as "NaN", and infinities as "inf" and "-inf", whatever the
/// factor and the number of decimals.
pub proof fn lemma_product_text_special(x: Float64, factor: nat, p: nat)
    ensures
        x.is_nan() ==> product_text(x, factor, p) == seq!['N', 'a', 'N'],
        x.is_infinite() && !x.negative() ==> product_text(x, factor, p) == seq!['i', 'n', 'f'],
        x.is_infinite() && x.negative() ==> product_text(x, factor, p) == seq!['-', 'i', 'n', 'f'],
{
    assert(Seq::<char>::empty() + seq!['i', 'n', 'f'] =~= seq!['i', 'n', 'f']);
    assert(seq!['-'] + seq!['i', 'n', 'f'] =~= seq!['-', 'i', 'n', 'f']);
}

/// A finite `x` whose exact product with `factor` reaches `2^1024` is shown
/// as "inf" (or "-inf"): the product overflows in double precision.
pub proof fn lemma_product_text_overflow(x: Float64, factor: nat, p: nat)
    requires
        !x.is_nan(),
        !x.is_infinite(),
        x.units() * factor >= pow2(2098),
    ensures
        product_text(x, factor, p) == if x.negative() {
            seq!['-', 'i', 'n', 'f']
        } else {
            seq!['i', 'n', 'f']
        },
{
    lemma_fields(x);
    lemma_pow2_values();
    let m = x.significand();
    let n = m * factor;
    let d = dropped_bits(n);
    let dd = pow2(d);
    lemma_pow2_positive(d);
    let r = round_half_even(n, dd);
    let q = n / dd;
    assert(r >= q);
    let k = (x.exponent() + 1074) as nat;
    lemma_pow2_positive(k);
    assert(k <= 2045);
    let j = (2098 - k) as nat;
    lemma_pow2_add(j, k);
    assert(n * pow2(k) >= pow2(j) * pow2(k)) by (nonlinear_arith)
        requires
            x.units() == m * pow2(k),
            x.units() * factor >= pow2(2098),
            n == m * factor,
            pow2(2098) == pow2(j) * pow2(k),
    ;
    assert(n >= pow2(j)) by (nonlinear_arith)
        requires
            n * pow2(k) >= pow2(j) * pow2(k),
            pow2(k) >= 1,
    ;
    if d <= j {
        let g = (j - d) as nat;
        lemma_pow2_add(g, d);
        vstd::arithmetic::div_mod::lemma_div_is_ordered((pow2(g) * dd) as int, n as int, dd as int);
        vstd::arithmetic::div_mod::lemma_div_by_multiple(pow2(g) as int, dd as int);
        assert(q * dd >= pow2(j)) by (nonlinear_arith)
            requires
                q >= pow2(g),
                pow2(j) == pow2(g) * dd,
        ;
    } else {
        lemma_dropped_bits_floor(n);
        lemma_pow2_add(52, d);
        vstd::arithmetic::div_mod::lemma_div_is_ordered((pow2(52) * dd) as int, n as int, dd as int);
        vstd::arithmetic::div_mod::lemma_div_by_multiple(pow2(52) as int, dd as int);
        lemma_pow2_monotone(j, d);
        assert(q * dd >= pow2(j)) by (nonlinear_arith)
            requires
                q >= pow2(52),
                pow2(52) >= 1,
                dd >= pow2(j),
        ;
    }
    lemma_pow2_add(d, k);
    let e = x.exponent() + d;
    assert((e + 1074) as nat == d + k);
    assert(value_units(r, e) == r * pow2(d + k));
    assert(r * pow2(d + k) >= pow2(2098)) by (nonlinear_arith)
        requires
            r >= q,
            q * dd >= pow2(j),
            pow2(d + k) == dd * pow2(k),
            pow2(2098) == pow2(j) * pow2(k),
            pow2(k) >= 1,
    ;
    assert(Seq::<char>::empty() + seq!['i', 'n', 'f'] =~= seq!['i', 'n', 'f']);
    assert(seq!['-'] + seq!['i', 'n', 'f'] =~= seq!['-', 'i', 'n', 'f']);
}

/// `us as f64 * 1e-6` is `us` microseconds in seconds up to the roundings of
/// floating point: the magnitude it gives, in units of `2^-1074`, is within
/// `2^-51` of `|us| / 10^6` (the sign is that of `us`, by `micros_to_seconds`).
pub proof fn lemma_micros_seconds_accuracy(us: int)
    ensures
        ({
            let magnitude: nat = (if us >= 0 { us } else { 0 - us }) as nat;
            let v = micros_seconds_units(us);
            &&& pow2(51) * (v * 1_000_000) <= (pow2(51) + 1) * (magnitude * pow2(1074))
            &&& (pow2(51) - 1) * (magnitude * pow2(1074)) <= pow2(51) * (v * 1_000_000)
        }),
{
    let a: nat = (if us >= 0 { us } else { 0 - us }) as nat;
    let d1 = dropped_bits(a);
    let r1 = round_half_even(a, pow2(d1));
    let big_m: nat = 4_722_366_482_869_645;
    let n = r1 * big_m;
    let d2 = dropped_bits(n);
    let r2 = round_half_even(n, pow2(d2));
    let v = micros_seconds_units(us);
    lemma_pow2_values();
    lemma_round_relative(a);
    lemma_round_relative(n);
    let aa = r1 * pow2(d1);
    let n2 = r2 * pow2(d2);
    let two53 = pow2(53);
    lemma_pow2_positive(d1);
    lemma_pow2_add(d2, d1);
    lemma_pow2_add(d2 + d1, 1002);
    assert((d1 + d2 - 72 + 1074) as nat == d2 + d1 + 1002);
    let g = pow2(1002);
    let dd = pow2(d1);
    assert(v == n2 * dd * g) by (nonlinear_arith)
        requires
            v == r2 * pow2(d2 + d1 + 1002),
            pow2(d2 + d1 + 1002) == pow2(d2 + d1) * g,
            pow2(d2 + d1) == pow2(d2) * dd,
            n2 == r2 * pow2(d2),
    ;
    assert(n * dd == aa * big_m) by (nonlinear_arith)
        requires n == r1 * big_m, aa == r1 * dd;
    lemma_pow2_add(9, 63);
    assert(pow2(9) == 512) by {
        reveal_with_fuel(pow2, 10);
    }
    lemma_pow2_add(72, 1002);
    let t72 = pow2(72);
    assert(t72 == 4_722_366_482_869_645_213_696);
    // w = n2 * dd * 10^6, compared with a * 2^72
    let w = n2 * dd * 1_000_000;
    assert(two53 * two53 * w <= (two53 + 1) * (two53 + 1) * a * (big_m * 1_000_000)) by (nonlinear_arith)
        requires
            two53 * n2 <= (two53 + 1) * n,
            two53 * aa <= (two53 + 1) * a,
            n * dd == aa * big_m,
            w == n2 * dd * 1_000_000,
            dd >= 1,
    ;
    assert((two53 - 1) * (two53 - 1) * a * (big_m * 1_000_000) <= two53 * two53 * w) by (nonlinear_arith)
        requires
            (two53 - 1) * n <= two53 * n2,
            (two53 - 1) * a <= two53 * aa,
            n * dd == aa * big_m,
            w == n2 * dd * 1_000_000,
            dd >= 1,
            two53 >= 1,
    ;
    assert(pow2(51) * w <= (pow2(51) + 1) * (a * t72)) by (nonlinear_arith)
        requires
            two53 * two53 * w <= (two53 + 1) * (two53 + 1) * a * (big_m * 1_000_000),
            two53 == 9_007_199_254_740_992,
            pow2(51) == 2_251_799_813_685_248,
            big_m * 1_000_000 <= t72,
            t72 == 4_722_366_482_869_645_213_696,
    ;
    assert((pow2(51) - 1) * (a * t72) <= pow2(51) * w) by (nonlinear_arith)
        requires
            (two53 - 1) * (two53 - 1) * a * (big_m * 1_000_000) <= two53 * two53 * w,
            two53 == 9_007_199_254_740_992,
            pow2(51) == 2_251_799_813_685_248,
            big_m * 1_000_000 + 213_696 == t72,
            t72 == 4_722_366_482_869_645_213_696,
    ;
    assert(pow2(51) * (v * 1_000_000) == pow2(51) * w * g) by (nonlinear_arith)
        requires v == n2 * dd * g, w == n2 * dd * 1_000_000;
    assert(a * pow2(1074) == a * t72 * g) by (nonlinear_arith)
        requires pow2(1074) == t72 * g;
    lemma_pow2_positive(1002);
    assert(pow2(51) * (v * 1_000_000) <= (pow2(51) + 1) * (a * pow2(1074))) by (nonlinear_arith)
        requires
            pow2(51) * w <= (pow2(51) + 1) * (a * t72),
            pow2(51) * (v * 1_000_000) == pow2(51) * w * g,
            a * pow2(1074) == a * t72 * g,
            g >= 1,
    ;
    assert((pow2(51) - 1) * (a * pow2(1074)) <= pow2(51) * (v * 1_000_000)) by (nonlinear_arith)
        requires
            (pow2(51) - 1) * (a * t72) <= pow2(51) * w,
            pow2(51) * (v * 1_000_000) == pow2(51) * w * g,
            a * pow2(1074) == a * t72 * g,
            g >= 1,
    ;
}

} // verus!
