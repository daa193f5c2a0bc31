//! Human-readable text for memory sizes and durations.

use vstd::prelude::*;

use crate::util::decimal::{
    fixed_point, has_decimal_shape, lemma_fixed_point_shown, lemma_round_half_even_nearest,
    no_leading_zero, push_fixed_point, round_div, round_half_even, shown_value,
};
use crate::util::double::{
    dropped_bits, less_than, less_than_positive, lemma_dropped_bits_bound, lemma_fields,
    lemma_positive_normal, lemma_pow2_add, lemma_pow2_monotone, lemma_pow2_positive,
    lemma_pow2_values, lemma_round_relative, pow2, pow2_u128, product_text, round_significand,
    significand_limit, Float64,
};
use crate::util::units::{Second, Unit};

verus! {

/// Unit for memory formatting
#[derive(Debug, Clone, Copy, PartialEq, Eq, Structural)]
pub enum MemoryUnit {
    Byte,
    KiloByte,
    MegaByte,
    GigaByte,
}

impl MemoryUnit {
    /// The symbol of the unit.
    pub open spec fn symbol(self) -> Seq<char> {
        match self {
            MemoryUnit::Byte => seq!['B'],
            MemoryUnit::KiloByte => seq!['K', 'B'],
            MemoryUnit::MegaByte => seq!['M', 'B'],
            MemoryUnit::GigaByte => seq!['G', 'B'],
        }
    }

    /// The number of bytes in one unit.
    pub open spec fn size(self) -> nat {
        match self {
            MemoryUnit::Byte => 1,
            MemoryUnit::KiloByte => 1024,
            MemoryUnit::MegaByte => 1024 * 1024,
            MemoryUnit::GigaByte => 1024 * 1024 * 1024,
        }
    }

    /// The symbol of the unit ("B", "KB", "MB" or "GB").
    pub fn short_name(&self) -> (s: &'static str)
        ensures
            s@ == self.symbol(),
    {
        match self {
            MemoryUnit::Byte => {
                proof { reveal_strlit("B"); }
                "B"
            },
            MemoryUnit::KiloByte => {
                proof { reveal_strlit("KB"); }
                "KB"
            },
            MemoryUnit::MegaByte => {
                proof { reveal_strlit("MB"); }
                "MB"
            },
            MemoryUnit::GigaByte => {
                proof { reveal_strlit("GB"); }
                "GB"
            },
        }
    }

    /// The number of bytes in one unit.
    fn bytes_per_unit(&self) -> (n: u64)
        ensures
            n == self.size(),
    {
        match self {
            MemoryUnit::Byte => 1,
            MemoryUnit::KiloByte => 1024,
            MemoryUnit::MegaByte => 1024 * 1024,
            MemoryUnit::GigaByte => 1024 * 1024 * 1024,
        }
    }
}

/// The double-precision value nearest to `b`, ties to an even significand:
/// the value a byte count takes when converted to floating point.
pub open spec fn as_double(b: nat) -> nat {
    let e = dropped_bits(b);
    round_half_even(b, pow2(e)) * pow2(e)
}

/// The unit a memory size `v` (in bytes) is shown in: the largest one that is
/// not larger than `v`, bytes for sizes below one kilobyte.
pub open spec fn memory_unit_for(v: nat) -> MemoryUnit {
    if v >= MemoryUnit::GigaByte.size() {
        MemoryUnit::GigaByte
    } else if v >= MemoryUnit::MegaByte.size() {
        MemoryUnit::MegaByte
    } else if v >= MemoryUnit::KiloByte.size() {
        MemoryUnit::KiloByte
    } else {
        MemoryUnit::Byte
    }
}

/// The text of a memory size: the size in its unit rounded to one decimal,
/// a space and the unit's symbol.
pub open spec fn memory_text(bytes: nat) -> Seq<char> {
    let v = as_double(bytes);
    let unit = memory_unit_for(v);
    fixed_point(round_half_even(10 * v, unit.size()), 1) + seq![' '] + unit.symbol()
}

/// `n` spaces.
pub open spec fn spaces(n: nat) -> Seq<char> {
    Seq::new(n, |i: int| ' ')
}

/// `s` right-aligned in a field of `width` characters: spaces in front when it
/// is shorter, unchanged otherwise.
pub open spec fn pad_left(s: Seq<char>, width: nat) -> Seq<char> {
    if s.len() < width {
        spaces((width - s.len()) as nat) + s
    } else {
        s
    }
}

/// The text of a memory size, right-aligned when a width is given.
pub open spec fn memory_value_text(bytes: nat, width: Option<usize>) -> Seq<char> {
    match width {
        Some(w) => pad_left(memory_text(bytes), w as nat),
        None => memory_text(bytes),
    }
}

/// The byte count `b` converted to a double, as a whole number.
fn double_of(b: u64) -> (v: u128)
    ensures
        v == as_double(b as nat),
        v < 0x2_0000_0000_0000_0000,
{
    let (r, s) = round_significand(b as u128);
    proof {
        lemma_pow2_add(53, 11);
        lemma_pow2_add(52, 11);
        lemma_pow2_values();
        assert(pow2(11) == 2048) by {
            reveal_with_fuel(pow2, 12);
        }
        lemma_dropped_bits_bound(b as nat, 11);
        lemma_pow2_monotone(s as nat, 11);
        assert(r * pow2(s as nat) <= 9_007_199_254_740_992 * 2048) by (nonlinear_arith)
            requires r <= 9_007_199_254_740_992, pow2(s as nat) <= 2048;
    }
    let scale = pow2_u128(s);
    r * scale
}

/// Format memory size in bytes to a human-readable string with automatic unit selection.
pub fn format_memory(bytes: u64) -> (s: String)
    ensures
        s@ == memory_text(bytes as nat),
        s@ == memory_value_text(bytes as nat, None),
{
    format_memory_value(bytes, None)
}

/// Format memory size with optional right-padding to specified width.
pub fn format_memory_value(bytes: u64, width: Option<usize>) -> (s: String)
    ensures
        s@ == memory_value_text(bytes as nat, width),
{
    let bytes_f = double_of(bytes);

    let unit = if bytes_f >= MemoryUnit::GigaByte.bytes_per_unit() as u128 {
        MemoryUnit::GigaByte
    } else if bytes_f >= MemoryUnit::MegaByte.bytes_per_unit() as u128 {
        MemoryUnit::MegaByte
    } else if bytes_f >= MemoryUnit::KiloByte.bytes_per_unit() as u128 {
        MemoryUnit::KiloByte
    } else {
        MemoryUnit::Byte
    };
    let tenths = round_div(10 * bytes_f, unit.bytes_per_unit() as u128);

    let mut formatted = String::new();
    push_fixed_point(&mut formatted, tenths, 1);
    proof { reveal_strlit(" "); }
    formatted.append(" ");
    formatted.append(unit.short_name());
    assert(formatted@ =~= memory_text(bytes as nat));

    match width {
        Some(w) => {
            let len = formatted.as_str().unicode_len();
            if len < w {
                let mut padded = String::new();
                let mut k: usize = 0;
                while k < w - len
                    invariant
                        k <= w - len,
                        padded@ =~= spaces(k as nat),
                    decreases w - len - k,
                {
                    proof { reveal_strlit(" "); }
                    padded.append(" ");
                    k = k + 1;
                }
                padded.append(formatted.as_str());
                padded
            } else {
                formatted
            }
        },
        None => formatted,
    }
}

/// The double nearest to 0.001.
pub const ONE_MILLISECOND_BITS: u64 = 0x3F50_624D_D2F1_A9FC;

/// The double 1.0.
pub const ONE_SECOND_BITS: u64 = 0x3FF0_0000_0000_0000;

/// The unit a duration is shown in: the one asked for, or else microseconds
/// below one millisecond, milliseconds below one second, seconds otherwise.
pub open spec fn duration_unit(duration: Second, unit: Option<Unit>) -> Unit {
    match unit {
        Some(u) => u,
        None => if less_than(duration, Float64 { bits: ONE_MILLISECOND_BITS }) {
            Unit::MicroSecond
        } else if less_than(duration, Float64 { bits: ONE_SECOND_BITS }) {
            Unit::MilliSecond
        } else {
            Unit::Second
        },
    }
}

/// The text of a duration with its unit symbol.
pub open spec fn duration_text(duration: Second, unit: Option<Unit>) -> Seq<char> {
    let u = duration_unit(duration, unit);
    u.value_text(duration) + seq![' '] + u.symbol()
}

/// Format the given duration as a string. The output-unit can be enforced by setting `unit` to
/// `Some(target_unit)`. If `unit` is `None`, it will be determined automatically.
pub fn format_duration(duration: Second, unit: Option<Unit>) -> (s: String)
    ensures
        s@ == duration_text(duration, unit),
{
    let (duration_fmt, _) = format_duration_unit(duration, unit);
    duration_fmt
}

/// Like `format_duration`, but returns the target unit as well.
pub fn format_duration_unit(duration: Second, unit: Option<Unit>) -> (r: (String, Unit))
    ensures
        r.0@ == duration_text(duration, unit),
        r.1 == duration_unit(duration, unit),
{
    let (out_str, out_unit) = format_duration_value(duration, unit);
    let mut text = out_str;
    proof { reveal_strlit(" "); }
    text.append(" ");
    let name = out_unit.short_name();
    text.append(name.as_str());
    assert(text@ =~= duration_text(duration, unit));
    (text, out_unit)
}

/// Like `format_duration`, but returns the number without the unit symbol,
/// and the unit.
pub fn format_duration_value(duration: Second, unit: Option<Unit>) -> (r: (String, Unit))
    ensures
        r.0@ == duration_unit(duration, unit).value_text(duration),
        r.1 == duration_unit(duration, unit),
{
    let one_millisecond = Float64::from_bits(ONE_MILLISECOND_BITS);
    let one_second = Float64::from_bits(ONE_SECOND_BITS);
    proof {
        lemma_positive_normal(one_millisecond);
        lemma_positive_normal(one_second);
    }
    if (less_than_positive(duration, one_millisecond) && unit.is_none()) || matches!(unit, Some(Unit::MicroSecond)) {
        (Unit::MicroSecond.format(duration), Unit::MicroSecond)
    } else if (less_than_positive(duration, one_second) && unit.is_none()) || matches!(
        unit,
        Some(Unit::MilliSecond)
    ) {
        (Unit::MilliSecond.format(duration), Unit::MilliSecond)
    } else {
        (Unit::Second.format(duration), Unit::Second)
    }
}

/// Padding only puts spaces in front: the result is as long as the width or the
/// text, whichever is longer, and ends with the text.
pub proof fn lemma_pad_left(s: Seq<char>, width: nat)
    ensures
        pad_left(s, width).len() == if s.len() < width { width } else { s.len() },
        pad_left(s, width).subrange(pad_left(s, width).len() - s.len(), pad_left(s, width).len() as int) == s,
        forall|i: int| 0 <= i < pad_left(s, width).len() - s.len() ==> #[trigger] pad_left(s, width)[i] == ' ',
{
    let r = pad_left(s, width);
    assert(r.subrange(r.len() - s.len(), r.len() as int) =~= s);
}

/// Byte counts below 2^53 convert to floating point exactly.
pub proof fn lemma_as_double_exact(b: nat)
    requires
        b < significand_limit(),
    ensures
        as_double(b) == b,
{
    assert(dropped_bits(b) == 0);
    assert(pow2(0) == 1);
    assert(b / 1 == b);
    assert(b % 1 == 0);
}

/// The unit chosen for a size `v` keeps the shown number at least one (unless
/// the size is in bytes) and below 1024 (unless it is in gigabytes).
pub proof fn lemma_memory_unit_range(v: nat)
    ensures
        memory_unit_for(v) != MemoryUnit::Byte ==> memory_unit_for(v).size() <= v,
        memory_unit_for(v) != MemoryUnit::GigaByte ==> v < 1024 * memory_unit_for(v).size(),
{
}

/// For byte counts that convert exactly, the number shown, in tenths of the
/// chosen unit, is within half a tenth of the true size: it is the size in
/// that unit rounded to one decimal.
pub proof fn lemma_memory_text_accuracy(b: nat)
    requires
        b < significand_limit(),
    ensures
        ({
            let unit = memory_unit_for(b);
            let tenths = round_half_even(10 * b, unit.size());
            &&& memory_text(b) == fixed_point(tenths, 1) + seq![' '] + unit.symbol()
            &&& 20 * b <= (2 * tenths + 1) * unit.size()
            &&& 2 * tenths * unit.size() <= 20 * b + unit.size()
        }),
{
    lemma_as_double_exact(b);
    let unit = memory_unit_for(b);
    lemma_round_half_even_nearest(10 * b, unit.size());
}

/// A unit asked for is always the unit used: seconds with three decimals,
/// milliseconds (the duration times 1e3) or microseconds (times 1e6) with one,
/// followed by a space and "s", "ms" or "µs".
pub proof fn lemma_requested_unit_is_used(duration: Second, unit: Unit)
    ensures
        duration_unit(duration, Some(unit)) == unit,
        duration_text(duration, Some(unit)) == unit.value_text(duration) + seq![' '] + unit.symbol(),
        duration_text(duration, Some(Unit::Second)) == product_text(duration, 1, 3) + seq![' ', 's'],
        duration_text(duration, Some(Unit::MilliSecond)) == product_text(duration, 1000, 1) + seq![' ', 'm', 's'],
        duration_text(duration, Some(Unit::MicroSecond)) == product_text(duration, 1_000_000, 1) + seq![' ', 'µ', 's'],
{
    assert(seq![' '] + seq!['µ', 's'] =~= seq![' ', 'µ', 's']);
    assert(seq![' '] + seq!['m', 's'] =~= seq![' ', 'm', 's']);
    assert(seq![' '] + seq!['s'] =~= seq![' ', 's']);
}

/// Below one millisecond the magnitude of a non-negative double `x` is exactly
/// when it is below the double nearest to 0.001: no double lies between the two.
proof fn lemma_below_one_millisecond(x: Float64)
    requires
        !x.is_nan(),
        !x.is_infinite(),
    ensures
        (x.units() < 4_611_686_018_427_388 * pow2(1012)) == (1000 * x.units() < pow2(1074)),
{
    lemma_fields(x);
    lemma_pow2_values();
    lemma_pow2_add(62, 1012);
    lemma_pow2_add(63, 1011);
    assert(pow2(63) == 2 * pow2(62));
    let big = pow2(1012);
    let u = x.units();
    let sig = x.significand();
    let be = x.biased_exponent();
    if be <= 1012 {
        let k: nat = (if be == 0 { 0 } else { be - 1 }) as nat;
        lemma_pow2_monotone(k, 1011);
        lemma_pow2_add(1, 1011);
        assert(pow2(1) == 2) by {
            reveal_with_fuel(pow2, 2);
        }
        let small = pow2(1011);
        assert(big == 2 * small);
        assert(u <= sig * small) by (nonlinear_arith)
            requires
                u == sig * pow2(k),
                pow2(k) <= small,
        ;
        assert(sig * small <= 9_007_199_254_740_991 * small) by (nonlinear_arith)
            requires
                sig <= 9_007_199_254_740_991,
        ;
        lemma_pow2_positive(1011);
        assert(1000 * u < pow2(63) * small);
        assert(u < 4_611_686_018_427_388 * big);
    } else {
        let j: nat = (be - 1013) as nat;
        lemma_pow2_add(j, 1012);
        assert((be - 1) as nat == j + 1012);
        let q = sig * pow2(j);
        assert(u == q * big) by (nonlinear_arith)
            requires
                u == sig * pow2(j + 1012),
                pow2(j + 1012) == pow2(j) * big,
                q == sig * pow2(j),
        ;
        lemma_pow2_positive(1012);
        if u < 4_611_686_018_427_388 * big {
            assert(q < 4_611_686_018_427_388) by (nonlinear_arith)
                requires
                    u == q * big,
                    u < 4_611_686_018_427_388 * big,
                    big >= 1,
            ;
            assert(1000 * u < pow2(62) * big) by (nonlinear_arith)
                requires
                    u == q * big,
                    q <= 4_611_686_018_427_387,
                    big >= 1,
                    pow2(62) == 4_611_686_018_427_387_904,
            ;
        } else {
            assert(1000 * u >= pow2(62) * big) by (nonlinear_arith)
                requires
                    u >= 4_611_686_018_427_388 * big,
                    pow2(62) == 4_611_686_018_427_387_904,
            ;
        }
    }
}

/// Without a unit asked for, a duration `x` (not NaN, finite) is shown in
/// microseconds when it is negative or below one millisecond (1000 * x < 1),
/// in milliseconds when it is below one second, and in seconds otherwise; the
/// number is `x * 1e6` or `x * 1e3` with one decimal, or `x` with three,
/// followed by a space and "µs", "ms" or "s".
pub proof fn lemma_automatic_duration_unit(x: Second)
    requires
        !x.is_nan(),
        !x.is_infinite(),
    ensures
        x.negative() || 1000 * x.units() < pow2(1074) ==> {
            &&& duration_unit(x, None) == Unit::MicroSecond
            &&& duration_text(x, None) == product_text(x, 1_000_000, 1) + seq![' ', 'µ', 's']
        },
        !x.negative() && pow2(1074) <= 1000 * x.units() && x.units() < pow2(1074) ==> {
            &&& duration_unit(x, None) == Unit::MilliSecond
            &&& duration_text(x, None) == product_text(x, 1000, 1) + seq![' ', 'm', 's']
        },
        !x.negative() && pow2(1074) <= x.units() ==> {
            &&& duration_unit(x, None) == Unit::Second
            &&& duration_text(x, None) == product_text(x, 1, 3) + seq![' ', 's']
        },
{
    let ms = Float64 { bits: ONE_MILLISECOND_BITS };
    let one = Float64 { bits: ONE_SECOND_BITS };
    lemma_positive_normal(ms);
    lemma_positive_normal(one);
    lemma_fields(ms);
    lemma_fields(one);
    lemma_fields(x);
    assert(ms.biased_exponent() == 1013);
    assert(ms.fraction() == 108_086_391_056_892);
    assert(ms.significand() == 4_611_686_018_427_388);
    assert(ms.units() == 4_611_686_018_427_388 * pow2(1012));
    assert(one.biased_exponent() == 1023);
    assert(one.fraction() == 0);
    lemma_pow2_add(52, 1022);
    lemma_pow2_values();
    assert(one.units() == pow2(1074));
    lemma_below_one_millisecond(x);
    if x.negative() {
        assert(x.signed_units() <= 0);
    }
    assert(seq![' '] + seq!['µ', 's'] =~= seq![' ', 'µ', 's']);
    assert(seq![' '] + seq!['m', 's'] =~= seq![' ', 'm', 's']);
    assert(seq![' '] + seq!['s'] =~= seq![' ', 's']);
}

/// For every byte count `b`: the text is a decimal number with one digit after
/// the point and no superfluous leading zero, a space and the unit, where the unit is "GB" from 1073741824
/// bytes on, "MB" from 1048576, "KB" from 1024 and "B" below; the number, in
/// tenths of the unit, is within half a tenth of `b` up to the rounding of `b`
/// to a double (a relative error of at most 2^-53).
pub proof fn lemma_memory_text_law(b: nat)
    ensures
        ({
            let t = memory_text(b);
            let size: nat = if b >= 1_073_741_824 {
                1_073_741_824
            } else if b >= 1_048_576 {
                1_048_576
            } else if b >= 1024 {
                1024
            } else {
                1
            };
            let sym = if b >= 1_073_741_824 {
                seq!['G', 'B']
            } else if b >= 1_048_576 {
                seq!['M', 'B']
            } else if b >= 1024 {
                seq!['K', 'B']
            } else {
                seq!['B']
            };
            let body = t.subrange(0, t.len() - sym.len() - 1);
            let shown = shown_value(body) * size;
            &&& t == body + seq![' '] + sym
            &&& has_decimal_shape(body, 1)
            &&& no_leading_zero(body, 1)
            &&& pow2(53) * shown <= pow2(53) * (10 * b) + pow2(52) * size + 10 * b
            &&& pow2(53) * (10 * b) <= pow2(53) * shown + pow2(52) * size + 10 * b
        }),
{
    lemma_pow2_values();
    lemma_round_relative(b);
    let v = as_double(b);
    let two53 = pow2(53);
    assert(two53 * v <= (two53 + 1) * b);
    assert((two53 - 1) * b <= two53 * v);
    if b < significand_limit() {
        lemma_as_double_exact(b);
    } else {
        assert(v >= 1_073_741_824) by (nonlinear_arith)
            requires
                (two53 - 1) * b <= two53 * v,
                b >= 9_007_199_254_740_992,
                two53 == 9_007_199_254_740_992,
        ;
    }
    let unit = memory_unit_for(v);
    let size = unit.size();
    let q = round_half_even(10 * v, size);
    lemma_round_half_even_nearest(10 * v, size);
    lemma_fixed_point_shown(q, 1);
    let t = memory_text(b);
    let body = t.subrange(0, t.len() - unit.symbol().len() - 1);
    assert(body =~= fixed_point(q, 1));
    assert(t =~= body + seq![' '] + unit.symbol());
    assert(two53 * (q * size) <= two53 * (10 * b) + pow2(52) * size + 10 * b) by (nonlinear_arith)
        requires
            2 * q * size <= 2 * (10 * v) + size,
            two53 * v <= (two53 + 1) * b,
            two53 == 2 * pow2(52),
    ;
    assert(two53 * (10 * b) <= two53 * (q * size) + pow2(52) * size + 10 * b) by (nonlinear_arith)
        requires
            2 * (10 * v) <= (2 * q + 1) * size,
            (two53 - 1) * b <= two53 * v,
            two53 == 2 * pow2(52),
    ;
}

/// With a width, the memory text is right-aligned: spaces in front of the
/// unpadded text up to the width, and the text unchanged when it is at least
/// that long.
pub proof fn lemma_memory_value_padding(b: nat, w: usize)
    ensures
        ({
            let t = memory_text(b);
            let padded = memory_value_text(b, Some(w));
            &&& padded.len() == if t.len() < w { w as nat } else { t.len() }
            &&& padded.subrange(padded.len() - t.len(), padded.len() as int) == t
            &&& forall|i: int| 0 <= i < padded.len() - t.len() ==> #[trigger] padded[i] == ' '
        }),
        memory_value_text(b, None) == memory_text(b),
{
    lemma_pad_left(memory_text(b), w as nat);
}

} // verus!
