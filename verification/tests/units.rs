use hyperfine::util::decimal::{pow10_u128, push_fixed_point, round_div};
use hyperfine::util::units::{Second, Unit};

#[test]
fn rounding_is_to_nearest_with_ties_to_even() {
    assert_eq!(round_div(24, 10), 2);
    assert_eq!(round_div(25, 10), 2);
    assert_eq!(round_div(26, 10), 3);
    assert_eq!(round_div(35, 10), 4);
    assert_eq!(round_div(7, 1), 7);
    assert_eq!(round_div(u128::MAX, 2), 1u128 << 127);
}

#[test]
fn powers_of_ten() {
    assert_eq!(pow10_u128(0), 1);
    assert_eq!(pow10_u128(3), 1000);
    assert_eq!(pow10_u128(9), 1_000_000_000);
    assert_eq!(pow10_u128(38), 10u128.pow(38));
}

#[test]
fn fixed_point_text() {
    let mut s = String::from("x=");
    push_fixed_point(&mut s, 12345, 3);
    assert_eq!(s, "x=12.345");
    let mut s = String::new();
    push_fixed_point(&mut s, 7, 3);
    assert_eq!(s, "0.007");
    let mut s = String::new();
    push_fixed_point(&mut s, 120, 0);
    assert_eq!(s, "120");
}

#[test]
fn unit_symbols_and_values() {
    assert_eq!(Unit::Second.short_name(), "s");
    assert_eq!(Unit::MilliSecond.short_name(), "ms");
    assert_eq!(Unit::MicroSecond.short_name(), "µs");
    let d = Second::from_bits(0.001234567f64.to_bits());
    assert_eq!(Unit::Second.format(d), "0.001");
    assert_eq!(Unit::MilliSecond.format(d), "1.2");
    assert_eq!(Unit::MicroSecond.format(d), "1234.6");
    assert_eq!(Unit::Second.format(Second::from_bits(2.0f64.to_bits())), "2.000");
    assert_eq!(Unit::MicroSecond.format(Second::from_bits((-0.0f64).to_bits())), "-0.0");
}
