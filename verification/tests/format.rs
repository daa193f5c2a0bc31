use hyperfine::output::format::{format_duration, format_duration_unit, format_memory, format_memory_value};
use hyperfine::util::units::{Second, Unit};

fn secs(seconds: f64) -> Second {
    Second::from_bits(seconds.to_bits())
}

#[test]
fn test_format_duration_unit_basic() {
    let (out_str, out_unit) = format_duration_unit(secs(1.3), None);

    assert_eq!("1.300 s", out_str);
    assert_eq!(Unit::Second, out_unit);

    let (out_str, out_unit) = format_duration_unit(secs(1.0), None);

    assert_eq!("1.000 s", out_str);
    assert_eq!(Unit::Second, out_unit);

    let (out_str, out_unit) = format_duration_unit(secs(0.999), None);

    assert_eq!("999.0 ms", out_str);
    assert_eq!(Unit::MilliSecond, out_unit);

    let (out_str, out_unit) = format_duration_unit(secs(0.0005), None);

    assert_eq!("500.0 µs", out_str);
    assert_eq!(Unit::MicroSecond, out_unit);

    let (out_str, out_unit) = format_duration_unit(secs(0.0), None);

    assert_eq!("0.0 µs", out_str);
    assert_eq!(Unit::MicroSecond, out_unit);

    let (out_str, out_unit) = format_duration_unit(secs(1000.0), None);

    assert_eq!("1000.000 s", out_str);
    assert_eq!(Unit::Second, out_unit);
}

#[test]
fn test_format_duration_unit_with_unit() {
    let (out_str, out_unit) = format_duration_unit(secs(1.3), Some(Unit::Second));

    assert_eq!("1.300 s", out_str);
    assert_eq!(Unit::Second, out_unit);

    let (out_str, out_unit) = format_duration_unit(secs(1.3), Some(Unit::MilliSecond));

    assert_eq!("1300.0 ms", out_str);
    assert_eq!(Unit::MilliSecond, out_unit);

    let (out_str, out_unit) = format_duration_unit(secs(1.3), Some(Unit::MicroSecond));

    assert_eq!("1300000.0 µs", out_str);
    assert_eq!(Unit::MicroSecond, out_unit);
}

#[test]
fn test_format_memory() {
    assert_eq!(format_memory(0), "0.0 B");
    assert_eq!(format_memory(512), "512.0 B");
    assert_eq!(format_memory(1023), "1023.0 B");
    assert_eq!(format_memory(1024), "1.0 KB");
    assert_eq!(format_memory(1536), "1.5 KB");
    assert_eq!(format_memory(1024 * 1024), "1.0 MB");
    assert_eq!(format_memory(44_564_480), "42.5 MB");
    assert_eq!(format_memory(1024 * 1024 * 1024), "1.0 GB");
    assert_eq!(format_memory(2 * 1024 * 1024 * 1024), "2.0 GB");
}

fn float_memory(bytes: u64) -> String {
    let b = bytes as f64;
    let (value, name) = if b >= 1024.0 * 1024.0 * 1024.0 {
        (b / (1024.0 * 1024.0 * 1024.0), "GB")
    } else if b >= 1024.0 * 1024.0 {
        (b / (1024.0 * 1024.0), "MB")
    } else if b >= 1024.0 {
        (b / 1024.0, "KB")
    } else {
        (b, "B")
    };
    format!("{:.1} {}", value, name)
}

#[test]
fn memory_agrees_with_floating_point_formatting() {
    let mut samples: Vec<u64> = Vec::new();
    for b in 0..5000u64 {
        samples.push(b);
    }
    for k in 0..64u32 {
        let p = 1u64 << k;
        for d in 0..3u64 {
            samples.push(p.saturating_add(d));
            samples.push(p.saturating_sub(d));
            samples.push(p.saturating_mul(3).saturating_add(d));
        }
    }
    let mut x: u64 = 0x9E37_79B9_7F4A_7C15;
    for _ in 0..20000 {
        x ^= x << 13;
        x ^= x >> 7;
        x ^= x << 17;
        samples.push(x >> (x % 60));
    }
    samples.push(u64::MAX);
    samples.push((1u64 << 53) + 1);
    samples.push((1u64 << 54) + 2);
    samples.push((1u64 << 54) + 6);
    for b in samples {
        assert_eq!(format_memory(b), float_memory(b), "bytes = {}", b);
    }
}

#[test]
fn memory_ties_round_to_even() {
    assert_eq!(format_memory(1280), "1.2 KB");
    assert_eq!(format!("{:.1}", 1.25f64), "1.2");
    assert_eq!(format_memory(1280 + 1024), "2.2 KB");
    assert_eq!(format!("{:.1}", 2.25f64), "2.2");
    assert_eq!(format_memory(1024 + 384), "1.4 KB");
    assert_eq!(format!("{:.1}", 1.375f64), "1.4");
}

#[test]
fn memory_padding_right_aligns() {
    assert_eq!(format_memory_value(1536, Some(10)), "    1.5 KB");
    assert_eq!(format_memory_value(1536, Some(6)), "1.5 KB");
    assert_eq!(format_memory_value(1536, Some(2)), "1.5 KB");
    assert_eq!(format_memory_value(1536, Some(0)), "1.5 KB");
    assert_eq!(format_memory_value(1536, None), format_memory(1536));
    assert_eq!(format_memory_value(0, Some(8)), format!("{:>8}", "0.0 B"));
}

fn float_duration(f: f64) -> String {
    if f < 0.001 {
        format!("{:.1} µs", f * 1e6)
    } else if f < 1.0 {
        format!("{:.1} ms", f * 1e3)
    } else {
        format!("{:.3} s", f)
    }
}

#[test]
fn duration_thresholds() {
    assert_eq!(format_duration(secs(0.000999999), None), "1000.0 µs");
    assert_eq!(format_duration(secs(0.001), None), "1.0 ms");
    assert_eq!(format_duration(secs(0.999999999), None), "1000.0 ms");
    assert_eq!(format_duration(secs(1.0), None), "1.000 s");
    assert_eq!(format_duration(secs(5e-9), Some(Unit::Second)), "0.000 s");
}

#[test]
fn duration_rounding() {
    assert_eq!(format_duration(secs(0.01235), None), "12.3 ms");
    assert_eq!(format!("{:.1}", 0.01235f64 * 1e3), "12.3");
    assert_eq!(format_duration(secs(1.234567891), None), "1.235 s");
    assert_eq!(format_duration(secs(0.012345678), None), "12.3 ms");
    assert_eq!(format_duration(secs(0.0625), Some(Unit::Second)), "0.062 s");
    assert_eq!(format_duration(secs(2.5e-7), None), "0.2 µs");
}

#[test]
fn special_and_negative_durations() {
    assert_eq!(format_duration(secs(-1e-8), None), "-0.0 µs");
    assert_eq!(format_duration(secs(-0.0), None), "-0.0 µs");
    assert_eq!(format_duration(secs(-2.5), None), "-2500000.0 µs");
    assert_eq!(format_duration(secs(-2.5), Some(Unit::Second)), "-2.500 s");
    assert_eq!(format_duration(secs(f64::NAN), None), "NaN s");
    assert_eq!(format_duration(secs(f64::INFINITY), None), "inf s");
    assert_eq!(format_duration(secs(f64::NEG_INFINITY), None), "-inf µs");
    assert_eq!(format_duration(secs(f64::MAX), Some(Unit::MicroSecond)), "inf µs");
    assert_eq!(format_duration(secs(f64::MAX), None), float_duration(f64::MAX));
    assert_eq!(format_duration(secs(f64::MIN_POSITIVE / 8.0), None), "0.0 µs");
}

#[test]
fn duration_agrees_with_floating_point_formatting() {
    let mut x: u64 = 0x1234_5678_9ABC_DEF1;
    for i in 0..40000 {
        x ^= x << 13;
        x ^= x >> 7;
        x ^= x << 17;
        // spread over all bit patterns, and densely over everyday magnitudes
        let f = if i % 2 == 0 {
            f64::from_bits(x)
        } else {
            (x >> 11) as f64 / (1u64 << (x % 64)) as f64
        };
        assert_eq!(format_duration(secs(f), None), float_duration(f), "bits {:#x}", f.to_bits());
        for unit in [Unit::Second, Unit::MilliSecond, Unit::MicroSecond] {
            let expected = match unit {
                Unit::Second => format!("{:.3} s", f),
                Unit::MilliSecond => format!("{:.1} ms", f * 1e3),
                Unit::MicroSecond => format!("{:.1} µs", f * 1e6),
            };
            assert_eq!(format_duration(secs(f), Some(unit)), expected, "bits {:#x}", f.to_bits());
        }
    }
}
