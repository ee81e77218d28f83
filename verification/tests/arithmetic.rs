//! Single-precision arithmetic against the machine's.

use pattern_classifier::notation::to_two_decimals;
use pattern_classifier::single::Single;
use pattern_classifier::stats;

fn single(x: f32) -> Single {
    Single::from_bits(x.to_bits())
}

fn float(x: Single) -> f32 {
    f32::from_bits(x.bits)
}

fn same(x: Single, y: f32) -> bool {
    x.bits == y.to_bits() || (x.is_nan() && y.is_nan())
}

/// Bit patterns at and around the edges of the format.
fn edges() -> Vec<f32> {
    let mut list = Vec::new();
    for bits in [
        0x0000_0000u32, 0x0000_0001, 0x0000_0002, 0x007f_ffff, 0x0080_0000, 0x0080_0001,
        0x00ff_ffff, 0x0100_0000, 0x3586_37bd, 0x3eff_ffff, 0x3f00_0000, 0x3f7f_ffff,
        0x3f80_0000, 0x3f80_0001, 0x4000_0000, 0x4b7f_ffff, 0x4b80_0000, 0x5f80_0000,
        0x7f7f_fffe, 0x7f7f_ffff, 0x7f80_0000, 0x7fc0_0000, 0x7f80_0001,
    ] {
        list.push(f32::from_bits(bits));
        list.push(f32::from_bits(bits | 0x8000_0000));
    }
    list
}

/// A reproducible sequence of bit patterns.
fn patterns(count: usize) -> Vec<f32> {
    let mut state: u64 = 0x9e37_79b9_7f4a_7c15;
    let mut list = Vec::new();
    for i in 0..count {
        state = state.wrapping_mul(6364136223846793005).wrapping_add(1442695040888963407);
        let bits = (state >> 32) as u32;
        // Every other number has an ordinary size.
        if i % 2 == 0 {
            list.push(f32::from_bits(bits));
        } else {
            list.push(f32::from_bits((bits & 0x83ff_ffff) | 0x3c00_0000));
        }
    }
    list
}

fn check_pair(a: f32, b: f32) {
    let (x, y) = (single(a), single(b));
    assert!(same(x.plus(y), a + b), "{a:e} + {b:e}");
    assert!(same(x.minus(y), a - b), "{a:e} - {b:e}");
    assert!(same(x.times(y), a * b), "{a:e} * {b:e}");
    assert!(same(x.over(y), a / b), "{a:e} / {b:e}");
    assert_eq!(x.is_less(y), a < b, "{a:e} < {b:e}");
    let greater = a.max(b);
    assert!(
        same(x.max(y), greater) || (float(x.max(y)) == 0.0 && greater == 0.0),
        "max {a:e} {b:e}"
    );
}

fn check_one(a: f32) {
    let x = single(a);
    assert!(same(x.sqrt(), a.sqrt()), "sqrt {a:e}");
    assert!(same(x.abs(), a.abs()), "abs {a:e}");
    assert!(same(x.negate(), -a), "neg {a:e}");
    assert!(same(x.clamp(single(0.0), single(1.0)), a.clamp(0.0, 1.0)), "clamp {a:e}");
    assert_eq!(x.is_nan(), a.is_nan());
    assert_eq!(to_two_decimals(x), format!("{a:.2}"));
}

#[test]
fn edge_cases_agree() {
    for a in edges() {
        check_one(a);
        for b in edges() {
            check_pair(a, b);
        }
    }
}

#[test]
fn many_pairs_agree() {
    let list = patterns(40_000);
    for pair in list.windows(2) {
        check_one(pair[0]);
        check_pair(pair[0], pair[1]);
    }
}

#[test]
fn close_pairs_agree() {
    for a in patterns(4_000) {
        for step in [0u32, 1, 2, 7, 1 << 20] {
            let b = f32::from_bits(a.to_bits().wrapping_add(step));
            check_pair(a, b);
            check_pair(a, -b);
        }
    }
}

#[test]
fn sums_of_unequal_sizes_agree() {
    for shift in 0..160u32 {
        for m in [0x80_0000u32, 0x80_0001, 0xff_ffff] {
            let big = f32::from_bits(0x6000_0000 | (m & 0x7f_ffff));
            let exponent = 192u32.saturating_sub(shift);
            let small = f32::from_bits((exponent << 23) | (m & 0x7f_ffff));
            check_pair(big, small);
            check_pair(-big, small);
        }
    }
}

#[test]
fn whole_numbers_agree() {
    for n in [
        0u64, 1, 2, 3, 9, 10, 30, 31, 40, 0xff_ffff, 0x100_0000, 0x100_0001, 0x100_0002,
        0x100_0003, 0x1ff_ffff, 0xffff_ffff, 1 << 40, (1 << 40) + 1, u64::MAX - 1, u64::MAX,
    ] {
        assert!(same(Single::from_whole(n), n as f32), "{n}");
    }
}

#[test]
fn doubles_are_narrowed() {
    for x in [
        0.0f64, -0.0, 1.0, -1.0, 0.1, 1.0 / 3.0, 0.999_999_99, 1e-40, 1e-46, 7e-46, 1.5e-45, 1e39,
        3.4028235e38, 3.4028236e38, 3.402_823_567e38, f64::MAX, f64::MIN_POSITIVE, f64::INFINITY,
        f64::NEG_INFINITY, f64::NAN, 5e-324, 1.000_000_059_604_644_8, 1.000_000_059_604_644_9,
    ] {
        assert!(same(Single::from_double(x.to_bits()), x as f32), "{x:e}");
    }
    for a in patterns(4_000) {
        let x = a as f64 * 1.000_000_03;
        assert!(same(Single::from_double(x.to_bits()), x as f32), "{x:e}");
    }
}

#[test]
fn constants_have_their_values() {
    let value = f32::from_bits;
    assert_eq!(stats::MIN_SAMPLES, 30);
    assert_eq!(value(stats::Z_THRESHOLD), 2.5);
    assert_eq!(value(stats::FIELD_THRESHOLD), 0.70);
    assert_eq!(value(stats::HITL_THRESHOLD), 0.70);
    assert_eq!(value(stats::MSG_SIGNAL_WEIGHT), 0.60);
    assert_eq!(value(stats::EPSILON), 1e-6);
    assert_eq!(stats::WINDOW_N, 20);
    assert_eq!(value(stats::DRIFT_WARN), 0.30);
    assert_eq!(value(stats::SLOPE_WARN), 0.02);
    assert_eq!(stats::HISTORY_LEN, 10);
    assert_eq!(value(stats::HALF), 0.5);
    assert_eq!(value(stats::MINUS_HALF), -0.5);
    assert_eq!(value(stats::REGIME_CHANGE_CONFIDENCE), 0.88);
    assert_eq!(value(stats::TREND_SHIFT_CONFIDENCE), 0.75);
    assert_eq!(value(stats::EMERGING_CONFIDENCE), 0.60);
    assert_eq!(value(stats::STABLE_CONFIDENCE), 0.95);
    assert_eq!(value(pattern_classifier::single::ONE), 1.0);
    assert_eq!(pattern_classifier::solutions::MAX_SOLUTIONS, 5);
}

#[test]
fn two_decimals_round_to_the_nearest_hundredth() {
    for (x, text) in [
        (0.0, "0.00"), (-0.0, "-0.00"), (0.7, "0.70"), (0.125, "0.12"), (0.375, "0.38"),
        (0.625, "0.62"), (0.875, "0.88"), (0.994, "0.99"), (1.0, "1.00"), (0.004, "0.00"),
        (0.006, "0.01"), (-0.126, "-0.13"), (12345.678, "12345.68"), (9.999, "10.00"),
    ] {
        assert_eq!(to_two_decimals(single(x)), text);
        assert_eq!(format!("{x:.2}"), text);
    }
    assert_eq!(to_two_decimals(single(f32::NAN)), "NaN");
    assert_eq!(to_two_decimals(single(f32::INFINITY)), "inf");
    assert_eq!(to_two_decimals(single(f32::NEG_INFINITY)), "-inf");
    assert_eq!(to_two_decimals(single(f32::MAX)), format!("{:.2}", f32::MAX));
}
