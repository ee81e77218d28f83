//! Running statistics, confidences and drift.

use crate::single::{
    absolute, clamped, difference, greater_of, less, product, quotient, root, sum, whole,
    Single, ONE,
};
use vstd::prelude::*;

verus! {

/// Messages of a subject before the classifier makes assertions.
pub const MIN_SAMPLES: u64 = 30;

/// Bit pattern of 2.5: the Z-score above which a message is anomalous.
pub const Z_THRESHOLD: u32 = 0x4020_0000;

/// Bit pattern of 0.70: the similarity below which a field is anomalous.
pub const FIELD_THRESHOLD: u32 = 0x3f33_3333;

/// Bit pattern of 0.70: the confidence below which a human is asked.
pub const HITL_THRESHOLD: u32 = 0x3f33_3333;

/// Bit pattern of 0.60: weight of the message signal in the combined confidence.
pub const MSG_SIGNAL_WEIGHT: u32 = 0x3f19_999a;

/// Bit pattern of 1e-6: the least standard deviation.
pub const EPSILON: u32 = 0x3586_37bd;

/// Bundles per sliding window.
pub const WINDOW_N: usize = 20;

/// Bit pattern of 0.30: the drift above which it is high.
pub const DRIFT_WARN: u32 = 0x3e99_999a;

/// Bit pattern of 0.02: the drift rate above which drift accelerates.
pub const SLOPE_WARN: u32 = 0x3ca3_d70a;

/// Drift values kept for the regression.
pub const HISTORY_LEN: usize = 10;

/// Bit pattern of 0.5.
pub const HALF: u32 = 0x3f00_0000;

/// Bit pattern of -0.5.
pub const MINUS_HALF: u32 = 0xbf00_0000;

/// Bit pattern of 0.88.
pub const REGIME_CHANGE_CONFIDENCE: u32 = 0x3f61_47ae;

/// Bit pattern of 0.75.
pub const TREND_SHIFT_CONFIDENCE: u32 = 0x3f40_0000;

/// Bit pattern of 0.60.
pub const EMERGING_CONFIDENCE: u32 = 0x3f19_999a;

/// Bit pattern of 0.95.
pub const STABLE_CONFIDENCE: u32 = 0x3f73_3333;

/// One step of Welford's accumulation: the new mean and the new sum of squared
/// deviations, with `n` samples including `x`.
pub open spec fn welford(n: u64, mean: Single, m2: Single, x: Single) -> (Single, Single) {
    let delta = difference(x, mean);
    let new_mean = sum(mean, quotient(delta, whole(n as nat)));
    (new_mean, sum(m2, product(delta, difference(x, new_mean))))
}

/// One step of Welford's accumulation; `n` already counts the new value.
pub fn welford_update(n: u64, mean: Single, m2: Single, new_value: Single) -> (r: (Single, Single))
    ensures
        r == welford(n, mean, m2, new_value),
{
    let delta = new_value.minus(mean);
    let new_mean = mean.plus(delta.over(Single::from_whole(n)));
    let delta2 = new_value.minus(new_mean);
    (new_mean, m2.plus(delta.times(delta2)))
}

/// Distance of `score` from the mean in standard deviations; zero with fewer than
/// two samples.
#[verifier::opaque]
pub open spec fn z_score(score: Single, mean: Single, m2: Single, n: u64) -> Single {
    if n < 2 {
        Single { bits: 0 }
    } else {
        let deviation = root(quotient(m2, whole((n - 1) as nat)));
        quotient(
            absolute(difference(score, mean)),
            greater_of(deviation, Single { bits: EPSILON }),
        )
    }
}

/// Z-score of `score` relative to the running distribution.
pub fn compute_z_score(score: Single, mean: Single, m2: Single, n: u64) -> (z: Single)
    ensures
        z == z_score(score, mean, m2, n),
        n < 2 ==> z.bits == 0,
{
    proof {
        reveal(z_score);
    }
    if n < 2 {
        return Single { bits: 0 };
    }
    let variance = m2.over(Single::from_whole(n - 1));
    let stddev = variance.sqrt().max(Single { bits: EPSILON });
    score.minus(mean).abs().over(stddev)
}

/// The exponent `-z²/2` of the confidence curve.
pub open spec fn decay_exponent(z: Single) -> Single {
    product(product(Single { bits: MINUS_HALF }, z), z)
}

/// The exponent whose exponential [`z_to_confidence`] takes.
pub fn z_to_exponent(z: Single) -> (r: Single)
    ensures
        r == decay_exponent(z),
{
    Single { bits: MINUS_HALF }.times(z).times(z)
}

/// Confidence of a Z-score, given the exponential of [`z_to_exponent`].
pub fn z_to_confidence(decay: Single) -> (c: Single)
    ensures
        c == difference(Single { bits: ONE }, decay),
{
    Single { bits: ONE }.minus(decay)
}

/// Clamped to the range from zero to one.
pub open spec fn unit_clamped(x: Single) -> Single {
    clamped(x, Single { bits: 0 }, Single { bits: ONE })
}

/// Weighted mean of the message signal and the field signal.
#[verifier::opaque]
pub open spec fn combined(msg_confidence: Single, fraction: Single) -> Single {
    let weight = Single { bits: MSG_SIGNAL_WEIGHT };
    unit_clamped(
        sum(
            product(weight, msg_confidence),
            product(difference(Single { bits: ONE }, weight), fraction),
        ),
    )
}

/// Combined confidence of the message-level and field-level signals.
pub fn combined_confidence(msg_confidence: Single, field_anomaly_fraction: Single) -> (c: Single)
    ensures
        c == combined(msg_confidence, field_anomaly_fraction),
        msg_confidence.nan() || field_anomaly_fraction.nan() ==> c.nan(),
        c.nan() || 0 <= c.order() <= ONE,
{
    let weight = Single { bits: MSG_SIGNAL_WEIGHT };
    let one = Single { bits: ONE };
    proof {
        reveal(combined);
    }
    weight.times(msg_confidence).plus(one.minus(weight).times(field_anomaly_fraction)).clamp(
        Single { bits: 0 },
        one,
    )
}

/// Sums of a regression over positions: of x, y, xy and x².
pub open spec fn regression_sums(values: Seq<Single>) -> (Single, Single, Single, Single)
    decreases values.len(),
{
    if values.len() == 0 {
        (Single { bits: 0 }, Single { bits: 0 }, Single { bits: 0 }, Single { bits: 0 })
    } else {
        let s = regression_sums(values.drop_last());
        let x = whole((values.len() - 1) as nat);
        let y = values.last();
        (sum(s.0, x), sum(s.1, y), sum(s.2, product(x, y)), sum(s.3, product(x, x)))
    }
}

/// Slope of the least-squares line through `values` over their positions; zero
/// with fewer than two values.
#[verifier::opaque]
pub open spec fn slope(values: Seq<Single>) -> Single {
    if values.len() < 2 {
        Single { bits: 0 }
    } else {
        let n = whole(values.len());
        let s = regression_sums(values);
        let denominator = difference(product(n, s.3), product(s.0, s.0));
        if less(absolute(denominator), Single { bits: EPSILON }) {
            Single { bits: 0 }
        } else {
            quotient(difference(product(n, s.2), product(s.0, s.1)), denominator)
        }
    }
}

/// Slope of a linear regression over `values` by position.
pub fn linear_slope(values: &[Single]) -> (r: Single)
    ensures
        r == slope(values@),
        values@.len() < 2 ==> r.bits == 0,
{
    proof {
        reveal(slope);
    }
    let n = values.len();
    if n < 2 {
        return Single { bits: 0 };
    }
    let n_f = Single::from_whole(n as u64);
    let mut sum_x = Single { bits: 0 };
    let mut sum_y = Single { bits: 0 };
    let mut sum_xy = Single { bits: 0 };
    let mut sum_x2 = Single { bits: 0 };
    let mut i: usize = 0;
    assert(values@.take(0) =~= Seq::empty());
    while i < n
        invariant
            i <= n == values@.len(),
            (sum_x, sum_y, sum_xy, sum_x2) == regression_sums(values@.take(i as int)),
        decreases n - i,
    {
        assert(values@.take(i + 1).drop_last() =~= values@.take(i as int));
        let x = Single::from_whole(i as u64);
        let y = values[i];
        sum_x = sum_x.plus(x);
        sum_y = sum_y.plus(y);
        sum_xy = sum_xy.plus(x.times(y));
        sum_x2 = sum_x2.plus(x.times(x));
        i = i + 1;
    }
    assert(values@.take(n as int) =~= values@);
    let denom = n_f.times(sum_x2).minus(sum_x.times(sum_x));
    if denom.abs().is_less(Single { bits: EPSILON }) {
        return Single { bits: 0 };
    }
    n_f.times(sum_xy).minus(sum_x.times(sum_y)).over(denom)
}

/// Label and confidence of a drift and its rate.
pub open spec fn drift_class(drift: Single, rate: Single) -> (Seq<char>, Single) {
    let high = less(Single { bits: DRIFT_WARN }, drift);
    let accelerating = less(Single { bits: SLOPE_WARN }, rate);
    if high && accelerating {
        ("regime_change"@, Single { bits: REGIME_CHANGE_CONFIDENCE })
    } else if high {
        ("gradual_trend_shift"@, Single { bits: TREND_SHIFT_CONFIDENCE })
    } else if accelerating {
        ("emerging_trend"@, Single { bits: EMERGING_CONFIDENCE })
    } else {
        ("temporal_normal"@, Single { bits: STABLE_CONFIDENCE })
    }
}

/// Classifies drift and drift rate.
pub fn classify_drift(drift: Single, drift_rate: Single) -> (r: (&'static str, Single))
    ensures
        (r.0@, r.1) == drift_class(drift, drift_rate),
{
    let drift_warn = Single { bits: DRIFT_WARN };
    let slope_warn = Single { bits: SLOPE_WARN };
    let high = drift_warn.is_less(drift);
    let accelerating = slope_warn.is_less(drift_rate);
    if high && accelerating {
        ("regime_change", Single { bits: REGIME_CHANGE_CONFIDENCE })
    } else if high {
        ("gradual_trend_shift", Single { bits: TREND_SHIFT_CONFIDENCE })
    } else if accelerating {
        ("emerging_trend", Single { bits: EMERGING_CONFIDENCE })
    } else {
        ("temporal_normal", Single { bits: STABLE_CONFIDENCE })
    }
}

}
