//! Ranges of scores, confidences and drifts.

use crate::classify::{anomaly_count, anomaly_fraction, conclusion, signal_of, warming, Signal};
use crate::encode::superposition;
use crate::rounding::{
    lemma_rounded_exact, lemma_rounded_monotone, lemma_rounded_scaled, rounded, INFINITE,
};
use crate::single::{
    absolute, at_least, difference, greater_of, lemma_exact, lemma_magnitude_order, lemma_opposite,
    less, opposite, product, quotient, root, sum, whole, Single, ONE,
};
use crate::solutions::complement;
use crate::stats::{
    combined, decay_exponent, drift_class, slope, unit_clamped, z_score, EPSILON, HITL_THRESHOLD,
    MINUS_HALF, MSG_SIGNAL_WEIGHT,
};
use crate::temporal::{drift_between, drift_result, warming_result};
use crate::vsa::similarity_of;
use vstd::arithmetic::power2::{lemma_pow2_pos, pow2};
use vstd::prelude::*;

verus! {

broadcast use crate::rounding::lemma_rounded_limit;

/// From zero to one.
pub open spec fn in_unit(x: Single) -> bool {
    at_least(x, Single { bits: 0 }) && at_least(Single { bits: ONE }, x)
}

/// Not negative.
pub open spec fn not_negative(x: Single) -> bool {
    at_least(x, Single { bits: 0 })
}

pub(crate) proof fn lemma_one()
    ensures
        (Single { bits: ONE }).finite(),
        !(Single { bits: ONE }).negative(),
        (Single { bits: ONE }).magnitude() == ONE,
        (Single { bits: ONE }).units() == pow2(149),
        rounded(pow2(149), 1) == ONE,
{
    let one = Single { bits: ONE };
    vstd::arithmetic::power2::lemma2_to64();
    vstd::arithmetic::power2::lemma_pow2_adds(23, 126);
    assert(one.place() == 126);
    assert(one.units() == 0x80_0000 * pow2(126));
    lemma_exact(one);
}

/// A rounded magnitude never exceeds the encoding of infinity.
proof fn lemma_rounded_bound(a: nat, b: nat)
    ensures
        rounded(a, b) <= INFINITE,
{
}

/// One less a number between zero and one is between zero and one.
pub proof fn lemma_unit_difference(d: Single)
    requires
        in_unit(d),
    ensures
        in_unit(difference(Single { bits: ONE }, d)),
{
    let one = Single { bits: ONE };
    let e = opposite(d);
    lemma_one();
    lemma_magnitude_order(d, one);
    assert(e.magnitude() == d.magnitude());
    lemma_opposite(d);
    let total = one.value() + e.value();
    if d.negative() {
        assert(d.magnitude() == 0);
        assert(d.units() == 0 * pow2(0)) by {
            assert(d.place() == 0);
        }
        assert(0 * pow2(0) == 0) by (nonlinear_arith);
    }
    assert(0 <= total <= pow2(149));
    if total > 0 {
        lemma_rounded_monotone(total as nat, 1, pow2(149), 1);
    }
}

/// The confidence of a Z-score lies between zero and one for every exponential
/// between zero and one.
pub proof fn lemma_signal_range(z: Single, decay: Single)
    requires
        in_unit(decay),
    ensures
        in_unit(signal_of(z, decay).confidence),
{
    reveal(signal_of);
    lemma_unit_difference(decay);
}

/// The exponent of the confidence curve is never positive.
pub proof fn lemma_exponent_not_positive(z: Single)
    requires
        !z.nan(),
    ensures
        at_least(Single { bits: 0 }, decay_exponent(z)),
{
    let half = Single { bits: MINUS_HALF };
    let p = product(half, z);
    lemma_rounded_bound(half.units() * z.units(), pow2(149));
    lemma_rounded_bound(p.units() * z.units(), pow2(149));
    assert(p.negative() == !z.negative());
    assert(!p.nan());
    assert(z.infinite() ==> p.infinite());
    assert(p.infinite() && z.zero() ==> false) by {
        if p.infinite() && z.zero() {
            assert(z.units() == 0) by {
                assert(z.place() == 0);
                assert(0 * pow2(0) == 0) by (nonlinear_arith);
            }
            assert(half.units() * z.units() == 0) by (nonlinear_arith)
                requires z.units() == 0;
            lemma_pow2_pos(149);
            lemma_rounded_zero(pow2(149));
        }
    }
}

proof fn lemma_rounded_zero(b: nat)
    requires
        b > 0,
    ensures
        rounded(0, b) == 0,
{
    lemma_rounded_scaled(0, 1, b);
    assert(0 * b == 0 && 1 * b == b) by (nonlinear_arith);
    lemma_rounded_exact(0, 0);
    assert(0 * pow2(0) == 0) by (nonlinear_arith);
}

/// A Z-score is never negative.
pub proof fn lemma_z_score_range(score: Single, mean: Single, m2: Single, n: u64)
    ensures
        ({
            let z = z_score(score, mean, m2, n);
            z.nan() || not_negative(z)
        }),
{
    reveal(z_score);
    if n >= 2 {
        let a = absolute(difference(score, mean));
        let deviation = root(quotient(m2, whole((n - 1) as nat)));
        let b = greater_of(deviation, Single { bits: EPSILON });
        lemma_rounded_bound(a.units() * pow2(149), b.units());
        assert(!a.negative());
        assert(!b.negative());
    }
}

/// The Z-score of a score and a mean between minus one and one is finite, whatever the
/// spread.
pub proof fn lemma_z_score_finite(score: Single, mean: Single, m2: Single, n: u64)
    requires
        score.magnitude() <= ONE,
        mean.magnitude() <= ONE,
    ensures
        z_score(score, mean, m2, n).finite(),
        not_negative(z_score(score, mean, m2, n)),
{
    reveal(z_score);
    if n >= 2 {
        let a = absolute(difference(score, mean));
        let deviation = root(quotient(m2, whole((n - 1) as nat)));
        let b = greater_of(deviation, Single { bits: EPSILON });
        lemma_unit_distance(score, mean);
        assert(a.units() == difference(score, mean).units());
        lemma_z_score_range(score, mean, m2, n);
        assert(!b.nan() && !b.negative() && b.magnitude() >= EPSILON);
        lemma_small_divisor(a, b);
    }
}

/// A quotient of a number of at most two by one that is not too small is finite.
proof fn lemma_small_divisor(a: Single, b: Single)
    requires
        a.finite(),
        a.units() <= pow2(150),
        !b.nan(),
        b.magnitude() >= EPSILON,
    ensures
        quotient(a, b).finite(),
{
    let epsilon = Single { bits: EPSILON };
    if b.finite() {
        let u = pow2(149);
        lemma_pow2_pos(149);
        lemma_pow2_pos(106);
        vstd::arithmetic::power2::lemma2_to64();
        vstd::arithmetic::power2::lemma_pow2_adds(23, 106);
        vstd::arithmetic::power2::lemma_pow2_adds(23, 147);
        vstd::arithmetic::power2::lemma_pow2_adds(170, 129);
        vstd::arithmetic::power2::lemma_pow2_adds(150, 149);
        assert(epsilon.place() == 106);
        assert(epsilon.units() == 0x86_37bd * pow2(106));
        lemma_magnitude_order(epsilon, b);
        assert(b.units() >= pow2(129));
        assert((a.units() * u) * 1 <= pow2(170) * b.units()) by (nonlinear_arith)
            requires
                a.units() <= pow2(150),
                pow2(150) * u == pow2(170) * pow2(129),
                b.units() >= pow2(129),
                u >= 0,
        ;
        lemma_rounded_exact(147, 0x80_0000);
        lemma_rounded_monotone(a.units() * u, b.units(), pow2(170), 1);
    }
}

/// The distance of two numbers between minus one and one is at most two.
pub(crate) proof fn lemma_unit_distance(x: Single, y: Single)
    requires
        x.magnitude() <= ONE,
        y.magnitude() <= ONE,
    ensures
        difference(x, y).finite(),
        difference(x, y).magnitude() <= 0x4000_0000,
        difference(x, y).units() <= pow2(150),
{
    let one = Single { bits: ONE };
    let two = Single { bits: 0x4000_0000 };
    let z = opposite(y);
    lemma_one();
    lemma_magnitude_order(x, one);
    lemma_magnitude_order(y, one);
    vstd::arithmetic::power2::lemma2_to64();
    vstd::arithmetic::power2::lemma_pow2_adds(1, 149);
    vstd::arithmetic::power2::lemma_pow2_adds(23, 127);
    assert(two.place() == 127);
    assert(two.units() == 0x80_0000 * pow2(127));
    lemma_opposite(y);
    lemma_exact(two);
    let total = x.value() + z.value();
    if total > 0 {
        lemma_rounded_monotone(total as nat, 1, pow2(150), 1);
    } else if total < 0 {
        lemma_rounded_monotone((-total) as nat, 1, pow2(150), 1);
    }
    lemma_magnitude_order(difference(x, y), two);
}

/// The drift between two windows is a number, and never negative; it is at most two
/// where the similarity of their bundles lies between minus one and one.
pub proof fn lemma_drift_range(
    now: Seq<(Seq<usize>, Seq<usize>)>,
    prev: Seq<(Seq<usize>, Seq<usize>)>,
)
    ensures
        not_negative(drift_between(now, prev)),
        match (superposition(now), superposition(prev)) {
            (Some(a), Some(b)) => similarity_of(a, b).magnitude() <= ONE ==> drift_between(
                now,
                prev,
            ).magnitude() <= 0x4000_0000,
            _ => drift_between(now, prev).bits == 0,
        },
{
    if let (Some(a), Some(b)) = (superposition(now), superposition(prev)) {
        if similarity_of(a, b).magnitude() <= ONE {
            lemma_unit_distance(Single { bits: ONE }, similarity_of(a, b));
        }
    }
}

proof fn lemma_clamped(x: Single)
    ensures
        unit_clamped(x).nan() || in_unit(unit_clamped(x)),
        unit_clamped(x).nan() <==> x.nan(),
{
}

/// Product and sum of finite numbers are not NaN.
proof fn lemma_finite_operations(x: Single, y: Single)
    requires
        x.finite(),
        y.finite(),
    ensures
        !product(x, y).nan(),
        !sum(x, y).nan(),
{
    lemma_rounded_bound(x.units() * y.units(), pow2(149));
    let total = x.value() + y.value();
    lemma_rounded_bound(total as nat, 1);
    lemma_rounded_bound((-total) as nat, 1);
}

/// A product with a factor of at most one is no greater than the other factor.
pub(crate) proof fn lemma_product_shrinks(w: Single, x: Single)
    requires
        w.finite(),
        w.magnitude() <= ONE,
        x.finite(),
    ensures
        product(w, x).finite(),
        product(w, x).magnitude() <= x.magnitude(),
{
    let one = Single { bits: ONE };
    lemma_one();
    lemma_magnitude_order(w, one);
    lemma_pow2_pos(149);
    let p = pow2(149);
    assert((w.units() * x.units()) * 1 <= x.units() * p) by (nonlinear_arith)
        requires w.units() <= p;
    lemma_rounded_monotone(w.units() * x.units(), p, x.units(), 1);
    lemma_exact(x);
}

/// A weighted sum of numbers between zero and one is not NaN.
proof fn lemma_weighted(v: Single, x: Single, w: Single, y: Single)
    requires
        in_unit(v),
        in_unit(x),
        in_unit(w),
        in_unit(y),
    ensures
        !sum(product(v, x), product(w, y)).nan(),
{
    lemma_product_shrinks(v, x);
    lemma_product_shrinks(w, y);
    lemma_finite_operations(product(v, x), product(w, y));
}

proof fn lemma_weights()
    ensures
        in_unit(Single { bits: MSG_SIGNAL_WEIGHT }),
        in_unit(difference(Single { bits: ONE }, Single { bits: MSG_SIGNAL_WEIGHT })),
{
    lemma_unit_difference(Single { bits: MSG_SIGNAL_WEIGHT });
}

/// A combined confidence lies between zero and one unless it is NaN, and it is not
/// NaN when both signals lie between zero and one.
pub proof fn lemma_combined_range(msg_confidence: Single, fraction: Single)
    ensures
        combined(msg_confidence, fraction).nan() || in_unit(combined(msg_confidence, fraction)),
        in_unit(msg_confidence) && in_unit(fraction) ==> in_unit(
            combined(msg_confidence, fraction),
        ),
{
    let weight = Single { bits: MSG_SIGNAL_WEIGHT };
    let rest = difference(Single { bits: ONE }, weight);
    let x = sum(product(weight, msg_confidence), product(rest, fraction));
    assert(combined(msg_confidence, fraction) == unit_clamped(x)) by {
        reveal(combined);
    }
    assert((unit_clamped(x).nan() || in_unit(unit_clamped(x))) && (unit_clamped(x).nan()
        <==> x.nan())) by {
        lemma_clamped(x);
    }
    if in_unit(msg_confidence) && in_unit(fraction) {
        assert(!x.nan()) by {
            lemma_weights();
            lemma_weighted(weight, msg_confidence, rest, fraction);
        }
    }
}

/// A complement lies between zero and one unless it is NaN.
pub proof fn lemma_complement_range(x: Single)
    ensures
        complement(x).nan() || in_unit(complement(x)),
{
    lemma_clamped(difference(Single { bits: ONE }, x));
}

pub(crate) proof fn lemma_anomaly_count_bound(results: Seq<(Seq<char>, Single, bool)>)
    ensures
        anomaly_count(results) <= results.len(),
    decreases results.len(),
{
    if results.len() > 0 {
        lemma_anomaly_count_bound(results.drop_last());
    }
}

/// A whole number of machine size is finite, and it is at least one unless zero.
pub(crate) proof fn lemma_whole(n: nat)
    requires
        n <= u64::MAX,
    ensures
        whole(n).finite(),
        !whole(n).negative(),
        n > 0 ==> whole(n).magnitude() >= ONE,
{
    lemma_one();
    lemma_pow2_pos(149);
    vstd::arithmetic::power2::lemma2_to64();
    vstd::arithmetic::power2::lemma_pow2_adds(64, 149);
    // Two to the power 64 has its own encoding.
    vstd::arithmetic::power2::lemma_pow2_adds(23, 190);
    lemma_rounded_exact(190, 0x80_0000);
    assert((n * pow2(149)) * 1 <= (0x80_0000 * pow2(190)) * 1) by (nonlinear_arith)
        requires
            n <= 0x1_0000_0000_0000_0000,
            0x80_0000 * pow2(190) == 0x1_0000_0000_0000_0000 * pow2(149),
    ;
    lemma_rounded_monotone(n * pow2(149), 1, 0x80_0000 * pow2(190), 1);
    if n > 0 {
        assert(pow2(149) * 1 <= (n * pow2(149)) * 1) by (nonlinear_arith)
            requires n > 0, pow2(149) > 0;
        lemma_rounded_monotone(pow2(149), 1, n * pow2(149), 1);
    }
}

/// The share of anomalous fields lies between zero and one.
pub proof fn lemma_fraction_range(results: Seq<(Seq<char>, Single, bool)>)
    requires
        results.len() <= u64::MAX,
    ensures
        in_unit(anomaly_fraction(results)),
{
    lemma_one();
    if results.len() > 0 {
        let c = anomaly_count(results);
        let n = results.len();
        lemma_anomaly_count_bound(results);
        lemma_whole(c);
        lemma_whole(n);
        let x = whole(c);
        let y = whole(n);
        let u = pow2(149);
        lemma_pow2_pos(149);
        assert((c * u) * 1 <= (n * u) * 1) by (nonlinear_arith)
            requires c <= n;
        lemma_rounded_monotone(c * u, 1, n * u, 1);
        lemma_magnitude_order(x, y);
        let zero = Single { bits: 0 };
        lemma_magnitude_order(y, zero);
        assert(zero.units() == 0) by {
            assert(0 * pow2(0) == 0) by (nonlinear_arith);
        }
        assert(y.units() > 0);
        assert((x.units() * u) * 1 <= u * y.units()) by (nonlinear_arith)
            requires x.units() <= y.units();
        lemma_rounded_monotone(x.units() * u, y.units(), u, 1);
    }
}

/// The confidence of a drift class lies between zero and one, and it falls below
/// the review threshold for an emerging trend only.
pub proof fn lemma_drift_class_range(drift: Single, rate: Single)
    ensures
        ({
            let class = drift_class(drift, rate);
            &&& in_unit(class.1)
            &&& less(class.1, Single { bits: HITL_THRESHOLD }) <==> class.0 == "emerging_trend"@
        }),
{
    reveal_strlit("regime_change");
    reveal_strlit("gradual_trend_shift");
    reveal_strlit("emerging_trend");
    reveal_strlit("temporal_normal");
    let class = drift_class(drift, rate);
    assert("regime_change"@.len() == 13);
    assert("gradual_trend_shift"@.len() == 19);
    assert("emerging_trend"@.len() == 14);
    assert("temporal_normal"@.len() == 15);
}

/// A drift result is never the warm-up result.
pub proof fn lemma_drift_result_is_warm(drift: Single, values: Seq<Single>)
    ensures
        !warming(drift_result(drift, values)),
        warming(warming_result()),
{
    reveal_strlit("regime_change");
    reveal_strlit("gradual_trend_shift");
    reveal_strlit("emerging_trend");
    reveal_strlit("temporal_normal");
    reveal_strlit("temporal_warming_up");
    assert("temporal_warming_up"@[0] == 't' && "temporal_warming_up"@.len() == 19);
    assert("gradual_trend_shift"@[0] == 'g');
    assert("regime_change"@.len() == 13);
    assert("emerging_trend"@.len() == 14);
    assert("temporal_normal"@.len() == 15);
}

/// While the temporal layer warms up, the confidence is the combined one, and it alone
/// decides on the review.  It lies between zero and one if that of the message does.
pub proof fn lemma_first_phase(
    subject: Seq<char>,
    n: u64,
    signal: Signal,
    results: Seq<(Seq<char>, Single, bool)>,
)
    requires
        results.len() <= u64::MAX,
    ensures
        ({
            let c = combined(signal.confidence, anomaly_fraction(results));
            let r = conclusion(subject, n, signal, results, warming_result());
            &&& r.confidence == c
            &&& c.nan() || in_unit(c)
            &&& in_unit(signal.confidence) ==> in_unit(c)
            &&& r.hitl_required <==> less(c, Single { bits: HITL_THRESHOLD })
            &&& r.phase == 1
            &&& r.temporal_label is None
            &&& r.temporal_confidence is None
        }),
{
    lemma_fraction_range(results);
    lemma_combined_range(signal.confidence, anomaly_fraction(results));
    lemma_drift_result_is_warm(Single { bits: 0 }, Seq::empty());
}

/// With a drift result, the confidence lies between zero and one and is at least
/// that of the drift class, and a review is asked for when the combined confidence
/// is below the threshold or a trend emerges.
pub proof fn lemma_second_phase(
    subject: Seq<char>,
    n: u64,
    signal: Signal,
    results: Seq<(Seq<char>, Single, bool)>,
    drift: Single,
    values: Seq<Single>,
)
    ensures
        ({
            let c = combined(signal.confidence, anomaly_fraction(results));
            let t = drift_result(drift, values);
            let r = conclusion(subject, n, signal, results, t);
            &&& in_unit(r.confidence)
            &&& at_least(r.confidence, t.confidence)
            &&& c.nan() || at_least(r.confidence, c)
            &&& r.hitl_required <==> less(c, Single { bits: HITL_THRESHOLD }) || t.label
                == "emerging_trend"@
            &&& r.phase == 2
            &&& r.temporal_label == Some(t.label)
            &&& r.temporal_confidence == Some(t.confidence)
        }),
{
    lemma_combined_range(signal.confidence, anomaly_fraction(results));
    lemma_drift_result_is_warm(drift, values);
    lemma_drift_class_range(drift, slope(values));
}

}
