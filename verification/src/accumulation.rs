//! What running statistics come to.

use crate::accuracy::{
    distance, lemma_exact_units, lemma_place_fits, lemma_product_error,
    lemma_quotient_error, lemma_quotient_whole, lemma_sum_error, lemma_units_of,
    lemma_whole_exact,
};
use crate::bounds::{lemma_unit_distance, lemma_whole};
use crate::order::{
    lemma_rounded_order, lemma_rounded_order_exact, lemma_sum_order, lemma_value_order,
    rounded_order,
};
use crate::rounding::{lemma_rounded_exact, lemma_rounded_monotone, rounded, INFINITE};
use crate::single::{
    difference, lemma_decoded, lemma_exact, lemma_magnitude_order, lemma_opposite, opposite,
    product, quotient, signed, sum, whole, Single, ONE,
};
use crate::stats::welford;
use vstd::arithmetic::power2::{lemma_pow2_adds, lemma_pow2_pos, pow2};
use vstd::prelude::*;

verus! {

broadcast use crate::rounding::lemma_rounded_limit;

/// The share of a difference that goes to a mean of two or more numbers does not
/// exceed the difference.
proof fn lemma_share(mean: Single, x: Single, w: Single)
    requires
        mean.finite(),
        x.finite(),
        w.finite(),
        !w.negative(),
        w.units() >= 2 * pow2(149),
        difference(x, mean).finite(),
    ensures
        ({
            let e = x.value() - mean.value();
            let t = quotient(difference(x, mean), w);
            &&& t.finite()
            &&& e >= 0 ==> 0 <= t.value() <= e
            &&& e <= 0 ==> e <= t.value() <= 0
        }),
{
    let e = x.value() - mean.value();
    let delta = difference(x, mean);
    let t = quotient(delta, w);
    let c = pow2(149) as int;
    let u = w.units() as int;
    let y = opposite(mean);
    lemma_pow2_pos(149);
    lemma_decoded(delta);
    lemma_decoded(w);
    assert(y.units() == mean.units() && y.value() == -mean.value());
    lemma_sum_error(x, y);
    assert((delta.units() * c) * 1 <= delta.units() * u) by (nonlinear_arith)
        requires u >= c, delta.units() >= 0;
    lemma_rounded_monotone((delta.units() * pow2(149)) as nat, w.units(), delta.units(), 1);
    lemma_exact(delta);
    assert(t.finite());
    lemma_quotient_error(delta, w);
    let d = distance(delta.value(), 0);
    let s = distance(t.value(), 0);
    let f = distance(e, 0);
    assert(distance(delta.value() * c, 0) == d * c) by (nonlinear_arith)
        requires
            c > 0,
            d == distance(delta.value(), 0),
    ;
    assert(s * u <= distance(t.value() * u, delta.value() * c) + d * c) by (nonlinear_arith)
        requires
            c > 0,
            u > 0,
            s == distance(t.value(), 0),
            d == distance(delta.value(), 0),
            delta.value() >= 0 ==> t.value() >= 0,
            delta.value() <= 0 ==> t.value() <= 0,
    ;
    assert(2 * (d * c) <= d * u) by (nonlinear_arith)
        requires d >= 0, u >= 2 * c;
    assert(0x200_0000 * (s * u) <= 0x100_0001 * (d * u) + 0x100_0000 * u);
    assert(0x200_0000 * s <= 0x100_0001 * d + 0x100_0000) by (nonlinear_arith)
        requires
            0x200_0000 * (s * u) <= 0x100_0001 * (d * u) + 0x100_0000 * u,
            u > 0,
    ;
    assert(0x100_0000 * d <= 0x100_0001 * f + 0x80_0000);
    assert(s <= f);
}

proof fn lemma_two_or_more(n: u64)
    requires
        n >= 2,
    ensures
        whole(n as nat).finite(),
        !whole(n as nat).negative(),
        whole(n as nat).units() >= 2 * pow2(149),
{
    lemma_whole(n as nat);
    lemma_whole_exact(2);
    lemma_pow2_pos(149);
    assert((2 * pow2(149)) * 1 <= (n * pow2(149)) * 1) by (nonlinear_arith)
        requires n >= 2;
    lemma_rounded_monotone(2 * pow2(149), 1, (n * pow2(149)) as nat, 1);
    lemma_magnitude_order(whole(2), whole(n as nat));
}

/// Whether a step of the accumulation has a mean to start from: the first starts
/// from zero.
pub open spec fn continues(n: u64, mean: Single) -> bool {
    n >= 2 || (n == 1 && mean.zero())
}

/// The mean after one step.
proof fn lemma_mean_step(n: u64, mean: Single, m2: Single, x: Single)
    requires
        continues(n, mean),
        mean.finite(),
        x.finite(),
        difference(x, mean).finite(),
    ensures
        ({
            let new_mean = welford(n, mean, m2, x).0;
            &&& new_mean.finite()
            &&& difference(x, new_mean).finite()
            &&& mean.order() <= x.order() ==> mean.order() <= new_mean.order() <= x.order()
            &&& x.order() <= mean.order() ==> x.order() <= new_mean.order() <= mean.order()
        }),
{
    let w = whole(n as nat);
    let delta = difference(x, mean);
    let t = quotient(delta, w);
    lemma_value_order(x, mean);
    lemma_value_order(mean, x);
    if n >= 2 {
        lemma_two_or_more(n);
        lemma_share(mean, x, w);
    } else {
        lemma_first_share(mean, x);
    }
    lemma_sum_order(mean, t);
    lemma_rounded_order_exact(mean);
    lemma_rounded_order_exact(x);
    if mean.value() <= x.value() {
        lemma_rounded_order(mean.value(), mean.value() + t.value());
        lemma_rounded_order(mean.value() + t.value(), x.value());
    } else {
        lemma_rounded_order(mean.value() + t.value(), mean.value());
        lemma_rounded_order(x.value(), mean.value() + t.value());
    }
    lemma_difference_turned(x, mean);
    if mean.order() <= x.order() {
        lemma_difference_between(x, sum(mean, t), mean, x);
    } else {
        lemma_difference_between(x, sum(mean, t), x, mean);
    }
}

/// Whether a difference overflows does not depend on its direction.
proof fn lemma_difference_turned(x: Single, y: Single)
    requires
        x.finite(),
        y.finite(),
    ensures
        difference(x, y).finite() == difference(y, x).finite(),
{
    lemma_opposite(x);
    lemma_opposite(y);
}

/// A difference of numbers between two others does not overflow if that of the two does
/// not.
proof fn lemma_difference_between(a: Single, b: Single, low: Single, high: Single)
    requires
        a.finite(),
        b.finite(),
        low.finite(),
        high.finite(),
        low.order() <= a.order() <= high.order(),
        low.order() <= b.order() <= high.order(),
        difference(high, low).finite(),
    ensures
        difference(a, b).finite(),
{
    let (x, y) = (opposite(b), opposite(low));
    assert(x.units() == b.units() && y.units() == low.units());
    lemma_value_order(low, a);
    lemma_value_order(a, high);
    lemma_value_order(low, b);
    lemma_value_order(b, high);
    lemma_sum_order(a, x);
    lemma_sum_order(high, y);
    let w = high.value() - low.value();
    lemma_rounded_order(a.value() - b.value(), w);
    lemma_rounded_order(-w, a.value() - b.value());
    assert(rounded_order(-w) == -rounded_order(w));
}

/// The first sample is the mean.
proof fn lemma_first_share(mean: Single, x: Single)
    requires
        mean.zero(),
        x.finite(),
    ensures
        ({
            let t = quotient(difference(x, mean), whole(1));
            t.finite() && t.value() == x.value() && mean.value() == 0
        }),
{
    let y = opposite(mean);
    let delta = difference(x, mean);
    let one = whole(1);
    lemma_decoded(mean);
    lemma_decoded(y);
    lemma_decoded(x);
    lemma_exact(x);
    lemma_whole_exact(1);
    lemma_pow2_pos(149);
    let p = pow2(149);
    assert(delta.units() == x.units()) by {
        if x.value() == 0 {
            lemma_decoded(delta);
        }
    }
    lemma_decoded(delta);
    assert(1 * p == p);
    assert((x.units() * p) * 1 <= x.units() * p && x.units() * p <= (x.units() * p) * 1)
        by (nonlinear_arith);
    lemma_rounded_monotone(x.units() * p, p, x.units(), 1);
    lemma_rounded_monotone(x.units(), 1, x.units() * p, p);
    lemma_decoded(quotient(delta, one));
}

/// A product of numbers on the same side of zero is not negative.
proof fn lemma_product_not_negative(x: Single, y: Single)
    requires
        x.finite(),
        y.finite(),
        (x.value() >= 0 && y.value() >= 0) || (x.value() <= 0 && y.value() <= 0),
    ensures
        !product(x, y).nan(),
        product(x, y).order() >= 0,
{
    lemma_decoded(x);
    lemma_decoded(y);
    lemma_pow2_pos(149);
    let a = x.units() * y.units();
    assert(rounded(a, pow2(149)) <= INFINITE);
    if x.negative() != y.negative() {
        assert(x.units() == 0 || y.units() == 0);
        assert(a == 0) by (nonlinear_arith)
            requires a == x.units() * y.units(), x.units() == 0 || y.units() == 0;
        lemma_rounded_exact(0, 0);
        assert(0 * pow2(0) == 0) by (nonlinear_arith);
        assert(a * 1 <= 0 * pow2(149)) by (nonlinear_arith)
            requires a == 0;
        lemma_rounded_monotone(a, pow2(149), 0, 1);
    }
}

/// A sum of numbers that are not negative is not negative.
proof fn lemma_sum_not_negative(x: Single, y: Single)
    requires
        !x.nan() && x.order() >= 0,
        !y.nan() && y.order() >= 0,
    ensures
        !sum(x, y).nan(),
        sum(x, y).order() >= 0,
{
    if x.finite() && y.finite() {
        lemma_decoded(x);
        lemma_decoded(y);
        lemma_sum_order(x, y);
    }
}

/// The sum of squared deviations after one step.
proof fn lemma_spread_step(n: u64, mean: Single, m2: Single, x: Single)
    requires
        continues(n, mean),
        mean.finite(),
        x.finite(),
        difference(x, mean).finite(),
        !m2.nan() && m2.order() >= 0,
    ensures
        ({
            let new_m2 = welford(n, mean, m2, x).1;
            !new_m2.nan() && new_m2.order() >= 0
        }),
{
    let new_mean = welford(n, mean, m2, x).0;
    let delta = difference(x, mean);
    let delta2 = difference(x, new_mean);
    assert(new_mean.finite() && delta2.finite() && (mean.order() <= x.order()
        ==> new_mean.order() <= x.order()) && (x.order() <= mean.order() ==> x.order()
        <= new_mean.order())) by {
        lemma_mean_step(n, mean, m2, x);
    }
    lemma_side(x, mean);
    lemma_side(x, new_mean);
    lemma_product_not_negative(delta, delta2);
    lemma_sum_not_negative(m2, product(delta, delta2));
}

/// A difference tells which number is greater.
proof fn lemma_side(x: Single, y: Single)
    requires
        x.finite(),
        y.finite(),
        difference(x, y).finite(),
    ensures
        y.order() <= x.order() ==> difference(x, y).value() >= 0,
        x.order() <= y.order() ==> difference(x, y).value() <= 0,
{
    let z = opposite(y);
    lemma_value_order(x, y);
    lemma_value_order(y, x);
    lemma_opposite(y);
    lemma_sum_error(x, z);
}

/// Mean and sum of squared deviations that the accumulation comes to.
pub open spec fn accumulated(samples: Seq<Single>) -> (Single, Single)
    decreases samples.len(),
{
    if samples.len() == 0 {
        (Single { bits: 0 }, Single { bits: 0 })
    } else {
        let before = accumulated(samples.drop_last());
        welford(samples.len() as u64, before.0, before.1, samples.last())
    }
}

/// Samples between two numbers whose difference does not overflow.
pub open spec fn between(samples: Seq<Single>, low: Single, high: Single) -> bool {
    &&& low.finite()
    &&& high.finite()
    &&& difference(high, low).finite()
    &&& forall|i: int|
        0 <= i < samples.len() ==> !samples[i].nan() && low.order() <= (
        #[trigger] samples[i]).order() <= high.order()
}

/// The accumulated mean lies where the samples lie, and the accumulated sum of
/// squared deviations is never negative.
pub proof fn lemma_accumulated_range(samples: Seq<Single>, low: Single, high: Single)
    requires
        samples.len() <= u64::MAX,
        between(samples, low, high),
    ensures
        ({
            let r = accumulated(samples);
            &&& r.0.finite()
            &&& samples.len() > 0 ==> low.order() <= r.0.order() <= high.order()
            &&& samples.len() == 0 ==> r.0.zero()
            &&& !r.1.nan()
            &&& r.1.order() >= 0
        }),
    decreases samples.len(),
{
    if samples.len() > 0 {
        let init = samples.drop_last();
        let x = samples.last();
        let n = samples.len() as u64;
        assert(x == samples[samples.len() - 1]);
        assert(between(init, low, high)) by {
            assert forall|i: int| 0 <= i < init.len() implies !init[i].nan() && low.order() <= (
            #[trigger] init[i]).order() <= high.order() by {
                assert(init[i] == samples[i]);
            }
        }
        lemma_accumulated_range(init, low, high);
        let before = accumulated(init);
        assert(x.finite());
        assert(difference(x, before.0).finite()) by {
            if init.len() > 0 {
                lemma_difference_between(x, before.0, low, high);
            } else {
                lemma_first_difference(before.0, x);
            }
        }
        lemma_mean_step(n, before.0, before.1, x);
        lemma_spread_step(n, before.0, before.1, x);
        if init.len() == 0 {
            lemma_first_mean(before.0, before.1, x);
        }
    }
}

/// The difference from zero is the number itself.
proof fn lemma_first_difference(mean: Single, x: Single)
    requires
        mean.zero(),
        x.finite(),
    ensures
        difference(x, mean).finite(),
{
    lemma_decoded(mean);
    lemma_decoded(opposite(mean));
    lemma_sum_order(x, opposite(mean));
    lemma_rounded_order_exact(x);
}

/// The difference of the next sample from the accumulated mean does not overflow.
proof fn lemma_next_difference(samples: Seq<Single>, low: Single, high: Single)
    requires
        samples.len() > 0,
        samples.len() <= u64::MAX,
        between(samples, low, high),
    ensures
        between(samples.drop_last(), low, high),
        difference(samples.last(), accumulated(samples.drop_last()).0).finite(),
{
    let init = samples.drop_last();
    let x = samples.last();
    let mean = accumulated(init).0;
    assert(x == samples[samples.len() - 1]);
    assert(between(init, low, high)) by {
        assert forall|i: int| 0 <= i < init.len() implies !init[i].nan() && low.order() <= (
        #[trigger] init[i]).order() <= high.order() by {
            assert(init[i] == samples[i]);
        }
    }
    lemma_accumulated_range(init, low, high);
    if init.len() > 0 {
        lemma_difference_between(x, mean, low, high);
    } else {
        lemma_first_difference(mean, x);
    }
}

/// The first mean is the first sample.
proof fn lemma_first_mean(mean: Single, m2: Single, x: Single)
    requires
        mean.zero(),
        x.finite(),
    ensures
        welford(1, mean, m2, x).0.order() == x.order(),
{
    let t = quotient(difference(x, mean), whole(1));
    lemma_first_share(mean, x);
    lemma_sum_order(mean, t);
    lemma_rounded_order_exact(x);
}

/// A zero leaves what has accumulated over zeros as it is.
pub(crate) proof fn lemma_zero_sample(n: u64)
    requires
        n >= 1,
    ensures
        ({
            let zero = Single { bits: 0 };
            welford(n, zero, zero, zero) == (zero, zero)
        }),
{
    let zero = Single { bits: 0 };
    let w = whole(n as nat);
    lemma_whole(n as nat);
    lemma_decoded(zero);
    lemma_decoded(opposite(zero));
    lemma_decoded(w);
    assert(difference(zero, zero) == zero);
    assert(sum(zero, zero) == zero);
    lemma_rounded_exact(0, 0);
    assert(0 * pow2(0) == 0 && 0 * pow2(149) == 0 && 0 * w.units() == 0) by (nonlinear_arith);
    lemma_pow2_pos(149);
    lemma_rounded_monotone(0, pow2(149), 0, 1);
    lemma_rounded_monotone(0, w.units(), 0, 1);
}

/// The sum of the samples' values, in units.
pub open spec fn total(samples: Seq<Single>) -> int
    decreases samples.len(),
{
    if samples.len() == 0 {
        0
    } else {
        total(samples.drop_last()) + samples.last().value()
    }
}

/// The sum of the squared distances of the samples' values from `m`, in squared
/// units.
pub open spec fn squares(samples: Seq<Single>, m: int) -> int
    decreases samples.len(),
{
    if samples.len() == 0 {
        0
    } else {
        let d = samples.last().value() - m;
        squares(samples.drop_last(), m) + d * d
    }
}

proof fn lemma_mean_algebra(n: int, mv: int, xv: int, dv: int, tv: int, nv: int, b: int)
    requires
        n >= 1,
        b >= 0,
        distance(nv, mv + tv) <= b,
        distance(tv * n, dv) <= 4 * b,
        distance(dv, xv - mv) <= 2 * b,
    ensures
        distance(n * nv, (n - 1) * mv + xv) <= (n + 6) * b,
{
    let r = nv - (mv + tv);
    assert(n * nv == n * mv + tv * n + n * r) by (nonlinear_arith)
        requires nv == mv + tv + r;
    assert((n - 1) * mv == n * mv - mv) by (nonlinear_arith);
    assert(-(n * b) <= n * r <= n * b) by (nonlinear_arith)
        requires -b <= r <= b, n >= 1;
    assert((n + 6) * b == n * b + 6 * b) by (nonlinear_arith);
}

/// Squared distances from a point a little further on.
proof fn lemma_squares_shift(samples: Seq<Single>, m: int, d: int)
    ensures
        squares(samples, m + d) == squares(samples, m) + 2 * (d * (samples.len() * m - total(
            samples,
        ))) + samples.len() * (d * d),
    decreases samples.len(),
{
    let k = samples.len() as int;
    if k > 0 {
        let init = samples.drop_last();
        let v = samples.last().value();
        let s = total(init);
        lemma_squares_shift(init, m, d);
        assert((v - (m + d)) * (v - (m + d)) == (v - m) * (v - m) + 2 * (d * (m - v)) + d * d)
            by (nonlinear_arith);
        assert(d * (k * m - (s + v)) == d * ((k - 1) * m - s) + d * (m - v)) by (nonlinear_arith);
        assert(k * (d * d) == (k - 1) * (d * d) + d * d) by (nonlinear_arith);
    } else {
        assert(0 * m == 0 && 0 * (d * d) == 0 && d * 0 == 0) by (nonlinear_arith);
    }
}

/// The product of two differences is close to that of the exact ones.
proof fn lemma_product_algebra(d1: int, d2: int, e: int, f: int, b: int)
    requires
        distance(d1, e) <= 2 * b,
        distance(d2, f) <= 2 * b,
        distance(d2, 0) <= 0x200_0002 * b,
        distance(e, 0) <= 0x200_0000 * b,
        b >= 1,
    ensures
        distance(d1 * d2, e * f) <= 0x800_0004 * (b * b),
{
    let p = d1 - e;
    let q = d2 - f;
    assert(d1 * d2 - e * f == p * d2 + e * q) by (nonlinear_arith)
        requires d1 == e + p, d2 == f + q;
    assert(distance(p * d2, 0) <= 0x400_0004 * (b * b)) by (nonlinear_arith)
        requires
            -2 * b <= p <= 2 * b,
            -0x200_0002 * b <= d2 <= 0x200_0002 * b,
    ;
    assert(distance(e * q, 0) <= 0x400_0000 * (b * b)) by (nonlinear_arith)
        requires
            -2 * b <= q <= 2 * b,
            -0x200_0000 * b <= e <= 0x200_0000 * b,
    ;
}

/// One more sample in the sum of squared distances.
proof fn lemma_spread_algebra(
    k: int,
    mv: int,
    xv: int,
    nv: int,
    s: int,
    f: int,
    before: int,
    after: int,
    b: int,
    c: int,
)
    requires
        1 <= k <= 0x100_0000,
        b >= 1,
        distance(xv, 0) <= 0x100_0000 * b,
        distance(mv, 0) <= 0x100_0000 * b,
        2 * distance((k - 1) * mv, s) <= (k - 1) * (k + 12) * b,
        distance(k * nv, (k - 1) * mv + xv) <= (k + 6) * b,
        distance((after - before) * c, (xv - mv) * (xv - nv)) <= (0x800_0000 * k + 0x2000_0000) * (b
            * b),
        distance(before * c, f) <= (k - 1) * (3 * k + 40) * (0x200_0000 * (b * b)),
    ensures
        ({
            let d = nv - mv;
            let grown = f + 2 * (d * ((k - 1) * mv - s)) + (k - 1) * (d * d) + (xv - nv) * (xv
                - nv);
            distance(after * c, grown) <= k * (3 * k + 43) * (0x200_0000 * (b * b))
        }),
{
    let d = nv - mv;
    let e = xv - mv;
    let g = (k - 1) * mv - s;
    let t = k * nv - ((k - 1) * mv + xv);
    let bb = b * b;
    assert(t == k * d - e) by (nonlinear_arith)
        requires t == k * nv - ((k - 1) * mv + xv), d == nv - mv, e == xv - mv;
    assert((k - 1) * (d * d) + (e - d) * (e - d) == d * (k * d - e) + e * (e - d))
        by (nonlinear_arith);
    assert(xv - nv == e - d);
    assert(after * c == before * c + (after - before) * c) by (nonlinear_arith);
    assert((k + 6) * b == k * b + 6 * b) by (nonlinear_arith);
    assert(k * b <= 0x100_0000 * b) by (nonlinear_arith)
        requires k <= 0x100_0000, b >= 0;
    // The mean moves by about a share of the difference.
    assert(distance(k * d, 0) <= 0x400_0000 * b);
    let h = d * (2 * g + t);
    let w = (k - 1) * (k + 12) * b + (k + 6) * b;
    assert(distance(2 * g + t, 0) <= w);
    assert(w <= k * (k + 12) * b) by (nonlinear_arith)
        requires w == (k - 1) * (k + 12) * b + (k + 6) * b, b >= 0;
    assert(h == 2 * (d * g) + d * t) by (nonlinear_arith)
        requires h == d * (2 * g + t);
    assert(distance(h, 0) <= 0x400_0000 * ((k + 12) * bb)) by {
        lemma_spread_shift(k, d, 2 * g + t, b);
    }
    assert(k * (3 * k + 43) * (0x200_0000 * bb) == (k - 1) * (3 * k + 40) * (0x200_0000 * bb)
        + 0x400_0000 * ((k + 12) * bb) + (0x800_0000 * k + 0x2000_0000) * bb) by (nonlinear_arith);
}

proof fn lemma_spread_shift(k: int, d: int, g: int, b: int)
    requires
        k >= 1,
        b >= 0,
        distance(k * d, 0) <= 0x400_0000 * b,
        distance(g, 0) <= k * (k + 12) * b,
    ensures
        distance(d * g, 0) <= 0x400_0000 * ((k + 12) * (b * b)),
{
    let p = distance(d, 0);
    let q = distance(g, 0);
    let z = (k + 12) * b;
    assert(distance(d * g, 0) == p * q) by (nonlinear_arith)
        requires
            p == d || p == -d,
            q == g || q == -g,
            p >= 0,
            q >= 0,
    ;
    assert(k * p <= 0x400_0000 * b) by (nonlinear_arith)
        requires
            p == d || p == -d,
            -0x400_0000 * b <= k * d <= 0x400_0000 * b,
    ;
    assert(k * (k + 12) * b == k * z) by (nonlinear_arith)
        requires z == (k + 12) * b;
    assert(p * q <= p * (k * z)) by (nonlinear_arith)
        requires 0 <= q <= k * z, p >= 0;
    assert(p * (k * z) == (k * p) * z) by (nonlinear_arith);
    assert(z >= 0) by (nonlinear_arith)
        requires z == (k + 12) * b, k >= 1, b >= 0;
    assert((k * p) * z <= (0x400_0000 * b) * z) by (nonlinear_arith)
        requires k * p <= 0x400_0000 * b, z >= 0;
    assert((0x400_0000 * b) * z == 0x400_0000 * ((k + 12) * (b * b))) by (nonlinear_arith)
        requires z == (k + 12) * b;
}

/// Finite, and of at most two to the power `s` units.
pub open spec fn in_power(x: Single, s: nat) -> bool {
    x.finite() && x.units() <= pow2(s)
}

/// Samples of at most two to the power `s` units.
pub open spec fn samples_in_power(samples: Seq<Single>, s: nat) -> bool {
    forall|i: int| 0 <= i < samples.len() ==> in_power(#[trigger] samples[i], s)
}

/// The part of two to the power `s` that is lost to rounding.
spec fn lost(s: nat) -> int {
    pow2((s - 24) as nat) as int
}

proof fn lemma_lost(s: nat)
    requires
        s >= 100,
    ensures
        lost(s) > 0x100_0000_0000,
        pow2(s) == 0x100_0000 * lost(s),
        pow2((s - 25) as nat) * 2 == lost(s),
        pow2((s - 23) as nat) == 2 * lost(s),
{
    vstd::arithmetic::power2::lemma2_to64();
    lemma_pow2_adds(24, (s - 24) as nat);
    lemma_pow2_adds(1, (s - 25) as nat);
    lemma_pow2_adds(1, (s - 24) as nat);
    lemma_pow2_adds(64, (s - 88) as nat);
    lemma_pow2_pos((s - 88) as nat);
}

/// A number of bounded units.
proof fn lemma_power_value(x: Single, s: nat)
    requires
        s >= 100,
        in_power(x, s),
    ensures
        distance(x.value(), 0) <= 0x100_0000 * lost(s),
{
    lemma_lost(s);
}

/// A difference of numbers of bounded units.
proof fn lemma_power_sub(x: Single, y: Single, s: nat)
    requires
        s >= 100,
        in_power(x, s),
        in_power(y, s),
        difference(x, y).finite(),
    ensures
        distance(difference(x, y).value(), x.value() - y.value()) <= 2 * lost(s),
        distance(difference(x, y).value(), 0) <= 0x200_0002 * lost(s),
{
    let z = opposite(y);
    lemma_power_value(x, s);
    lemma_power_value(y, s);
    lemma_lost(s);
    lemma_opposite(y);
    lemma_sum_error(x, z);
}

/// A number between two others has no more units than both.
proof fn lemma_between_units(x: Single, a: Single, b: Single)
    requires
        x.finite(),
        a.finite(),
        b.finite(),
        (a.order() <= x.order() <= b.order()) || (b.order() <= x.order() <= a.order()),
    ensures
        x.units() <= a.units() || x.units() <= b.units(),
{
    lemma_magnitude_order(x, a);
    lemma_magnitude_order(x, b);
}

/// The mean of numbers between minus one and one lies there too.
pub(crate) proof fn lemma_unit_mean(n: u64, mean: Single, m2: Single, x: Single)
    requires
        n >= 2,
        mean.magnitude() <= ONE,
        x.magnitude() <= ONE,
    ensures
        welford(n, mean, m2, x).0.magnitude() <= ONE,
{
    lemma_unit_distance(x, mean);
    lemma_mean_step(n, mean, m2, x);
}

/// The mean after one step is bounded as the samples are.
proof fn lemma_mean_in_power(n: u64, mean: Single, m2: Single, x: Single, s: nat)
    requires
        continues(n, mean),
        s >= 100,
        in_power(mean, s),
        in_power(x, s),
        difference(x, mean).finite(),
    ensures
        in_power(welford(n, mean, m2, x).0, s),
{
    lemma_power_value(mean, s);
    lemma_power_value(x, s);
    lemma_mean_step(n, mean, m2, x);
    lemma_between_units(welford(n, mean, m2, x).0, mean, x);
}

/// How far the mean after one step is off.
proof fn lemma_mean_error(n: u64, mean: Single, m2: Single, x: Single, s: nat)
    requires
        continues(n, mean),
        n <= 0x100_0000,
        s >= 100,
        in_power(mean, s),
        in_power(x, s),
        difference(x, mean).finite(),
    ensures
        ({
            let new_mean = welford(n, mean, m2, x).0;
            distance(n * new_mean.value(), (n - 1) * mean.value() + x.value()) <= (n + 6) * lost(s)
        }),
{
    let b = lost(s);
    let w = whole(n as nat);
    let delta = difference(x, mean);
    let t = quotient(delta, w);
    let new_mean = sum(mean, t);
    let (mv, xv, dv, tv, nv) = (
        mean.value(),
        x.value(),
        delta.value(),
        t.value(),
        new_mean.value(),
    );
    lemma_lost(s);
    lemma_power_value(mean, s);
    lemma_power_value(x, s);
    lemma_mean_in_power(n, mean, m2, x, s);
    assert(new_mean == welford(n, mean, m2, x).0);
    lemma_power_sub(x, mean, s);
    lemma_whole_exact(n as nat);
    assert(t.finite() && distance(mv + tv, 0) <= 0x100_0000 * b) by {
        if n >= 2 {
            lemma_two_or_more(n);
            lemma_share(mean, x, w);
        } else {
            lemma_first_share(mean, x);
        }
    }
    lemma_sum_error(mean, t);
    assert(distance(nv, mv + tv) <= b);
    assert(distance(tv * n, dv) <= 4 * b) by {
        lemma_quotient_whole(delta, n as nat);
    }
    lemma_mean_algebra(n as int, mv, xv, dv, tv, nv, b);
}

proof fn lemma_samples_init(samples: Seq<Single>, s: nat)
    requires
        samples_in_power(samples, s),
        samples.len() > 0,
    ensures
        samples_in_power(samples.drop_last(), s),
        in_power(samples.last(), s),
{
    let init = samples.drop_last();
    assert(samples.last() == samples[samples.len() - 1]);
    assert forall|i: int| 0 <= i < init.len() implies in_power(#[trigger] init[i], s) by {
        assert(init[i] == samples[i]);
    }
}

/// The accumulated mean is bounded as the samples are, and so is their sum.
proof fn lemma_accumulated_in_power(samples: Seq<Single>, low: Single, high: Single, s: nat)
    requires
        s >= 100,
        samples_in_power(samples, s),
        between(samples, low, high),
        samples.len() <= u64::MAX,
    ensures
        in_power(accumulated(samples).0, s),
        samples.len() == 0 ==> accumulated(samples).0.zero(),
        distance(total(samples), 0) <= samples.len() * pow2(s),
    decreases samples.len(),
{
    let k = samples.len();
    if k > 0 {
        let init = samples.drop_last();
        let x = samples.last();
        let before = accumulated(init);
        lemma_samples_init(samples, s);
        lemma_next_difference(samples, low, high);
        lemma_accumulated_in_power(init, low, high, s);
        lemma_mean_in_power(k as u64, before.0, before.1, x, s);
        let p = pow2(s);
        assert(k * p == (k - 1) * p + p) by (nonlinear_arith);
    } else {
        lemma_decoded(Single { bits: 0 });
        assert(0 * pow2(s) == 0) by (nonlinear_arith);
    }
}

/// How far the accumulated mean of samples that can be counted exactly is off.
proof fn lemma_mean_close(samples: Seq<Single>, low: Single, high: Single, s: nat)
    requires
        s >= 100,
        samples_in_power(samples, s),
        between(samples, low, high),
        samples.len() <= 0x100_0000,
    ensures
        ({
            let k = samples.len() as int;
            let mean = accumulated(samples).0;
            2 * distance(k * mean.value(), total(samples)) <= k * (k + 13) * lost(s)
        }),
    decreases samples.len(),
{
    let k = samples.len() as int;
    if k > 0 {
        let init = samples.drop_last();
        let x = samples.last();
        let before = accumulated(init);
        let b = lost(s);
        lemma_samples_init(samples, s);
        lemma_next_difference(samples, low, high);
        lemma_mean_close(init, low, high, s);
        lemma_accumulated_in_power(init, low, high, s);
        lemma_mean_error(k as u64, before.0, before.1, x, s);
        assert(k * (k + 13) * b == (k - 1) * (k + 12) * b + 2 * ((k + 6) * b)) by (nonlinear_arith);
    } else {
        assert(0 * accumulated(samples).0.value() == 0) by (nonlinear_arith);
        assert(0 * 13 * lost(s) == 0) by (nonlinear_arith);
    }
}

/// The accumulated mean of `k` samples of at most two to the power `s` units is their
/// mean up to rounding: `k` times it is off their sum by at most `k (k + 13)` times two
/// to the power `s - 23` units.
pub proof fn lemma_accumulated_mean(samples: Seq<Single>, low: Single, high: Single, s: nat)
    requires
        s >= 100,
        samples_in_power(samples, s),
        between(samples, low, high),
        samples.len() <= u64::MAX,
    ensures
        ({
            let k = samples.len() as int;
            let mean = accumulated(samples).0;
            &&& in_power(mean, s)
            &&& distance(k * mean.value(), total(samples)) <= k * (k + 13) * pow2((s - 23) as nat)
        }),
{
    let k = samples.len() as int;
    let mean = accumulated(samples).0;
    let b = lost(s);
    lemma_lost(s);
    lemma_accumulated_in_power(samples, low, high, s);
    lemma_power_value(mean, s);
    assert(k * (k + 13) * (2 * b) == 2 * (k * (k + 13) * b)) by (nonlinear_arith);
    assert(k * (k + 13) * b >= 0) by (nonlinear_arith)
        requires k >= 0, b >= 0;
    if k <= 0x100_0000 {
        lemma_mean_close(samples, low, high, s);
    } else {
        let v = mean.value();
        let p = 0x100_0000 * b;
        assert(distance(k * v, 0) <= k * p) by (nonlinear_arith)
            requires -p <= v <= p, k >= 0;
        assert(k * p <= k * (k + 13) * b) by (nonlinear_arith)
            requires k >= 0x100_0000, p == 0x100_0000 * b, b >= 0;
    }
}

/// The part of the square of two to the power `s` units that is lost to rounding, in
/// units.
spec fn share(s: nat) -> int {
    pow2((2 * s - 173) as nat) as int
}

proof fn lemma_square_powers(s: nat)
    requires
        s >= 100,
    ensures
        share(s) >= 0x800_0000,
        0x100_0000 * (lost(s) * lost(s)) == share(s) * pow2(149),
        pow2(149) <= lost(s) * lost(s),
        pow2((2 * s - 146) as nat) == 0x800_0000 * share(s),
        pow2((2 * s - 145) as nat) == 0x1000_0000 * share(s),
        pow2((2 * s - 23) as nat) == 0x200_0000 * (lost(s) * lost(s)),
{
    let e = (2 * s - 173) as nat;
    vstd::arithmetic::power2::lemma2_to64();
    lemma_pow2_adds((s - 24) as nat, (s - 24) as nat);
    lemma_pow2_adds(24, (2 * s - 48) as nat);
    lemma_pow2_adds(25, (2 * s - 48) as nat);
    lemma_pow2_adds(e, 149);
    lemma_pow2_adds(27, e);
    lemma_pow2_adds(28, e);
    lemma_pow2_adds(27, (e - 27) as nat);
    lemma_pow2_pos((e - 27) as nat);
    lemma_pow2_adds(149, (2 * s - 197) as nat);
    lemma_pow2_pos((2 * s - 197) as nat);
    assert((2 * s - 48) as nat == (s - 24) as nat + (s - 24) as nat);
    let (x, y) = (pow2(149), pow2((2 * s - 197) as nat));
    assert(x <= x * y) by (nonlinear_arith)
        requires y >= 1, x >= 0;
}

/// The counts that keep growing the sum of squared deviations; beyond them what is
/// added is lost to rounding.
pub open spec fn counted(k: nat) -> nat {
    if k < 0x100_0000 {
        k
    } else {
        0x100_0000
    }
}

/// Whether sums of squared deviations of `k` samples of at most two to the power `s`
/// units stay clear of overflow.
pub open spec fn spread_fits(k: nat, s: nat) -> bool {
    counted(k) * pow2(2 * s) <= pow2(422)
}

proof fn lemma_spread_fits(n: nat, k: nat, s: nat)
    requires
        s >= 100,
        n <= counted(k),
        spread_fits(k, s),
    ensures
        n * pow2((2 * s - 146) as nat) <= pow2(276),
{
    let (x, y) = (pow2((2 * s - 146) as nat), pow2(146));
    let (m, p) = (counted(k), pow2(276));
    lemma_pow2_adds((2 * s - 146) as nat, 146);
    lemma_pow2_adds(276, 146);
    lemma_pow2_pos(146);
    assert(n * x <= p) by (nonlinear_arith)
        requires n <= m, m * (x * y) <= p * y, y > 0, x >= 0;
}

/// A product of bounded numbers is finite and close.
proof fn lemma_power_product(x: Single, y: Single, s: nat)
    requires
        s >= 100,
        pow2((2 * s - 146) as nat) <= pow2(276),
        x.finite(),
        y.finite(),
        distance(x.value(), 0) <= 0x200_0002 * lost(s),
        distance(y.value(), 0) <= 0x200_0002 * lost(s),
    ensures
        product(x, y).finite(),
        distance(product(x, y).value() * pow2(149), x.value() * y.value()) <= 0x800_0000 * (lost(s)
            * lost(s)),
{
    let b = lost(s);
    let c = pow2(149) as int;
    let h = share(s);
    let q = (2 * s - 146) as nat;
    let (m, n) = (x.units() as int, y.units() as int);
    let (v, w) = (x.value(), y.value());
    lemma_lost(s);
    lemma_square_powers(s);
    lemma_pow2_pos(149);
    assert(0 <= m * n <= 0x4_0000_1000_0000 * (b * b)) by (nonlinear_arith)
        requires
            0 <= m <= 0x200_0002 * b,
            0 <= n <= 0x200_0002 * b,
            b >= 0,
    ;
    assert(distance(v * w, 0) == m * n) by (nonlinear_arith)
        requires
            v == m || v == -m,
            w == n || w == -n,
            m >= 0,
            n >= 0,
    ;
    assert((0x800_0000 * h) * c == 0x800_0000 * (h * c)) by (nonlinear_arith);
    assert(1 * pow2(q) == pow2(q));
    lemma_exact_units(1, q);
    assert((m * n) * 1 <= (1 * pow2(q)) * c);
    lemma_rounded_monotone((m * n) as nat, pow2(149), 1 * pow2(q), 1);
    lemma_product_error(x, y);
}

/// What one step adds to the sum of squared deviations.
proof fn lemma_increment(n: u64, mean: Single, m2: Single, x: Single, s: nat)
    requires
        continues(n, mean),
        s >= 100,
        pow2((2 * s - 146) as nat) <= pow2(276),
        in_power(mean, s),
        in_power(x, s),
        difference(x, mean).finite(),
    ensures
        ({
            let new_mean = welford(n, mean, m2, x).0;
            let r = product(difference(x, mean), difference(x, new_mean));
            let exact = (x.value() - mean.value()) * (x.value() - new_mean.value());
            &&& r.finite()
            &&& 0 <= r.value() <= 0x400_0018 * share(s)
            &&& distance(r.value() * pow2(149), exact) <= 0x1800_0000 * (lost(s) * lost(s))
        }),
{
    let b = lost(s);
    let h = share(s);
    let new_mean = welford(n, mean, m2, x).0;
    let d1 = difference(x, mean);
    let d2 = difference(x, new_mean);
    let e = x.value() - mean.value();
    let f = x.value() - new_mean.value();
    let v = product(d1, d2).value();
    let c = pow2(149) as int;
    lemma_deviations(n, mean, m2, x, s);
    assert(b >= 1) by {
        lemma_lost(s);
    }
    lemma_square_powers(s);
    lemma_power_product(d1, d2, s);
    lemma_product_algebra(d1.value(), d2.value(), e, f, b);
    assert(v >= 0) by {
        lemma_product_error(d1, d2);
    }
    lemma_pow2_pos(149);
    lemma_increment_bound(v, c, d1.value() * d2.value(), e, f, b, h);
}

/// The two deviations of a sample in one step.
proof fn lemma_deviations(n: u64, mean: Single, m2: Single, x: Single, s: nat)
    requires
        continues(n, mean),
        s >= 100,
        in_power(mean, s),
        in_power(x, s),
        difference(x, mean).finite(),
    ensures
        ({
            let new_mean = welford(n, mean, m2, x).0;
            let d1 = difference(x, mean);
            let d2 = difference(x, new_mean);
            let e = x.value() - mean.value();
            let f = x.value() - new_mean.value();
            let b = lost(s);
            &&& in_power(new_mean, s)
            &&& d2.finite()
            &&& d1.value() * d2.value() >= 0
            &&& distance(d1.value(), e) <= 2 * b
            &&& distance(d2.value(), f) <= 2 * b
            &&& distance(d1.value(), 0) <= 0x200_0002 * b
            &&& distance(d2.value(), 0) <= 0x200_0002 * b
            &&& distance(e, 0) <= 0x200_0000 * b
            &&& distance(f, 0) <= 0x200_0000 * b
        }),
{
    let new_mean = welford(n, mean, m2, x).0;
    let (p, q) = (difference(x, mean).value(), difference(x, new_mean).value());
    lemma_mean_in_power(n, mean, m2, x, s);
    assert(difference(x, new_mean).finite() && p * q >= 0) by {
        lemma_mean_step(n, mean, m2, x);
        lemma_side(x, mean);
        lemma_side(x, new_mean);
        assert(p * q >= 0) by (nonlinear_arith)
            requires (p >= 0 && q >= 0) || (p <= 0 && q <= 0);
    }
    lemma_power_value(x, s);
    lemma_power_value(mean, s);
    lemma_power_value(new_mean, s);
    lemma_power_sub(x, mean, s);
    lemma_power_sub(x, new_mean, s);
}

proof fn lemma_increment_bound(v: int, c: int, d: int, e: int, f: int, b: int, h: int)
    requires
        c >= 1,
        b >= 1,
        0x100_0000 * (b * b) == h * c,
        distance(v * c, d) <= 0x800_0000 * (b * b),
        distance(d, e * f) <= 0x800_0004 * (b * b),
        distance(e, 0) <= 0x200_0000 * b,
        distance(f, 0) <= 0x200_0000 * b,
    ensures
        v <= 0x400_0018 * h,
        distance(v * c, e * f) <= 0x1800_0000 * (b * b),
{
    let bb = b * b;
    assert(bb >= 1) by (nonlinear_arith)
        requires bb == b * b, b >= 1;
    assert(e * f <= 0x4_0000_0000_0000 * bb) by (nonlinear_arith)
        requires
            -0x200_0000 * b <= e <= 0x200_0000 * b,
            -0x200_0000 * b <= f <= 0x200_0000 * b,
            bb == b * b,
    ;
    assert(v <= 0x400_0018 * h) by (nonlinear_arith)
        requires
            v * c <= 0x4_0000_1800_0000 * bb,
            0x100_0000 * bb == h * c,
            c >= 1,
    ;
}

/// The sum of squared deviations and what is added to it.
proof fn lemma_spread_sum(n: nat, m2: Single, r: Single, s: nat)
    requires
        s >= 100,
        1 <= n <= 0x100_0000,
        n * pow2((2 * s - 146) as nat) <= pow2(276),
        m2.finite(),
        r.finite(),
        0 <= m2.value() <= (n - 1) * (0x800_0000 * share(s)),
        0 <= r.value() <= 0x800_0000 * share(s),
    ensures
        sum(m2, r).finite(),
        0 <= sum(m2, r).value() <= n * (0x800_0000 * share(s)),
        distance(sum(m2, r).value(), m2.value() + r.value()) <= 8 * (n * share(s)),
{
    let h = share(s);
    let t = m2.value() + r.value();
    let z = sum(m2, r);
    let q = (2 * s - 146) as nat;
    lemma_square_powers(s);
    let most = n * pow2(q);
    assert((n - 1) * (0x800_0000 * h) + 0x800_0000 * h == n * (0x800_0000 * h))
        by (nonlinear_arith);
    assert(t <= most);
    lemma_exact_units(n, q);
    let m = signed(false, rounded(n * pow2(q), 1));
    assert(n * (0x800_0000 * h) == 0x800_0000 * (n * h)) by (nonlinear_arith);
    if t > 0 {
        let p = signed(false, rounded(t as nat, 1));
        lemma_rounded_monotone(t as nat, 1, n * pow2(q), 1);
        lemma_magnitude_order(p, m);
    } else {
        lemma_decoded(z);
        assert(n * h >= 0) by (nonlinear_arith)
            requires n >= 1, h >= 0;
    }
    lemma_sum_error(m2, r);
}

proof fn lemma_spread_scale(
    n: int,
    after: int,
    before: int,
    v: int,
    exact: int,
    b: int,
    c: int,
    h: int,
)
    requires
        0x100_0000 * (b * b) == h * c,
        c >= 0,
        distance(after, before + v) <= 8 * (n * h),
        distance(v * c, exact) <= 0x1800_0000 * (b * b),
    ensures
        distance((after - before) * c, exact) <= (0x800_0000 * n + 0x2000_0000) * (b * b),
{
    let q = after - before - v;
    let g = n * h;
    let bb = b * b;
    assert((after - before) * c == q * c + v * c) by (nonlinear_arith)
        requires after - before == q + v;
    assert(distance(q * c, 0) <= 8 * (g * c)) by (nonlinear_arith)
        requires -8 * g <= q <= 8 * g, c >= 0;
    assert(g * c == 0x100_0000 * (n * bb)) by (nonlinear_arith)
        requires g == n * h, h * c == 0x100_0000 * bb;
    assert((0x800_0000 * n + 0x2000_0000) * bb == 0x800_0000 * (n * bb) + 0x2000_0000 * bb)
        by (nonlinear_arith);
    assert(bb >= 0) by (nonlinear_arith)
        requires bb == b * b;
}

/// A full sum of squared deviations does not grow any more.
proof fn lemma_spread_full(m2: Single, r: Single, s: nat)
    requires
        s >= 100,
        0x100_0000 * pow2((2 * s - 146) as nat) <= pow2(276),
        m2.finite(),
        r.finite(),
        0 <= m2.value() <= 0x8_0000_0000_0000 * share(s),
        0 <= r.value() <= 0x400_0018 * share(s),
    ensures
        sum(m2, r).finite(),
        0 <= sum(m2, r).value() <= 0x8_0000_0000_0000 * share(s),
{
    let h = share(s);
    let t = m2.value() + r.value();
    let z = sum(m2, r);
    let q = (2 * s - 145) as nat;
    let x = pow2(q);
    lemma_square_powers(s);
    lemma_pow2_adds(1, (2 * s - 146) as nat);
    lemma_place_of(q);
    let full = signed(false, rounded(0x80_0000 * x, 1));
    let next = signed(false, rounded(0x80_0001 * x, 1));
    assert(full.units() == 0x8_0000_0000_0000 * h);
    assert(next.units() == 0x8_0000_0000_0000 * h + 0x1000_0000 * h);
    if t > 0 {
        lemma_rounded_monotone(t as nat, 1, 0x80_0001 * x, 1);
        lemma_sum_error(m2, r);
        lemma_magnitude_order(next, z);
        lemma_magnitude_order(z, full);
    } else {
        lemma_decoded(z);
    }
}

/// Two neighbours in the order of encodings.
proof fn lemma_place_of(q: nat)
    requires
        0x80_0000 * pow2(q) <= pow2(276),
    ensures
        ({
            let full = signed(false, rounded(0x80_0000 * pow2(q), 1));
            let next = signed(false, rounded(0x80_0001 * pow2(q), 1));
            &&& full.finite()
            &&& next.finite()
            &&& full.units() == 0x80_0000 * pow2(q)
            &&& next.units() == 0x80_0001 * pow2(q)
            &&& next.magnitude() == full.magnitude() + 1
        }),
{
    lemma_place_fits(0x80_0000, q);
    lemma_rounded_exact(q, 0x80_0000);
    lemma_rounded_exact(q, 0x80_0001);
    lemma_units_of(q, 0x80_0000);
    lemma_units_of(q, 0x80_0001);
}

/// The accumulated sum of squared deviations is finite and not negative.
proof fn lemma_spread_bounded(samples: Seq<Single>, low: Single, high: Single, s: nat)
    requires
        s >= 100,
        samples_in_power(samples, s),
        between(samples, low, high),
        samples.len() <= u64::MAX,
        spread_fits(samples.len(), s),
    ensures
        ({
            let m2 = accumulated(samples).1;
            &&& m2.finite()
            &&& 0 <= m2.value() <= counted(samples.len()) * (0x800_0000 * share(s))
        }),
    decreases samples.len(),
{
    let k = samples.len();
    if k > 0 {
        let init = samples.drop_last();
        let x = samples.last();
        let n = k as u64;
        let (mean, m2) = accumulated(init);
        let h = share(s);
        lemma_samples_init(samples, s);
        lemma_next_difference(samples, low, high);
        lemma_fits_init(k, s);
        lemma_spread_bounded(init, low, high, s);
        lemma_accumulated_in_power(init, low, high, s);
        lemma_spread_fits(1, k, s);
        lemma_spread_fits(counted(k), k, s);
        assert(1 * pow2((2 * s - 146) as nat) == pow2((2 * s - 146) as nat));
        lemma_increment(n, mean, m2, x, s);
        lemma_square_powers(s);
        let r = product(difference(x, mean), difference(x, welford(n, mean, m2, x).0));
        if k <= 0x100_0000 {
            assert(counted((k - 1) as nat) == k - 1);
            lemma_spread_sum(k, m2, r, s);
        } else {
            assert(0x100_0000 * (0x800_0000 * h) == 0x8_0000_0000_0000 * h);
            lemma_spread_full(m2, r, s);
        }
    } else {
        lemma_decoded(Single { bits: 0 });
        assert(0 * (0x800_0000 * share(s)) == 0) by (nonlinear_arith);
    }
}

proof fn lemma_fits_init(k: nat, s: nat)
    requires
        k > 0,
        spread_fits(k, s),
    ensures
        spread_fits((k - 1) as nat, s),
{
    let (m, n, p) = (counted((k - 1) as nat), counted(k), pow2(2 * s));
    assert(m * p <= n * p) by (nonlinear_arith)
        requires m <= n, p >= 0;
}

/// What one step does to the sum of squared deviations.
proof fn lemma_spread_growth(n: u64, mean: Single, m2: Single, x: Single, s: nat)
    requires
        continues(n, mean),
        n <= 0x100_0000,
        s >= 100,
        n * pow2((2 * s - 146) as nat) <= pow2(276),
        in_power(mean, s),
        in_power(x, s),
        difference(x, mean).finite(),
        m2.finite(),
        0 <= m2.value() <= (n - 1) * (0x800_0000 * share(s)),
    ensures
        ({
            let (new_mean, new_m2) = welford(n, mean, m2, x);
            distance(
                (new_m2.value() - m2.value()) * pow2(149),
                (x.value() - mean.value()) * (x.value() - new_mean.value()),
            ) <= (0x800_0000 * n + 0x2000_0000) * (lost(s) * lost(s))
        }),
{
    let new_mean = welford(n, mean, m2, x).0;
    let r = product(difference(x, mean), difference(x, new_mean));
    let p = pow2((2 * s - 146) as nat);
    assert(p <= n * p) by (nonlinear_arith)
        requires n >= 1, p >= 0;
    lemma_increment(n, mean, m2, x, s);
    lemma_square_powers(s);
    lemma_spread_sum(n as nat, m2, r, s);
    lemma_spread_scale(
        n as int,
        sum(m2, r).value(),
        m2.value(),
        r.value(),
        (x.value() - mean.value()) * (x.value() - new_mean.value()),
        lost(s),
        pow2(149) as int,
        share(s),
    );
}

/// One more sample in the accumulated sum of squared deviations.
proof fn lemma_spread_next(init: Seq<Single>, x: Single, s: nat)
    requires
        init.len() < 0x100_0000,
        s >= 100,
        spread_fits(init.len() + 1, s),
        in_power(x, s),
        ({
            let k = init.len() as int;
            let (mean, m2) = accumulated(init);
            &&& k == 0 ==> mean.zero()
            &&& in_power(mean, s)
            &&& difference(x, mean).finite()
            &&& m2.finite()
            &&& 0 <= m2.value() <= k * (0x800_0000 * share(s))
            &&& 2 * distance(k * mean.value(), total(init)) <= k * (k + 13) * lost(s)
            &&& distance(m2.value() * pow2(149), squares(init, mean.value())) <= k * (3 * k + 43)
                * (0x200_0000 * (lost(s) * lost(s)))
        }),
    ensures
        ({
            let k = init.len() as int + 1;
            let (mean, m2) = accumulated(init);
            let (new_mean, new_m2) = welford(k as u64, mean, m2, x);
            let f = x.value() - new_mean.value();
            distance(new_m2.value() * pow2(149), squares(init, new_mean.value()) + f * f) <= k * (3
                * k + 43) * (0x200_0000 * (lost(s) * lost(s)))
        }),
{
    let k = init.len() as int + 1;
    let n = k as u64;
    let b = lost(s);
    let (mean, m2) = accumulated(init);
    let (new_mean, new_m2) = welford(n, mean, m2, x);
    let d = new_mean.value() - mean.value();
    assert(b > 0) by {
        lemma_lost(s);
    }
    assert(distance(k * new_mean.value(), (k - 1) * mean.value() + x.value()) <= (k + 6) * b) by {
        lemma_mean_error(n, mean, m2, x, s);
    }
    assert(n * pow2((2 * s - 146) as nat) <= pow2(276)) by {
        lemma_spread_fits(n as nat, n as nat, s);
    }
    lemma_spread_growth(n, mean, m2, x, s);
    assert(distance(x.value(), 0) <= 0x100_0000 * b && distance(mean.value(), 0) <= 0x100_0000 * b)
        by {
        lemma_power_value(x, s);
        lemma_power_value(mean, s);
    }
    lemma_squares_shift(init, mean.value(), d);
    assert(mean.value() + d == new_mean.value());
    lemma_spread_algebra(
        k,
        mean.value(),
        x.value(),
        new_mean.value(),
        total(init),
        squares(init, mean.value()),
        m2.value(),
        new_m2.value(),
        b,
        pow2(149) as int,
    );
}

/// How far the accumulated sum of squared deviations of samples that can be counted
/// exactly is off.
proof fn lemma_spread_close(samples: Seq<Single>, low: Single, high: Single, s: nat)
    requires
        s >= 100,
        samples_in_power(samples, s),
        between(samples, low, high),
        samples.len() <= 0x100_0000,
        spread_fits(samples.len(), s),
    ensures
        ({
            let k = samples.len() as int;
            let (mean, m2) = accumulated(samples);
            distance(m2.value() * pow2(149), squares(samples, mean.value())) <= k * (3 * k + 43) * (
            0x200_0000 * (lost(s) * lost(s)))
        }),
    decreases samples.len(),
{
    let k = samples.len();
    if k > 0 {
        let init = samples.drop_last();
        lemma_samples_init(samples, s);
        lemma_next_difference(samples, low, high);
        lemma_fits_init(k, s);
        lemma_mean_close(init, low, high, s);
        lemma_accumulated_in_power(init, low, high, s);
        lemma_spread_bounded(init, low, high, s);
        lemma_spread_close(init, low, high, s);
        assert(counted(init.len()) == init.len());
        lemma_spread_next(init, samples.last(), s);
    } else {
        lemma_decoded(Single { bits: 0 });
        let p = 0x200_0000 * (lost(s) * lost(s));
        assert(0 * pow2(149) == 0 && 0 * 43 * p == 0) by (nonlinear_arith);
    }
}

/// A sum of squared distances between bounded numbers.
proof fn lemma_squares_bound(samples: Seq<Single>, m: int, s: nat)
    requires
        s >= 100,
        samples_in_power(samples, s),
        distance(m, 0) <= 0x100_0000 * lost(s),
    ensures
        0 <= squares(samples, m) <= samples.len() * (0x4_0000_0000_0000 * (lost(s) * lost(s))),
    decreases samples.len(),
{
    let k = samples.len();
    let b = lost(s);
    let p = 0x4_0000_0000_0000 * (b * b);
    if k > 0 {
        let x = samples.last();
        let d = x.value() - m;
        lemma_samples_init(samples, s);
        lemma_squares_bound(samples.drop_last(), m, s);
        lemma_power_value(x, s);
        assert(0 <= d * d <= p) by (nonlinear_arith)
            requires -0x200_0000 * b <= d <= 0x200_0000 * b, p == 0x4_0000_0000_0000 * (b * b);
        assert(k * p == (k - 1) * p + p) by (nonlinear_arith);
    } else {
        assert(0 * p == 0) by (nonlinear_arith);
    }
}

/// The accumulated sum of squared deviations of `k` samples of at most two to the power
/// `s` units is the sum of their squared distances from the accumulated mean up to
/// rounding: it is off by at most `k (4 k + 44)` times two to the power -23 of the square
/// of two to the power `s` units, and it is never negative.
pub proof fn lemma_accumulated_spread(samples: Seq<Single>, low: Single, high: Single, s: nat)
    requires
        s >= 100,
        samples_in_power(samples, s),
        between(samples, low, high),
        samples.len() <= u64::MAX,
        spread_fits(samples.len(), s),
    ensures
        ({
            let k = samples.len() as int;
            let (mean, m2) = accumulated(samples);
            &&& m2.finite()
            &&& m2.value() >= 0
            &&& distance(m2.value() * pow2(149), squares(samples, mean.value())) <= k * (4 * k
                + 44) * pow2((2 * s - 23) as nat)
        }),
{
    let k = samples.len() as int;
    let (mean, m2) = accumulated(samples);
    let b = lost(s);
    let bb = b * b;
    let (c, h) = (pow2(149) as int, share(s));
    lemma_lost(s);
    lemma_square_powers(s);
    lemma_spread_bounded(samples, low, high, s);
    assert(bb >= 0) by (nonlinear_arith)
        requires bb == b * b;
    if k <= 0x100_0000 {
        lemma_spread_close(samples, low, high, s);
        assert(k * (3 * k + 43) * (0x200_0000 * bb) <= k * (4 * k + 44) * (0x200_0000 * bb))
            by (nonlinear_arith)
            requires k >= 0, bb >= 0;
    } else {
        lemma_accumulated_in_power(samples, low, high, s);
        lemma_power_value(mean, s);
        lemma_squares_bound(samples, mean.value(), s);
        let v = m2.value();
        assert(0x100_0000 * (0x800_0000 * h) == 0x8_0000_0000_0000 * h);
        assert(0 <= v * c <= 0x8_0000_0000_0000 * (h * c)) by (nonlinear_arith)
            requires 0 <= v <= 0x8_0000_0000_0000 * h, c >= 0;
        assert(0x8_0000_0000_0000 * (0x100_0000 * bb) <= k * (4 * k + 44) * (0x200_0000 * bb))
            by (nonlinear_arith)
            requires k >= 0x100_0000, bb >= 0;
        assert(k * (0x4_0000_0000_0000 * bb) <= k * (4 * k + 44) * (0x200_0000 * bb))
            by (nonlinear_arith)
            requires k >= 0x100_0000, bb >= 0;
    }
}

/// The sums without one sample.
proof fn lemma_sums_without(samples: Seq<Single>, i: int, m: int)
    requires
        0 <= i < samples.len(),
    ensures
        ({
            let v = samples[i].value();
            &&& total(samples) == total(samples.remove(i)) + v
            &&& squares(samples, m) == squares(samples.remove(i), m) + (v - m) * (v - m)
        }),
    decreases samples.len(),
{
    let rest = samples.remove(i);
    let init = samples.drop_last();
    if i < samples.len() - 1 {
        lemma_sums_without(init, i, m);
        assert(rest.drop_last() =~= init.remove(i));
        assert(rest.last() == samples.last());
    } else {
        assert(rest =~= init);
    }
}

/// The sums do not depend on the order of the samples.
proof fn lemma_sums_any_order(a: Seq<Single>, b: Seq<Single>, m: int)
    requires
        a.to_multiset() == b.to_multiset(),
    ensures
        total(a) == total(b),
        squares(a, m) == squares(b, m),
    decreases a.len(),
{
    a.to_multiset_ensures();
    b.to_multiset_ensures();
    assert(a.len() == b.len());
    if a.len() > 0 {
        let x = a.last();
        let last = a.len() - 1;
        assert(a[last] == x);
        assert(a.contains(x));
        assert(a.to_multiset().count(x) > 0);
        assert(b.contains(x));
        let i = choose|i: int| 0 <= i < b.len() && b[i] == x;
        assert(a.remove(last) =~= a.drop_last());
        assert(a.remove(last).to_multiset() =~= b.remove(i).to_multiset());
        lemma_sums_any_order(a.drop_last(), b.remove(i), m);
        lemma_sums_without(b, i, m);
    }
}

/// Samples in another order are bounded alike.
proof fn lemma_bounds_any_order(
    a: Seq<Single>,
    b: Seq<Single>,
    low: Single,
    high: Single,
    s: nat,
)
    requires
        a.to_multiset() == b.to_multiset(),
        samples_in_power(a, s),
        between(a, low, high),
    ensures
        a.len() == b.len(),
        samples_in_power(b, s),
        between(b, low, high),
{
    a.to_multiset_ensures();
    b.to_multiset_ensures();
    assert forall|i: int| 0 <= i < b.len() implies in_power(#[trigger] b[i], s) && !b[i].nan()
        && low.order() <= b[i].order() <= high.order() by {
        let x = b[i];
        assert(b.contains(x));
        assert(b.to_multiset().count(x) > 0);
        assert(a.contains(x));
        let j = choose|j: int| 0 <= j < a.len() && a[j] == x;
        assert(in_power(a[j], s));
    }
}

/// Up to rounding, neither the accumulated mean nor the accumulated sum of squared
/// deviations depends on the order of the samples.
pub proof fn lemma_accumulated_any_order(
    a: Seq<Single>,
    b: Seq<Single>,
    low: Single,
    high: Single,
    s: nat,
)
    requires
        s >= 100,
        a.to_multiset() == b.to_multiset(),
        samples_in_power(a, s),
        between(a, low, high),
        a.len() <= u64::MAX,
        spread_fits(a.len(), s),
    ensures
        ({
            let k = a.len() as int;
            let (x, y) = (accumulated(a), accumulated(b));
            &&& distance(k * x.0.value(), k * y.0.value()) <= 2 * (k * (k + 13)) * pow2(
                (s - 23) as nat,
            )
            &&& distance(x.1.value() * pow2(149), y.1.value() * pow2(149)) <= k * (16 * k + 192)
                * pow2((2 * s - 23) as nat)
        }),
{
    let k = a.len() as int;
    let (x, y) = (accumulated(a), accumulated(b));
    let (p, q) = (x.0.value(), y.0.value());
    let b1 = lost(s);
    let d = q - p;
    lemma_bounds_any_order(a, b, low, high, s);
    lemma_accumulated_mean(a, low, high, s);
    lemma_accumulated_mean(b, low, high, s);
    lemma_accumulated_spread(a, low, high, s);
    lemma_accumulated_spread(b, low, high, s);
    lemma_sums_any_order(a, b, q);
    lemma_squares_shift(a, p, d);
    assert(p + d == q);
    lemma_lost(s);
    lemma_square_powers(s);
    lemma_power_value(x.0, s);
    lemma_power_value(y.0, s);
    let e = k * (k + 13) * (2 * b1);
    assert(2 * (k * (k + 13)) * (2 * b1) == 2 * e) by (nonlinear_arith)
        requires e == k * (k + 13) * (2 * b1);
    assert(k * q - k * p == k * d) by (nonlinear_arith)
        requires d == q - p;
    lemma_order_algebra(
        k,
        d,
        k * p - total(a),
        b1,
        x.1.value() * pow2(149),
        y.1.value() * pow2(149),
        squares(a, p),
        squares(a, q),
    );
}

proof fn lemma_order_algebra(
    k: int,
    d: int,
    g: int,
    b: int,
    x: int,
    y: int,
    before: int,
    after: int,
)
    requires
        k >= 0,
        b >= 0,
        distance(d, 0) <= 0x200_0000 * b,
        distance(g, 0) <= k * (k + 13) * (2 * b),
        distance(k * d, 0) <= 2 * (k * (k + 13) * (2 * b)),
        after == before + 2 * (d * g) + k * (d * d),
        distance(x, before) <= k * (4 * k + 44) * (0x200_0000 * (b * b)),
        distance(y, after) <= k * (4 * k + 44) * (0x200_0000 * (b * b)),
    ensures
        distance(x, y) <= k * (16 * k + 192) * (0x200_0000 * (b * b)),
{
    let e = k * (k + 13) * (2 * b);
    let w = 0x200_0000 * b;
    let bb = 0x200_0000 * (b * b);
    assert(distance(d * g, 0) <= w * e) by (nonlinear_arith)
        requires -w <= d <= w, -e <= g <= e;
    let h = k * d;
    assert(k * (d * d) == h * d) by (nonlinear_arith)
        requires h == k * d;
    assert(distance(h * d, 0) <= 2 * (w * e)) by (nonlinear_arith)
        requires -w <= d <= w, -2 * e <= h <= 2 * e;
    assert(w * e == 2 * (k * (k + 13) * bb)) by (nonlinear_arith)
        requires w == 0x200_0000 * b, e == k * (k + 13) * (2 * b), bb == 0x200_0000 * (b * b);
    assert(k * (16 * k + 192) * bb == 2 * (k * (4 * k + 44) * bb) + 8 * (k * (k + 13) * bb))
        by (nonlinear_arith);
}

}
