//! What deviations, Z-scores, exponents and drifts measure, and the constants they are
//! held against.

use crate::accuracy::{
    distance, lemma_product_error, lemma_quotient_error, lemma_quotient_whole, lemma_sum_error,
    lemma_units_of, lemma_whole_exact,
};
use crate::bounds::{lemma_one, lemma_product_shrinks, lemma_unit_distance, lemma_z_score_finite};
use crate::classify::{
    count_key, field_result, incremented, m2_key, mean_score_key, mean_vec_key, score_against,
    scored,
};
use crate::codec::{counter, number, vector};
use crate::effects::{message_outcome, message_scores, Store};
use crate::encode::superposition;
use crate::rounding::{
    lemma_nearest_root_unique, lemma_pow2_increases, lemma_root_place_is, lemma_rounded_monotone,
    nearest_root, root_place, rounded_root,
};
use crate::single::{
    absolute, difference, greater_of, lemma_decoded, lemma_exact, lemma_magnitude_order,
    lemma_opposite, less, opposite, product, quotient, root, whole, Single, ONE,
};
use crate::solutions::MAX_SOLUTIONS;
use crate::stats::{
    decay_exponent, drift_class, slope, z_score, DRIFT_WARN, EMERGING_CONFIDENCE, EPSILON,
    FIELD_THRESHOLD, HALF, HISTORY_LEN, HITL_THRESHOLD, MINUS_HALF, MIN_SAMPLES, MSG_SIGNAL_WEIGHT,
    REGIME_CHANGE_CONFIDENCE, SLOPE_WARN, STABLE_CONFIDENCE, TREND_SHIFT_CONFIDENCE, WINDOW_N,
    Z_THRESHOLD,
};
use crate::streams::lemma_message_statistics;
use crate::temporal::{advanced, drift_between, drift_result, extended, grown, WARM_SIZE};
use crate::vsa::similarity_of;
use vstd::arithmetic::power2::{lemma_pow2_adds, lemma_pow2_pos, pow2};
use vstd::prelude::*;

verus! {

broadcast use crate::rounding::lemma_rounded_limit;

/// The binary length of a number.
proof fn lemma_binary_length(m: nat) -> (l: nat)
    requires
        m > 0,
    ensures
        l >= 1,
        pow2((l - 1) as nat) <= m < pow2(l),
    decreases m,
{
    vstd::arithmetic::power2::lemma2_to64();
    if m == 1 {
        1
    } else {
        let k = lemma_binary_length(m / 2);
        lemma_pow2_adds(1, k);
        lemma_pow2_adds(1, (k - 1) as nat);
        k + 1
    }
}

/// The whole part of a square root.
proof fn lemma_whole_root(k: nat) -> (s: nat)
    ensures
        s * s <= k < (s + 1) * (s + 1),
    decreases k,
{
    if k == 0 {
        let s: nat = 0;
        assert((s + 1) * (s + 1) == 1) by (nonlinear_arith)
            requires s == 0;
        s
    } else {
        let h = k / 4;
        let t = lemma_whole_root(h);
        let low = 2 * t;
        let high = low + 1;
        assert(low * low == 4 * (t * t)) by (nonlinear_arith)
            requires low == 2 * t;
        assert((high + 1) * (high + 1) == 4 * ((t + 1) * (t + 1))) by (nonlinear_arith)
            requires high == 2 * t + 1;
        if high * high <= k {
            high
        } else {
            low
        }
    }
}

/// The place and the significand of a square root.
proof fn lemma_root_parts(m: nat, e: nat) -> (r: (nat, nat))
    requires
        0 < m < 0x100_0000,
        149 <= e <= 402,
    ensures
        ({
            let n = m * pow2(e);
            let (q, k) = r;
            &&& 0 < q <= 201
            &&& root_place(n) == q
            &&& n == k * pow2(2 * q)
            &&& 0x4000_0000_0000 <= k < 0x1_0000_0000_0000
        }),
{
    let l = lemma_binary_length(m);
    vstd::arithmetic::power2::lemma2_to64();
    vstd::arithmetic::power2::lemma2_to64_rest();
    if l > 24 {
        lemma_pow2_increases(24, (l - 1) as nat);
    }
    let q = ((l + e - 47) / 2) as nat;
    let shift = (e - 2 * q) as nat;
    let scale = pow2(shift);
    let n = m * pow2(e);
    lemma_pow2_adds((l - 1) as nat, shift);
    lemma_pow2_adds(l, shift);
    lemma_pow2_pos(shift);
    lemma_pow2_increases(46, (l - 1 + shift) as nat);
    lemma_pow2_increases((l + shift) as nat, 48);
    let k = m * scale;
    assert(k >= pow2((l - 1) as nat) * scale) by (nonlinear_arith)
        requires k == m * scale, m >= pow2((l - 1) as nat);
    assert(k < pow2(l) * scale) by (nonlinear_arith)
        requires k == m * scale, m < pow2(l), scale > 0;
    lemma_pow2_adds(shift, 2 * q);
    assert(n == k * pow2(2 * q)) by (nonlinear_arith)
        requires n == m * pow2(e), pow2(e) == scale * pow2(2 * q), k == m * scale;
    lemma_root_place_is(n, k, q);
    (q, k)
}

/// A square root is off by so little that its square is off by at most one part in two to
/// the power 22.
pub proof fn lemma_root_error(x: Single)
    requires
        x.finite(),
        !x.negative(),
        x.units() > 0,
    ensures
        ({
            let r = root(x);
            let square = (r.units() * r.units()) as int;
            &&& r.finite()
            &&& !r.negative()
            &&& 0x40_0000 * distance(square, (x.units() * pow2(149)) as int) <= square
        }),
{
    lemma_decoded(x);
    let m = (x.magnitude() - x.place() * 0x80_0000) as nat;
    let e = x.place() + 149;
    let n = x.units() * pow2(149);
    lemma_pow2_adds(x.place(), 149);
    lemma_pow2_pos(x.place());
    assert(n == m * pow2(e)) by (nonlinear_arith)
        requires
            n == x.units() * pow2(149),
            x.units() == m * pow2(x.place()),
            pow2(e) == pow2(x.place()) * pow2(149),
    ;
    assert(m > 0) by (nonlinear_arith)
        requires x.units() == m * pow2(x.place()), x.units() > 0;
    let (q, k) = lemma_root_parts(m, e);
    let s = lemma_whole_root(k);
    let r = lemma_root_nearest(n, q, k, s);
    assert(rounded_root(n) == q * 0x80_0000 + r);
    lemma_units_of(q, r);
    lemma_root_square(n, q, r);
}

/// The whole number nearest to a square root.
proof fn lemma_root_nearest(n: nat, q: nat, k: nat, s: nat) -> (r: nat)
    requires
        n == k * pow2(2 * q),
        root_place(n) == q,
        0x4000_0000_0000 <= k < 0x1_0000_0000_0000,
        s * s <= k < (s + 1) * (s + 1),
    ensures
        0x80_0000 <= r <= 0x100_0000,
        nearest_root(n, q, r),
        rounded_root(n) == q * 0x80_0000 + r,
{
    assert(0x7f_ffff < s < 0x100_0000) by (nonlinear_arith)
        requires
            s * s <= k < (s + 1) * (s + 1),
            0x4000_0000_0000 <= k < 0x1_0000_0000_0000,
    ;
    let r = if k - s * s > s {
        s + 1
    } else {
        s
    };
    let f = pow2(2 * q);
    lemma_pow2_pos(2 * q);
    let x = 2 * r - 1;
    let y = 2 * r + 1;
    assert(x * x < 4 * k < y * y) by {
        if r == s {
            assert(x * x < 4 * k < y * y) by (nonlinear_arith)
                requires
                    s * s <= k <= s * s + s,
                    x == 2 * s - 1,
                    y == 2 * s + 1,
                    s > 0,
            ;
        } else {
            assert(x * x < 4 * k < y * y) by (nonlinear_arith)
                requires
                    s * s + s < k < (s + 1) * (s + 1),
                    x == 2 * s + 1,
                    y == 2 * s + 3,
            ;
        }
    }
    assert(x * x * f < 4 * (k * f) < y * y * f) by (nonlinear_arith)
        requires x * x < 4 * k < y * y, f > 0;
    assert(nearest_root(n, q, r));
    let c = choose|c: nat| nearest_root(n, q, c);
    lemma_nearest_root_unique(n, q, r, c);
    lemma_nearest_root_unique(n, q, c, r);
    r
}

/// The square of a rounded root.
proof fn lemma_root_square(n: nat, q: nat, r: nat)
    requires
        nearest_root(n, q, r),
        r >= 0x80_0000,
    ensures
        ({
            let d = r * pow2(q);
            0x40_0000 * distance((d * d) as int, n as int) <= d * d
        }),
{
    let p = pow2(q);
    let d = r * p;
    let f = pow2(2 * q);
    lemma_pow2_adds(q, q);
    assert(q + q == 2 * q);
    assert((2 * r - 1) * (2 * r - 1) * f == 4 * (d * d) - 4 * (d * p) + f) by (nonlinear_arith)
        requires d == r * p, f == p * p;
    assert((2 * r + 1) * (2 * r + 1) * f == 4 * (d * d) + 4 * (d * p) + f) by (nonlinear_arith)
        requires d == r * p, f == p * p;
    assert(0x80_0000 * (d * p) <= d * d) by (nonlinear_arith)
        requires d == r * p, r >= 0x80_0000;
    assert(0x80_0000 * f <= d * p) by (nonlinear_arith)
        requires d == r * p, f == p * p, r >= 0x80_0000;
}

/// Whether `d` is a standard deviation of `n` samples whose squared deviations sum up to
/// `m2`: `n - 1` times its square is that sum, off by at most one part in two to the
/// power 19, or it is the least one, 1e-6, and the sum calls for no more.
pub open spec fn deviates(d: Single, m2: Single, n: u64) -> bool {
    let squares = (d.units() * d.units()) * (n - 1);
    let exact = m2.value() * pow2(149);
    &&& d.finite()
    &&& !d.negative()
    &&& d.magnitude() >= EPSILON
    &&& d.bits == EPSILON || 0x10_0000 * distance(squares, exact) <= squares + exact
    &&& 0x10_0000 * exact <= 0x10_0002 * squares
}

/// The least standard deviation.
proof fn lemma_epsilon()
    ensures
        ({
            let e = Single { bits: EPSILON };
            &&& e.finite()
            &&& !e.negative()
            &&& e.magnitude() == EPSILON
            &&& 0x1000_0000 * pow2(149) <= e.units() * e.units()
            &&& e.units() > 0
        }),
{
    let e = Single { bits: EPSILON };
    let p = pow2(106);
    lemma_pow2_pos(106);
    lemma_pow2_pos(35);
    vstd::arithmetic::power2::lemma2_to64();
    lemma_pow2_adds(28, 149);
    lemma_pow2_adds(106, 106);
    lemma_pow2_adds(177, 35);
    assert(e.place() == 106);
    assert(e.units() == 0x86_37bd * p);
    assert(p * p >= pow2(177)) by (nonlinear_arith)
        requires p * p == pow2(177) * pow2(35), pow2(35) >= 1, pow2(177) >= 0;
    assert((0x86_37bd * p) * (0x86_37bd * p) >= p * p) by (nonlinear_arith)
        requires p > 0;
}

/// The mean of the squared deviations.
proof fn lemma_variance(m2: Single, n: nat)
    requires
        m2.finite(),
        m2.value() >= 0,
        1 <= n <= 0x100_0000,
    ensures
        ({
            let v = quotient(m2, whole(n));
            &&& v.finite()
            &&& v.value() >= 0
            &&& 0x100_0000 * distance((v.units() * n) as int, m2.value()) <= m2.value() + 0x80_0000
                * n
        }),
{
    let v = quotient(m2, whole(n));
    let c = pow2(149);
    let m = m2.units();
    lemma_pow2_pos(149);
    lemma_whole_exact(n);
    lemma_decoded(m2);
    lemma_decoded(whole(n));
    assert(n * c > 0) by (nonlinear_arith)
        requires n >= 1, c > 0;
    assert((m * c) * 1 <= m * (n * c)) by (nonlinear_arith)
        requires n >= 1, m >= 0, c > 0;
    lemma_rounded_monotone(m * c, n * c, m, 1);
    lemma_exact(m2);
    lemma_quotient_whole(m2, n);
    lemma_quotient_error(m2, whole(n));
    lemma_decoded(v);
}

/// The standard deviation of samples is the square root of the mean squared deviation up
/// to rounding, and at least 1e-6.
pub proof fn lemma_deviation(m2: Single, n: u64)
    requires
        m2.finite(),
        m2.value() >= 0,
        2 <= n <= 0x100_0001,
    ensures
        deviates(
            greater_of(root(quotient(m2, whole((n - 1) as nat))), Single { bits: EPSILON }),
            m2,
            n,
        ),
{
    let k = (n - 1) as nat;
    let v = quotient(m2, whole(k));
    let e = Single { bits: EPSILON };
    let r = root(v);
    lemma_epsilon();
    lemma_variance(m2, k);
    lemma_decoded(v);
    if v.units() == 0 {
        lemma_deviation_algebra(0, 0, m2.value(), e.units() as int, k as int);
    } else {
        lemma_root_error(v);
        lemma_magnitude_order(r, e);
        lemma_magnitude_order(e, r);
        lemma_deviation_algebra(
            r.units() as int,
            v.units() as int,
            m2.value(),
            e.units() as int,
            k as int,
        );
    }
}

proof fn lemma_deviation_algebra(r: int, v: int, m: int, e: int, k: int)
    requires
        r >= 0,
        v >= 0,
        m >= 0,
        e > 0,
        k >= 1,
        0x1000_0000 * pow2(149) <= e * e,
        0x40_0000 * distance(r * r, v * pow2(149)) <= r * r,
        0x100_0000 * distance(v * k, m) <= m + 0x80_0000 * k,
    ensures
        r >= e ==> 0x10_0000 * distance((r * r) * k, m * pow2(149)) <= (r * r) * k + m * pow2(149),
        r >= e ==> 0x10_0000 * (m * pow2(149)) <= 0x10_0002 * ((r * r) * k),
        r <= e ==> 0x10_0000 * (m * pow2(149)) <= 0x10_0002 * ((e * e) * k),
{
    let c = pow2(149) as int;
    let exact = m * c;
    let own = (r * r) * k;
    let least = (e * e) * k;
    let middle = (v * c) * k;
    let unit = c * k;
    lemma_pow2_pos(149);
    let x = r * r - v * c;
    assert(x * k == own - middle) by (nonlinear_arith)
        requires x == r * r - v * c, own == (r * r) * k, middle == (v * c) * k;
    assert(0x40_0000 * distance(x * k, 0) <= own) by (nonlinear_arith)
        requires
            -(r * r) <= 0x40_0000 * x <= r * r,
            own == (r * r) * k,
            k >= 1,
    ;
    let y = v * k - m;
    assert(y * c == middle - exact) by (nonlinear_arith)
        requires y == v * k - m, exact == m * c, middle == (v * c) * k;
    assert(0x100_0000 * distance(y * c, 0) <= exact + 0x80_0000 * unit) by (nonlinear_arith)
        requires
            -(m + 0x80_0000 * k) <= 0x100_0000 * y <= m + 0x80_0000 * k,
            exact == m * c,
            unit == c * k,
            c > 0,
    ;
    assert(0x1000_0000 * unit <= least) by (nonlinear_arith)
        requires 0x1000_0000 * c <= e * e, unit == c * k, least == (e * e) * k, k >= 1;
    assert(exact >= 0) by (nonlinear_arith)
        requires exact == m * c, m >= 0, c > 0;
    if r >= e {
        assert(least <= own) by (nonlinear_arith)
            requires r >= e, e > 0, least == (e * e) * k, own == (r * r) * k, k >= 1;
    }
    if r <= e {
        assert(own <= least) by (nonlinear_arith)
            requires 0 <= r <= e, least == (e * e) * k, own == (r * r) * k, k >= 1;
    }
}

/// Whether `z` times `d` is `gap`, up to one part in two to the power 22 and the last
/// units of both.
pub open spec fn deviations(z: Single, d: Single, gap: int) -> bool {
    0x40_0000 * distance(z.value() * d.units(), gap * pow2(149)) <= gap * pow2(149) + 0x40_0000 * (
    pow2(149) + d.units())
}

/// The Z-score of a score is how many standard deviations it is from the mean, up to
/// rounding, on either side of it; it is zero with fewer than two samples.
pub proof fn lemma_z_score(score: Single, mean: Single, m2: Single, n: u64)
    requires
        score.magnitude() <= ONE,
        mean.magnitude() <= ONE,
        m2.finite(),
        m2.value() >= 0,
        n <= 0x100_0001,
    ensures
        n < 2 ==> z_score(score, mean, m2, n).value() == 0,
        n >= 2 ==> exists|d: Single| #[trigger]
            deviates(d, m2, n) && deviations(
                z_score(score, mean, m2, n),
                d,
                distance(score.value(), mean.value()),
            ),
{
    reveal(z_score);
    if n < 2 {
        lemma_decoded(Single { bits: 0 });
    } else {
        let d = greater_of(root(quotient(m2, whole((n - 1) as nat))), Single { bits: EPSILON });
        lemma_deviation(m2, n);
        lemma_z_score_finite(score, mean, m2, n);
        lemma_gap(score, mean, d);
    }
}

/// The quotient of a distance and a deviation.
proof fn lemma_gap(score: Single, mean: Single, d: Single)
    requires
        score.magnitude() <= ONE,
        mean.magnitude() <= ONE,
        d.finite(),
        !d.negative(),
        d.magnitude() >= EPSILON,
        quotient(absolute(difference(score, mean)), d).finite(),
    ensures
        deviations(
            quotient(absolute(difference(score, mean)), d),
            d,
            distance(score.value(), mean.value()),
        ),
{
    let a = absolute(difference(score, mean));
    let z = quotient(a, d);
    lemma_pow2_pos(149);
    assert(d.units() > 0) by {
        lemma_decoded(d);
    }
    assert(a.finite() && a.value() >= 0 && 0x100_0000 * distance(
        a.value(),
        distance(score.value(), mean.value()),
    ) <= distance(score.value(), mean.value()) + 0x80_0000) by {
        lemma_distance(score, mean);
    }
    assert(0x100_0000 * distance(z.value() * d.units(), a.value() * pow2(149)) <= distance(
        a.value() * pow2(149),
        0,
    ) + 0x80_0000 * d.units()) by {
        lemma_quotient_error(a, d);
    }
    lemma_gap_algebra(
        a.value(),
        distance(score.value(), mean.value()),
        z.value() * d.units(),
        d.units() as int,
        pow2(149) as int,
    );
}

/// The distance of two numbers between minus one and one.
proof fn lemma_distance(x: Single, y: Single)
    requires
        x.magnitude() <= ONE,
        y.magnitude() <= ONE,
    ensures
        ({
            let a = absolute(difference(x, y));
            let e = distance(x.value(), y.value());
            &&& a.finite()
            &&& a.value() >= 0
            &&& 0x100_0000 * distance(a.value(), e) <= e + 0x80_0000
        }),
{
    let z = opposite(y);
    let d = difference(x, y);
    lemma_unit_distance(x, y);
    lemma_opposite(y);
    lemma_sum_error(x, z);
    assert(absolute(d).units() == d.units());
    lemma_decoded(d);
}

proof fn lemma_gap_algebra(a: int, e: int, q: int, d: int, c: int)
    requires
        0 <= a,
        0 <= e,
        d > 0,
        c > 0,
        0x100_0000 * distance(a, e) <= e + 0x80_0000,
        0x100_0000 * distance(q, a * c) <= distance(a * c, 0) + 0x80_0000 * d,
    ensures
        0x40_0000 * distance(q, e * c) <= e * c + 0x40_0000 * (c + d),
{
    let x = a - e;
    let f = e * c;
    assert(x * c == a * c - f) by (nonlinear_arith)
        requires x == a - e, f == e * c;
    assert(0x100_0000 * distance(x * c, 0) <= f + 0x80_0000 * c) by (nonlinear_arith)
        requires
            -(e + 0x80_0000) <= 0x100_0000 * x <= e + 0x80_0000,
            f == e * c,
            c > 0,
    ;
    assert(a * c >= 0) by (nonlinear_arith)
        requires a >= 0, c > 0;
}

/// The exponent of the confidence curve is half the square of the Z-score, with the sign
/// changed, up to rounding.
pub proof fn lemma_exponent_value(z: Single)
    requires
        z.finite(),
        decay_exponent(z).finite(),
    ensures
        ({
            let square = z.value() * z.value();
            let c = pow2(149) as int;
            0x100_0000 * distance(2 * (decay_exponent(z).value() * c), -square) <= 4 * square
                + 0x200_0000 * c
        }),
{
    let half = Single { bits: MINUS_HALF };
    let p = product(half, z);
    let x = product(p, z);
    let c = pow2(149) as int;
    vstd::arithmetic::power2::lemma2_to64();
    lemma_pow2_pos(149);
    lemma_pow2_adds(23, 125);
    lemma_pow2_adds(24, 125);
    lemma_pow2_adds(50, 99);
    vstd::arithmetic::power2::lemma2_to64_rest();
    lemma_pow2_pos(99);
    assert(half.place() == 125);
    assert(half.units() == 0x80_0000 * pow2(125));
    lemma_product_shrinks(half, z);
    lemma_product_error(half, z);
    lemma_product_error(p, z);
    lemma_exponent_algebra(z.value(), p.value(), x.value(), c);
}

proof fn lemma_exponent_algebra(z: int, p: int, x: int, c: int)
    requires
        c >= 0x4_0000_0000_0000,
        c % 2 == 0,
        0x100_0000 * distance(p * c, (-(c / 2)) * z) <= distance((-(c / 2)) * z, 0) + 0x80_0000 * c,
        0x100_0000 * distance(x * c, p * z) <= distance(p * z, 0) + 0x80_0000 * c,
    ensures
        0x100_0000 * distance(2 * (x * c), -(z * z)) <= 4 * (z * z) + 0x200_0000 * c,
{
    let h = c / 2;
    let a = distance(z, 0);
    let square = z * z;
    let y = 2 * p + z;
    assert(h * y == p * c - (-h) * z) by (nonlinear_arith)
        requires y == 2 * p + z, c == 2 * h;
    assert(distance((-h) * z, 0) == h * a) by (nonlinear_arith)
        requires a == (if z <= 0 { 0 - z } else { z - 0 }), h >= 0;
    assert(distance(h * y, 0) == h * distance(y, 0)) by (nonlinear_arith)
        requires h >= 0;
    let e = distance(y, 0);
    assert(0x100_0000 * e <= a + 0x100_0000) by (nonlinear_arith)
        requires
            0x100_0000 * (h * e) <= h * a + 0x80_0000 * (2 * h),
            h > 0,
    ;
    assert(a * a == square) by (nonlinear_arith)
        requires a == (if z <= 0 { 0 - z } else { z - 0 }), square == z * z;
    let f = y * z;
    assert(f == 2 * (p * z) + square) by (nonlinear_arith)
        requires f == y * z, y == 2 * p + z, square == z * z;
    assert(0x100_0000 * distance(f, 0) <= square + 0x100_0000 * a) by (nonlinear_arith)
        requires
            distance(f, 0) == (if f <= 0 { 0 - f } else { f - 0 }),
            e == (if y <= 0 { 0 - y } else { y - 0 }),
            a == (if z <= 0 { 0 - z } else { z - 0 }),
            f == y * z,
            0x100_0000 * e <= a + 0x100_0000,
            a * a == square,
    ;
    assert(0x100_0000 * a <= square + 0x1_0000_0000_0000) by (nonlinear_arith)
        requires a * a == square, a >= 0;
}

/// The drift between two windows is one less the similarity of their bundles, up to
/// rounding, where that lies between minus one and one; it is none without bundles.
pub proof fn lemma_drift_value(
    now: Seq<(Seq<usize>, Seq<usize>)>,
    prev: Seq<(Seq<usize>, Seq<usize>)>,
)
    ensures
        match (superposition(now), superposition(prev)) {
            (Some(a), Some(b)) => similarity_of(a, b).magnitude() <= ONE ==> {
                let drift = drift_between(now, prev);
                &&& drift.finite()
                &&& drift.value() >= 0
                &&& distance(drift.value(), pow2(149) - similarity_of(a, b).value()) <= pow2(126)
            },
            _ => drift_between(now, prev).value() == 0,
        },
{
    lemma_decoded(Single { bits: 0 });
    if let (Some(a), Some(b)) = (superposition(now), superposition(prev)) {
        if similarity_of(a, b).magnitude() <= ONE {
            lemma_one_less_value(similarity_of(a, b));
        }
    }
}

/// One less a number between minus one and one.
proof fn lemma_one_less_value(s: Single)
    requires
        s.magnitude() <= ONE,
    ensures
        ({
            let d = greater_of(difference(Single { bits: ONE }, s), Single { bits: 0 });
            &&& d.finite()
            &&& d.value() >= 0
            &&& distance(d.value(), pow2(149) - s.value()) <= pow2(126)
        }),
{
    let one = Single { bits: ONE };
    let y = opposite(s);
    let d = difference(one, s);
    lemma_one();
    lemma_magnitude_order(s, one);
    lemma_unit_distance(one, s);
    lemma_opposite(s);
    vstd::arithmetic::power2::lemma2_to64();
    lemma_pow2_adds(24, 125);
    lemma_pow2_adds(1, 125);
    lemma_pow2_pos(125);
    assert(d.value() >= 0 && distance(d.value(), pow2(149) - s.value()) <= pow2(126)) by {
        lemma_sum_error(one, y);
    }
    lemma_decoded(d);
    assert(!less(d, Single { bits: 0 }));
}

/// A drift history takes in a drift at its end, and from ten values on it drops the oldest.
pub proof fn lemma_history_extends(old: Seq<Single>, drift: Single)
    ensures
        old.len() < 10 ==> extended(old, drift) == old.push(drift),
        old.len() >= 10 ==> extended(old, drift) == old.skip(1).push(drift),
{
    assert(old.push(drift).skip(1) =~= old.skip(1).push(drift) || old.len() == 0);
}

/// What has no running vector yet is as similar as can be, and no anomaly; anything else is
/// compared with its running vector.
pub proof fn lemma_cold_start(
    name: Seq<char>,
    v: (Seq<usize>, Seq<usize>),
    base: (Seq<usize>, Seq<usize>),
)
    ensures
        score_against(v, None).value() == pow2(149),
        !field_result(name, score_against(v, None)).2,
        score_against(v, Some(base)) == similarity_of(v, base),
{
    lemma_one();
}

/// After the warm-up, the Z-score of a message tells how many standard deviations its
/// similarity to the mean bundle, as that was before, is from the mean of the
/// similarities, as it is after the message.
pub proof fn lemma_message_deviations(
    store: Store,
    subject: Seq<char>,
    fields: Seq<(Seq<char>, (Seq<usize>, Seq<usize>))>,
    bundle: (Seq<usize>, Seq<usize>),
    exponential: spec_fn(Single) -> Single,
)
    requires
        MIN_SAMPLES <= counter(store.get(count_key(subject))) <= 0x100_0000,
        score_against(bundle, vector(store.get(mean_vec_key(subject)))).magnitude() <= ONE,
        ({
            let after = message_outcome(store, subject, fields, bundle, exponential).1;
            let m2 = number(after.get(m2_key(subject)));
            &&& number(after.get(mean_score_key(subject))).magnitude() <= ONE
            &&& m2.finite()
            &&& m2.value() >= 0
        }),
    ensures
        ({
            let n = (counter(store.get(count_key(subject))) + 1) as u64;
            let after = message_outcome(store, subject, fields, bundle, exponential).1;
            let score = score_against(bundle, vector(store.get(mean_vec_key(subject))));
            let mean = number(after.get(mean_score_key(subject)));
            let m2 = number(after.get(m2_key(subject)));
            let z = message_scores(store, subject, bundle, n).2;
            &&& z.finite()
            &&& z.value() >= 0
            &&& exists|d: Single| #[trigger]
                deviates(d, m2, n) && deviations(z, d, distance(score.value(), mean.value()))
        }),
{
    let n = (counter(store.get(count_key(subject))) + 1) as u64;
    let after = message_outcome(store, subject, fields, bundle, exponential).1;
    let score = score_against(bundle, vector(store.get(mean_vec_key(subject))));
    let mean = number(after.get(mean_score_key(subject)));
    let m2 = number(after.get(m2_key(subject)));
    lemma_message_statistics(store, subject, fields, bundle, exponential);
    assert(message_scores(store, subject, bundle, n).2 == z_score(score, mean, m2, n)) by {
        reveal(scored);
    }
    lemma_z_score(score, mean, m2, n);
    lemma_z_score_finite(score, mean, m2, n);
    lemma_decoded(z_score(score, mean, m2, n));
}

/// What the thresholds, weights and sizes are.
pub proof fn lemma_constants()
    ensures
        ({
            let c = pow2(149) as int;
            &&& 2 * (Single { bits: Z_THRESHOLD }).value() == 5 * c
            &&& 2 * (Single { bits: HALF }).value() == c
            &&& 4 * (Single { bits: TREND_SHIFT_CONFIDENCE }).value() == 3 * c
            &&& distance(10 * (Single { bits: FIELD_THRESHOLD }).value(), 7 * c) <= 5 * pow2(125)
            &&& distance(10 * (Single { bits: HITL_THRESHOLD }).value(), 7 * c) <= 5 * pow2(125)
            &&& distance(5 * (Single { bits: MSG_SIGNAL_WEIGHT }).value(), 3 * c) <= 5 * pow2(124)
            &&& distance(25 * (Single { bits: REGIME_CHANGE_CONFIDENCE }).value(), 22 * c) <= 25
                * pow2(124)
            &&& distance(5 * (Single { bits: EMERGING_CONFIDENCE }).value(), 3 * c) <= 5 * pow2(124)
            &&& distance(20 * (Single { bits: STABLE_CONFIDENCE }).value(), 19 * c) <= 20 * pow2(
                124,
            )
            &&& distance(10 * (Single { bits: DRIFT_WARN }).value(), 3 * c) <= 10 * pow2(123)
            &&& distance(50 * (Single { bits: SLOPE_WARN }).value(), c) <= 50 * pow2(119)
            &&& distance(1_000_000 * (Single { bits: EPSILON }).value(), c) <= 1_000_000 * pow2(105)
        }),
        MIN_SAMPLES == 30 && WINDOW_N == 20 && WARM_SIZE == 2 * WINDOW_N && HISTORY_LEN == 10
            && MAX_SOLUTIONS == 5,
{
    let p = pow2(105);
    vstd::arithmetic::power2::lemma2_to64();
    lemma_pow2_adds(1, 105);
    lemma_pow2_adds(14, 105);
    lemma_pow2_adds(15, 105);
    lemma_pow2_adds(18, 105);
    lemma_pow2_adds(19, 105);
    lemma_pow2_adds(20, 105);
    lemma_pow2_adds(22, 105);
    lemma_pow2_adds(44, 105);
    vstd::arithmetic::power2::lemma2_to64_rest();
    lemma_pow2_pos(105);
    assert((Single { bits: Z_THRESHOLD }).units() == 0xa0_0000 * pow2(127));
    assert((Single { bits: HALF }).units() == 0x80_0000 * pow2(125));
    assert((Single { bits: TREND_SHIFT_CONFIDENCE }).units() == 0xc0_0000 * pow2(125));
    assert((Single { bits: FIELD_THRESHOLD }).units() == 0xb3_3333 * pow2(125));
    assert((Single { bits: HITL_THRESHOLD }).units() == 0xb3_3333 * pow2(125));
    assert((Single { bits: MSG_SIGNAL_WEIGHT }).units() == 0x99_999a * pow2(125));
    assert((Single { bits: REGIME_CHANGE_CONFIDENCE }).units() == 0xe1_47ae * pow2(125));
    assert((Single { bits: EMERGING_CONFIDENCE }).units() == 0x99_999a * pow2(125));
    assert((Single { bits: STABLE_CONFIDENCE }).units() == 0xf3_3333 * pow2(125));
    assert((Single { bits: DRIFT_WARN }).units() == 0x99_999a * pow2(124));
    assert((Single { bits: SLOPE_WARN }).units() == 0xa3_d70a * pow2(120));
    assert((Single { bits: EPSILON }).units() == 0x86_37bd * pow2(106));
}

/// Counters go up by one: that of the messages stays at its greatest value, the write
/// pointer starts over, and the fill count stops at two windows.
pub proof fn lemma_counters(n: u64)
    ensures
        n < u64::MAX ==> incremented(n) == n + 1 && advanced(n) == n + 1,
        n == u64::MAX ==> incremented(n) == n && advanced(n) == 0,
        n < 2 * WINDOW_N ==> grown(n) == n + 1,
        2 * WINDOW_N <= n < u64::MAX ==> grown(n) == 2 * WINDOW_N,
{
}

/// One value, or none, has no slope.
pub proof fn lemma_short_history(values: Seq<Single>)
    requires
        values.len() < 2,
    ensures
        slope(values).value() == 0,
{
    reveal(slope);
    lemma_decoded(Single { bits: 0 });
}

/// A drift is classified by itself and by the slope of the history that it ends.
pub proof fn lemma_drift_results(drift: Single, values: Seq<Single>)
    ensures
        ({
            let t = drift_result(drift, values);
            &&& (t.label, t.confidence) == drift_class(t.drift, t.drift_rate)
            &&& t.drift == drift
            &&& t.drift_rate == slope(values)
        }),
{
}

}
