//! What the regression over positions comes to.

use crate::accumulation::total;
use crate::accuracy::{
    distance, lemma_product_error, lemma_quotient_whole, lemma_small, lemma_sum_within,
    lemma_whole_exact, lemma_within, small, within,
};
use crate::bounds::lemma_one;
use crate::rounding::lemma_rounded_monotone;
use crate::single::{
    absolute, difference, lemma_decoded, lemma_magnitude_order, lemma_opposite, less, opposite,
    product, quotient, sum, whole, Single, ONE,
};
use crate::stats::{regression_sums, slope, EPSILON, HISTORY_LEN};
use crate::temporal::extended;
use vstd::arithmetic::power2::{lemma_pow2_pos, pow2};
use vstd::prelude::*;

verus! {

broadcast use crate::rounding::lemma_rounded_limit;

/// A product of a whole number and a bounded number.
proof fn lemma_product_within(i: nat, y: Single, m: nat)
    requires
        within(y, m),
        i <= 0x100_0000,
        i * m <= 0x100_0000,
    ensures
        within(product(whole(i), y), i * m),
        distance(product(whole(i), y).value(), i * y.value()) <= (i * m) * small(),
{
    let c = pow2(149) as int;
    let x = whole(i);
    let u = y.units() as int;
    let v = y.value();
    let r = product(x, y).value();
    let b = small();
    lemma_pow2_pos(149);
    lemma_small();
    lemma_whole_exact(i);
    assert(0 <= (i * c) * u <= ((i * m) * c) * c) by (nonlinear_arith)
        requires 0 <= u <= m * c, i >= 0, c > 0;
    lemma_within((x.units() * y.units()) as nat, pow2(149), i * m);
    lemma_product_error(x, y);
    let w = i * v;
    assert((i * c) * v == w * c) by (nonlinear_arith)
        requires w == i * v;
    assert(distance(r * c, w * c) == distance(r, w) * c) by (nonlinear_arith)
        requires c > 0;
    let p = distance(r, w);
    let q = distance(w, 0);
    assert(distance(w * c, 0) == q * c) by (nonlinear_arith)
        requires c > 0, q == distance(w, 0);
    assert(0x100_0000 * p <= q + 0x80_0000) by (nonlinear_arith)
        requires
            0x100_0000 * (p * c) <= q * c + 0x80_0000 * c,
            c > 0,
    ;
    let h = (i * m) * b;
    assert(q <= 0x100_0000 * h) by (nonlinear_arith)
        requires
            q == w || q == -w,
            w == i * v,
            v == u || v == -u,
            0 <= u <= m * c,
            i >= 0,
            c == 0x100_0000 * b,
            h == (i * m) * b,
    ;
}

/// Whole numbers add, multiply and subtract exactly.
proof fn lemma_whole_operations(p: nat, q: nat)
    requires
        p <= 0x100_0000,
        q <= 0x100_0000,
    ensures
        p + q <= 0x100_0000 ==> sum(whole(p), whole(q)) == whole(p + q),
        p >= q ==> difference(whole(p), whole(q)) == whole((p - q) as nat),
        p * q <= 0x100_0000 ==> product(whole(p), whole(q)) == whole(p * q),
{
    let c = pow2(149);
    lemma_pow2_pos(149);
    lemma_whole_exact(p);
    lemma_whole_exact(q);
    lemma_whole_exact(0);
    assert(0 * c == 0);
    lemma_decoded(whole(0));
    lemma_opposite(whole(q));
    assert((p + q) * c == p * c + q * c) by (nonlinear_arith);
    if p >= q {
        let d = (p - q) as nat;
        assert(d * c == p * c - q * c) by (nonlinear_arith)
            requires d == p - q;
        assert(d > 0 ==> d * c > 0) by (nonlinear_arith)
            requires c > 0;
    }
    assert(p + q > 0 ==> (p + q) * c > 0) by (nonlinear_arith)
        requires c > 0;
    assert((p * c) * (q * c) == ((p * q) * c) * c) by (nonlinear_arith);
    let a = (p * c) * (q * c);
    assert(a * 1 == a && (((p * q) * c) * c) == ((p * q) * c) * c);
    lemma_rounded_monotone(a, c, (p * q) * c, 1);
    lemma_rounded_monotone((p * q) * c, 1, a, c);
}

/// The sum of the values times their positions, in units.
pub open spec fn moment(values: Seq<Single>) -> int
    decreases values.len(),
{
    if values.len() == 0 {
        0
    } else {
        moment(values.drop_last()) + (values.len() - 1) * values.last().value()
    }
}

/// Values between minus two and two, as many as the positions' squares allow to be
/// added exactly.
pub open spec fn bounded_values(values: Seq<Single>) -> bool {
    &&& values.len() <= 64
    &&& forall|i: int|
        0 <= i < values.len() ==> (#[trigger] values[i]).magnitude() <= 0x4000_0000
}

/// The sum of the first `n` positions.
spec fn positions(n: nat) -> nat
    decreases n,
{
    if n == 0 {
        0
    } else {
        positions((n - 1) as nat) + (n - 1) as nat
    }
}

/// The sum of the squares of the first `n` positions.
spec fn position_squares(n: nat) -> nat
    decreases n,
{
    if n == 0 {
        0
    } else {
        let i = (n - 1) as nat;
        position_squares(i) + i * i
    }
}

proof fn lemma_positions(n: nat)
    ensures
        2 * positions(n) == n * (n - 1),
        6 * position_squares(n) == n * (n - 1) * (2 * n - 1),
    decreases n,
{
    if n > 0 {
        let i = (n - 1) as nat;
        lemma_positions(i);
        assert(n * (n - 1) == i * (i - 1) + 2 * i) by (nonlinear_arith)
            requires i == n - 1;
        assert(n * (n - 1) * (2 * n - 1) == i * (i - 1) * (2 * i - 1) + 6 * (i * i))
            by (nonlinear_arith)
            requires i == n - 1;
    } else {
        assert(0 * (0 - 1) == 0 && 0 * (0 - 1) * (0 - 1) == 0) by (nonlinear_arith);
    }
}

proof fn lemma_value_bounds(y: Single)
    requires
        y.magnitude() <= 0x4000_0000,
    ensures
        within(y, 2),
{
    let two = Single { bits: 0x4000_0000 };
    vstd::arithmetic::power2::lemma2_to64();
    vstd::arithmetic::power2::lemma_pow2_adds(23, 127);
    vstd::arithmetic::power2::lemma_pow2_adds(1, 149);
    assert(two.place() == 127);
    assert(two.units() == 0x80_0000 * pow2(127));
    lemma_magnitude_order(y, two);
}

/// The sums that are exact.
proof fn lemma_exact_sums(values: Seq<Single>)
    requires
        values.len() <= 64,
    ensures
        regression_sums(values).0 == whole(positions(values.len())),
        regression_sums(values).3 == whole(position_squares(values.len())),
    decreases values.len(),
{
    let n = values.len();
    if n > 0 {
        let i = (n - 1) as nat;
        lemma_exact_sums(values.drop_last());
        lemma_position_bounds(n);
        lemma_position_bounds(i);
        lemma_whole_operations(positions(i), i);
        lemma_whole_operations(i, i);
        lemma_whole_operations(position_squares(i), i * i);
    } else {
        lemma_sums_empty();
    }
}

/// One more value in the sum of the values.
proof fn lemma_next_value(s: Single, y: Single, i: nat, exact: int)
    requires
        i < 64,
        within(s, 2 * i),
        within(y, 2),
        distance(s.value(), exact) <= 2 * (i * i) * small(),
    ensures
        within(sum(s, y), 2 * (i + 1)),
        distance(sum(s, y).value(), exact + y.value()) <= 2 * ((i + 1) * (i + 1)) * small(),
{
    lemma_small();
    lemma_positions(i);
    lemma_sum_within(s, y, 2 * i, 2);
    lemma_sums_algebra(i as int, positions(i) as int, small());
}

/// One more value in the sum of the values times their positions.
proof fn lemma_next_moment(s: Single, y: Single, i: nat, exact: int)
    requires
        i < 64,
        within(s, 2 * positions(i)),
        within(y, 2),
        distance(s.value(), exact) <= 2 * (i * i * i) * small(),
    ensures
        ({
            let r = sum(s, product(whole(i), y));
            &&& within(r, 2 * positions(i + 1))
            &&& distance(r.value(), exact + i * y.value()) <= 2 * ((i + 1) * (i + 1) * (i + 1))
                * small()
        }),
{
    lemma_small();
    lemma_positions(i);
    lemma_position_bounds(i);
    lemma_product_within(i, y, 2);
    lemma_sum_within(s, product(whole(i), y), 2 * positions(i), i * 2);
    lemma_sums_algebra(i as int, positions(i) as int, small());
}

/// How far the sums of the regression are off.
proof fn lemma_sums(values: Seq<Single>)
    requires
        bounded_values(values),
    ensures
        ({
            let n = values.len();
            let s = regression_sums(values);
            &&& within(s.1, 2 * n)
            &&& within(s.2, 2 * positions(n))
            &&& distance(s.1.value(), total(values)) <= 2 * (n * n) * small()
            &&& distance(s.2.value(), moment(values)) <= 2 * (n * n * n) * small()
        }),
    decreases values.len(),
{
    let n = values.len();
    if n > 0 {
        let init = values.drop_last();
        let i = (n - 1) as nat;
        let y = values.last();
        let s = regression_sums(init);
        assert(y == values[n - 1]);
        assert(bounded_values(init)) by {
            assert forall|j: int| 0 <= j < init.len() implies (#[trigger] init[j]).magnitude()
                <= 0x4000_0000 by {
                assert(init[j] == values[j]);
            }
        }
        lemma_sums(init);
        lemma_value_bounds(y);
        lemma_next_value(s.1, y, i, total(init));
        lemma_next_moment(s.2, y, i, moment(init));
    } else {
        lemma_sums_empty();
        assert(2 * (0 * 0) * small() == 0 && 2 * (0 * 0 * 0) * small() == 0) by (nonlinear_arith);
    }
}

proof fn lemma_position_bounds(n: nat)
    requires
        n <= 64,
    ensures
        n * n <= 0x1000,
        positions(n) <= n * n <= 0x1000,
        position_squares(n) <= 0x4_0000,
        n * position_squares(n) <= 0x100_0000,
        positions(n) * positions(n) <= 0x100_0000,
{
    let p = positions(n);
    let q = position_squares(n);
    lemma_positions(n);
    assert(n * n <= 0x1000) by (nonlinear_arith)
        requires n <= 64;
    assert(p <= n * n) by (nonlinear_arith)
        requires 2 * p == n * (n - 1), n >= 0;
    assert(p * p <= 0x100_0000) by (nonlinear_arith)
        requires p <= 0x1000;
    assert(3 * q <= n * n * n) by (nonlinear_arith)
        requires 6 * q == n * (n - 1) * (2 * n - 1), n >= 0;
    assert(n * n * n <= 0x4_0000) by (nonlinear_arith)
        requires n <= 64;
    assert(n * q <= 0x100_0000) by (nonlinear_arith)
        requires q <= 0x4_0000, n <= 64;
}

proof fn lemma_sums_algebra(i: int, p: int, b: int)
    requires
        i >= 0,
        b >= 0,
        2 * p == i * (i - 1),
    ensures
        2 * (i * i) * b + (2 * i + 2) * b <= 2 * ((i + 1) * (i + 1)) * b,
        2 * (i * i * i) * b + (i * 2) * b + (2 * p + i * 2) * b <= 2 * ((i + 1) * (i + 1) * (i
            + 1)) * b,
{
    let (a, c) = (2 * (i * i) + (2 * i + 2), 2 * ((i + 1) * (i + 1)));
    assert(a <= c) by (nonlinear_arith)
        requires a == 2 * (i * i) + (2 * i + 2), c == 2 * ((i + 1) * (i + 1)), i >= 0;
    assert(2 * (i * i) * b + (2 * i + 2) * b == a * b) by (nonlinear_arith)
        requires a == 2 * (i * i) + (2 * i + 2);
    assert(a * b <= c * b) by (nonlinear_arith)
        requires a <= c, b >= 0;
    let d = 2 * (i * i * i) + i * 2 + (2 * p + i * 2);
    let e = 2 * ((i + 1) * (i + 1) * (i + 1));
    assert(d <= e) by (nonlinear_arith)
        requires
            d == 2 * (i * i * i) + i * 2 + (2 * p + i * 2),
            e == 2 * ((i + 1) * (i + 1) * (i + 1)),
            2 * p == i * (i - 1),
            i >= 0,
    ;
    assert(2 * (i * i * i) * b + (i * 2) * b + (2 * p + i * 2) * b == d * b) by (nonlinear_arith)
        requires d == 2 * (i * i * i) + i * 2 + (2 * p + i * 2);
    assert(d * b <= e * b) by (nonlinear_arith)
        requires d <= e, b >= 0;
}

proof fn lemma_sums_empty()
    ensures
        whole(0) == (Single { bits: 0 }),
        within(Single { bits: 0 }, 0),
        (Single { bits: 0 }).value() == 0,
{
    lemma_whole_exact(0);
    assert(0 * pow2(149) == 0) by (nonlinear_arith);
    lemma_decoded(whole(0));
    lemma_decoded(Single { bits: 0 });
}

/// A quotient of a bounded number by a whole number.
proof fn lemma_quotient_within(x: Single, d: nat, m: nat)
    requires
        within(x, m),
        m <= 0x100_0000,
        1 <= d <= 0x100_0000,
    ensures
        quotient(x, whole(d)).finite(),
        distance(quotient(x, whole(d)).value() * d, x.value()) <= (m + 1) * small(),
{
    let c = pow2(149);
    let w = whole(d);
    let u = x.units();
    let b = small();
    lemma_pow2_pos(149);
    lemma_small();
    lemma_whole_exact(d);
    lemma_decoded(w);
    assert(d * c > 0) by (nonlinear_arith)
        requires d >= 1, c > 0;
    assert(u * c <= (m * c) * (d * c)) by (nonlinear_arith)
        requires 0 <= u <= m * c, d >= 1, c > 0;
    lemma_within(u * c, w.units(), m);
    lemma_quotient_whole(x, d);
    let h = m * b;
    assert(m * c == 0x100_0000 * h) by (nonlinear_arith)
        requires c == 0x100_0000 * b, h == m * b;
    assert((m + 1) * b == h + b) by (nonlinear_arith)
        requires h == m * b;
}

/// The exact numerator and denominator of the slope, from which common factors are
/// taken out.
proof fn lemma_slope_terms(n: int, p: int, q: int, m: int, t: int)
    requires
        2 * p == n * (n - 1),
        6 * q == n * (n - 1) * (2 * n - 1),
    ensures
        12 * (n * q - p * p) == n * (n * (n * n - 1)),
        12 * (n * m - p * t) == n * (12 * m - 6 * (n - 1) * t),
{
    assert(12 * (n * q) == 2 * n * (6 * q)) by (nonlinear_arith);
    assert(12 * (p * p) == 3 * ((2 * p) * (2 * p))) by (nonlinear_arith);
    assert(2 * n * (n * (n - 1) * (2 * n - 1)) - 3 * ((n * (n - 1)) * (n * (n - 1))) == n * (n * (n
        * n - 1))) by (nonlinear_arith);
    assert(12 * (p * t) == 6 * ((2 * p) * t)) by (nonlinear_arith);
    assert(6 * ((n * (n - 1)) * t) == n * (6 * (n - 1) * t)) by (nonlinear_arith);
    assert(12 * (n * m) - n * (6 * (n - 1) * t) == n * (12 * m - 6 * (n - 1) * t))
        by (nonlinear_arith);
}

/// A product of a whole number and a bounded number, with a bound on both.
proof fn lemma_term(i: nat, y: Single, m: nat, bound: nat)
    requires
        within(y, m),
        i <= 0x100_0000,
        i * m <= bound <= 0x100_0000,
    ensures
        within(product(whole(i), y), bound),
        distance(product(whole(i), y).value(), i * y.value()) <= bound * small(),
{
    let k = i * m;
    let (b, c) = (small(), pow2(149));
    lemma_small();
    lemma_product_within(i, y, m);
    assert(k * b <= bound * b && k * c <= bound * c) by (nonlinear_arith)
        requires k <= bound, b >= 0, c >= 0;
}

/// A difference of two bounded numbers.
proof fn lemma_difference_within(x: Single, y: Single, m: nat)
    requires
        within(x, m),
        within(y, m),
        2 * m <= 0x100_0000,
    ensures
        within(difference(x, y), 2 * m),
        distance(difference(x, y).value(), x.value() - y.value()) <= (m + m) * small(),
{
    let z = opposite(y);
    lemma_opposite(y);
    lemma_sum_within(x, z, m, m);
}

/// How far the numerator of the slope is off.
proof fn lemma_numerator(n: nat, p: nat, sy: Single, sxy: Single, t: int, m: int)
    requires
        2 <= n <= 64,
        p <= n * n,
        2 * p == n * (n - 1),
        within(sy, 2 * n),
        within(sxy, 2 * p),
        distance(sy.value(), t) <= 2 * (n * n) * small(),
        distance(sxy.value(), m) <= 2 * (n * n * n) * small(),
    ensures
        ({
            let num = difference(product(whole(n), sxy), product(whole(p), sy));
            &&& within(num, 2 * (n * n * n))
            &&& distance(num.value(), n * m - p * t) <= 6 * (n * n * n * n) * small()
        }),
{
    let b = small();
    let x = product(whole(n), sxy);
    let y = product(whole(p), sy);
    let cube = n * n * n;
    lemma_small();
    assert(n * n <= 0x1000) by (nonlinear_arith)
        requires n <= 64;
    assert(cube <= 0x4_0000) by (nonlinear_arith)
        requires cube == n * n * n, n <= 64;
    assert(n * (2 * p) <= cube && p * (2 * n) <= cube) by (nonlinear_arith)
        requires 2 * p == n * (n - 1), cube == n * n * n, n >= 0;
    lemma_term(n, sxy, 2 * p, cube);
    lemma_term(p, sy, 2 * n, cube);
    lemma_difference_within(x, y, cube);
    lemma_numerator_algebra(
        n as int,
        p as int,
        sy.value(),
        sxy.value(),
        t,
        m,
        x.value(),
        y.value(),
        difference(x, y).value(),
        b,
    );
}

proof fn lemma_numerator_algebra(
    n: int,
    p: int,
    sy: int,
    sxy: int,
    t: int,
    m: int,
    x: int,
    y: int,
    num: int,
    b: int,
)
    requires
        n >= 2,
        b >= 0,
        0 <= p,
        2 * p == n * (n - 1),
        distance(sy, t) <= 2 * (n * n) * b,
        distance(sxy, m) <= 2 * (n * n * n) * b,
        distance(x, n * sxy) <= (n * n * n) * b,
        distance(y, p * sy) <= (n * n * n) * b,
        distance(num, x - y) <= (n * n * n + n * n * n) * b,
    ensures
        distance(num, n * m - p * t) <= 6 * (n * n * n * n) * b,
{
    let h = n * n * b;
    let g = n * n * n * b;
    let f = n * n * n * n * b;
    assert(2 * (n * n) * b == 2 * h && 2 * (n * n * n) * b == 2 * g && (n * n * n) * b == g && (n
        * n * n + n * n * n) * b == 2 * g && 6 * (n * n * n * n) * b == 6 * f) by (nonlinear_arith)
        requires h == n * n * b, g == n * n * n * b, f == n * n * n * n * b;
    let d = sxy - m;
    let e = sy - t;
    assert(distance(n * d, 0) <= 2 * f) by (nonlinear_arith)
        requires -2 * g <= d <= 2 * g, f == n * n * n * n * b, g == n * n * n * b, n >= 2;
    assert(2 * p <= n * n) by (nonlinear_arith)
        requires 2 * p == n * (n - 1), n >= 2;
    assert(distance(p * e, 0) <= f) by (nonlinear_arith)
        requires
            -2 * h <= e <= 2 * h,
            h == n * n * b,
            f == n * n * n * n * b,
            0 <= 2 * p <= n * n,
            b >= 0,
    {
        assert(distance(p * e, 0) <= p * (2 * h));
        assert(p * (2 * h) == (2 * p) * h);
        assert(h >= 0);
        assert((2 * p) * h <= (n * n) * h);
        assert((n * n) * h == f);
    }
    assert(2 * g <= f) by (nonlinear_arith)
        requires g == n * n * n * b, f == n * n * n * n * b, n >= 2, b >= 0;
    assert(n * sxy == n * m + n * d) by (nonlinear_arith)
        requires d == sxy - m;
    assert(p * sy == p * t + p * e) by (nonlinear_arith)
        requires e == sy - t;
    assert(4 * g <= 2 * f);
}

/// The denominator of the slope is an exact positive whole number.
proof fn lemma_denominator(n: nat)
    requires
        2 <= n <= 64,
    ensures
        ({
            let d = n * position_squares(n) - positions(n) * positions(n);
            let den = difference(
                product(whole(n), whole(position_squares(n))),
                product(whole(positions(n)), whole(positions(n))),
            );
            &&& 1 <= d <= 0x100_0000
            &&& den == whole(d as nat)
            &&& !less(absolute(den), Single { bits: EPSILON })
        }),
{
    let p = positions(n);
    let q = position_squares(n);
    let d = n * q - p * p;
    lemma_positions(n);
    lemma_position_bounds(n);
    lemma_slope_terms(n as int, p as int, q as int, 0, 0);
    assert(d >= 1) by (nonlinear_arith)
        requires 12 * d == n * (n * (n * n - 1)), n >= 2;
    assert(n * q <= 0x100_0000 && p * p <= 0x100_0000);
    assert(difference(product(whole(n), whole(q)), product(whole(p), whole(p))) == whole(d as nat))
        by {
        lemma_whole_operations(n, q);
        lemma_whole_operations(p, p);
        lemma_whole_operations(n * q, p * p);
    }
    lemma_not_small(d as nat);
}

/// Positive whole numbers are not small.
proof fn lemma_not_small(d: nat)
    requires
        1 <= d <= 0x100_0000,
    ensures
        !less(absolute(whole(d)), Single { bits: EPSILON }),
{
    let c = pow2(149);
    lemma_whole_exact(d);
    lemma_one();
    assert(c <= d * c) by (nonlinear_arith)
        requires d >= 1, c >= 0;
    lemma_magnitude_order(Single { bits: ONE }, whole(d));
}

/// The slope as a quotient by a whole number.
proof fn lemma_slope_quotient(values: Seq<Single>)
    requires
        2 <= values.len() <= 64,
    ensures
        ({
            let n = values.len();
            let p = positions(n);
            let s = regression_sums(values);
            let num = difference(product(whole(n), s.2), product(whole(p), s.1));
            slope(values) == quotient(num, whole((n * position_squares(n) - p * p) as nat))
        }),
{
    reveal(slope);
    lemma_exact_sums(values);
    lemma_denominator(values.len());
}

/// The slope of two or more bounded values is that of the least-squares line up to
/// rounding: of `n` values, `n (n² - 1)` times the slope is off twelve times the sum of
/// the values times their positions, less `6 (n - 1)` times the sum of the values, by at
/// most `96 n³` times two to the power -24.
pub proof fn lemma_slope(values: Seq<Single>)
    requires
        bounded_values(values),
        values.len() >= 2,
    ensures
        ({
            let n = values.len() as int;
            &&& slope(values).finite()
            &&& distance(
                slope(values).value() * (n * (n * n - 1)),
                12 * moment(values) - 6 * (n - 1) * total(values),
            ) <= 96 * (n * n * n) * pow2(125)
        }),
{
    let n = values.len();
    let s = regression_sums(values);
    let p = positions(n);
    let q = position_squares(n);
    let d = n * q - p * p;
    let b = small();
    lemma_small();
    lemma_positions(n);
    lemma_position_bounds(n);
    lemma_exact_sums(values);
    lemma_sums(values);
    lemma_denominator(n);
    lemma_numerator(n, p, s.1, s.2, total(values), moment(values));
    let num = difference(product(whole(n), s.2), product(whole(p), s.1));
    let cube = n * n * n;
    assert(2 * cube <= 0x100_0000) by (nonlinear_arith)
        requires cube == n * n * n, n <= 64;
    lemma_quotient_within(num, d as nat, 2 * cube);
    lemma_slope_quotient(values);
    lemma_slope_terms(n as int, p as int, q as int, moment(values), total(values));
    lemma_slope_algebra(
        n as int,
        slope(values).value(),
        d as int,
        num.value(),
        n * moment(values) - p * total(values),
        n * (n * n - 1),
        12 * moment(values) - 6 * (n - 1) * total(values),
        b,
    );
}

proof fn lemma_slope_algebra(
    n: int,
    r: int,
    d: int,
    num: int,
    exact: int,
    scale: int,
    scaled: int,
    b: int,
)
    requires
        n >= 2,
        b >= 0,
        distance(r * d, num) <= (2 * (n * n * n) + 1) * b,
        distance(num, exact) <= 6 * (n * n * n * n) * b,
        12 * d == n * scale,
        12 * exact == n * scaled,
    ensures
        distance(r * scale, scaled) <= 96 * (n * n * n) * b,
{
    let g = n * n * n * b;
    assert(n * g == n * n * n * n * b) by (nonlinear_arith)
        requires g == n * n * n * b;
    assert((2 * (n * n * n) + 1) * b == 2 * g + b && 96 * (n * n * n) * b == 96 * g)
        by (nonlinear_arith)
        requires g == n * n * n * b;
    assert(6 * (n * n * n * n) * b == 6 * (n * g)) by (nonlinear_arith)
        requires g == n * n * n * b;
    assert(b <= g && 2 * g <= n * g) by (nonlinear_arith)
        requires g == n * n * n * b, n >= 2, b >= 0;
    assert(distance(r * d, exact) <= 8 * (n * g));
    assert(12 * (r * d) == n * (r * scale)) by (nonlinear_arith)
        requires 12 * d == n * scale;
    let z = r * scale - scaled;
    assert(n * z == n * (r * scale) - n * scaled) by (nonlinear_arith)
        requires z == r * scale - scaled;
    assert(distance(z, 0) <= 96 * g) by (nonlinear_arith)
        requires -96 * (n * g) <= n * z <= 96 * (n * g), n >= 2;
}

/// Values on a line that starts at `start` units and rises by `rise` units.
pub open spec fn on_line(values: Seq<Single>, start: int, rise: int) -> bool {
    forall|i: int| 0 <= i < values.len() ==> (#[trigger] values[i]).value() == start + rise * i
}

/// The sums of values on a line.
proof fn lemma_line_sums(values: Seq<Single>, start: int, rise: int)
    requires
        on_line(values, start, rise),
    ensures
        ({
            let n = values.len();
            &&& total(values) == n * start + rise * positions(n)
            &&& moment(values) == start * positions(n) + rise * position_squares(n)
        }),
    decreases values.len(),
{
    let n = values.len();
    if n > 0 {
        let init = values.drop_last();
        let i = (n - 1) as nat;
        let v = start + rise * i;
        assert(values.last() == values[n - 1]);
        assert(on_line(init, start, rise)) by {
            assert forall|j: int| 0 <= j < init.len() implies (#[trigger] init[j]).value() == start
                + rise * j by {
                assert(init[j] == values[j]);
            }
        }
        lemma_line_sums(init, start, rise);
        let p = positions(i);
        let q = position_squares(i);
        assert(n * start + rise * (p + i) == i * start + rise * p + v) by (nonlinear_arith)
            requires n == i + 1, v == start + rise * i;
        assert(start * (p + i) + rise * (q + i * i) == start * p + rise * q + i * v)
            by (nonlinear_arith)
            requires v == start + rise * i;
    } else {
        assert(0 * start == 0 && rise * 0 == 0 && start * 0 == 0) by (nonlinear_arith);
    }
}

/// The slope of values on a line is the line's rise up to rounding: it is off by at most
/// two to the power -17. A flat list has a slope of zero up to that.
pub proof fn lemma_line_slope(values: Seq<Single>, start: int, rise: int)
    requires
        bounded_values(values),
        values.len() >= 2,
        on_line(values, start, rise),
    ensures
        slope(values).finite(),
        distance(slope(values).value(), rise) <= pow2(132),
{
    let n = values.len();
    let (p, q) = (positions(n) as int, position_squares(n) as int);
    let (m, t) = (moment(values), total(values));
    let b = pow2(125) as int;
    lemma_slope(values);
    lemma_positions(n);
    lemma_line_sums(values, start, rise);
    lemma_slope_terms(n as int, p, q, m, t);
    let scale = n * (n * n - 1);
    let scaled = 12 * m - 6 * (n - 1) * t;
    assert(n * m - p * t == rise * (n * q - p * p)) by (nonlinear_arith)
        requires m == start * p + rise * q, t == n * start + rise * p;
    assert(n * scaled == rise * (n * scale)) by (nonlinear_arith)
        requires
            12 * (n * m - p * t) == n * scaled,
            12 * (n * q - p * p) == n * scale,
            n * m - p * t == rise * (n * q - p * p),
    ;
    assert(scaled == rise * scale) by (nonlinear_arith)
        requires n * scaled == rise * (n * scale), n >= 2;
    vstd::arithmetic::power2::lemma2_to64();
    vstd::arithmetic::power2::lemma_pow2_adds(7, 125);
    let r = slope(values).value();
    let z = r - rise;
    let cube = n * n * n;
    assert(r * scale - rise * scale == z * scale) by (nonlinear_arith)
        requires z == r - rise;
    assert(4 * scale >= 3 * cube) by (nonlinear_arith)
        requires scale == n * (n * n - 1), cube == n * n * n, n >= 2;
    assert(cube >= 8) by (nonlinear_arith)
        requires cube == n * n * n, n >= 2;
    let w = distance(z, 0);
    assert(w * scale == distance(z * scale, 0)) by (nonlinear_arith)
        requires w == distance(z, 0), scale >= 0;
    assert(w <= 128 * b) by (nonlinear_arith)
        requires
            w * scale <= 96 * cube * b,
            4 * scale >= 3 * cube,
            cube >= 8,
            w >= 0,
            b >= 0,
    {
        assert(w * (4 * scale) >= w * (3 * cube));
        assert(3 * (w * cube) <= 384 * (cube * b));
        assert(w * cube <= (128 * b) * cube);
    }
}

/// A drift history stays bounded as the drifts are.
pub proof fn lemma_history_bounded(old: Seq<Single>, drift: Single)
    requires
        bounded_values(old),
        old.len() <= HISTORY_LEN,
        drift.magnitude() <= 0x4000_0000,
    ensures
        bounded_values(extended(old, drift)),
{
    let all = old.push(drift);
    let new = extended(old, drift);
    assert forall|i: int| 0 <= i < new.len() implies (#[trigger] new[i]).magnitude()
        <= 0x4000_0000 by {
        let j = if all.len() > HISTORY_LEN {
            i + 1
        } else {
            i
        };
        assert(new[i] == all[j]);
        if j < old.len() {
            assert(all[j] == old[j]);
        }
    }
}

}
