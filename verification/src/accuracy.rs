//! How far rounded results may be off.

use crate::bounds::{in_unit, lemma_one, lemma_unit_difference};
use crate::order::lemma_value_order;
use crate::rounding::{
    last_place, lemma_last_place_bounds, lemma_nearest_even_exact, lemma_nearest_even_monotone,
    lemma_rounded_exact, lemma_rounded_monotone, nearest_even, rounded, INFINITE,
};
use crate::single::{
    difference, lemma_decoded, lemma_exact, lemma_magnitude_order, lemma_opposite, opposite,
    product, quotient, signed, sum, whole, Single, ONE,
};
use crate::stats::{combined, unit_clamped, MSG_SIGNAL_WEIGHT};
use vstd::arithmetic::power2::{lemma_pow2_adds, lemma_pow2_pos, pow2};
use vstd::prelude::*;

verus! {

broadcast use crate::rounding::lemma_rounded_limit;

pub open spec fn distance(a: int, b: int) -> int {
    if a <= b {
        b - a
    } else {
        a - b
    }
}

/// What an encoding made of a last place and a significand stands for.
pub(crate) proof fn lemma_units_of(q: nat, k: nat)
    requires
        k <= 0x100_0000,
        q > 0 ==> k >= 0x80_0000,
        q * 0x80_0000 + k < INFINITE,
    ensures
        signed(false, q * 0x80_0000 + k).units() == k * pow2(q),
{
    let x = signed(false, q * 0x80_0000 + k);
    vstd::arithmetic::power2::lemma2_to64();
    if k == 0x100_0000 {
        assert(x.place() == q + 1);
        lemma_pow2_adds(1, q);
        assert(0x80_0000 * pow2(q + 1) == 0x100_0000 * pow2(q)) by (nonlinear_arith)
            requires pow2(q + 1) == 2 * pow2(q);
    } else {
        assert(x.place() == q);
    }
}

/// A rounded magnitude is off by at most one part in two to the power 24, and half
/// a unit.
pub proof fn lemma_rounding_error(a: nat, b: nat)
    requires
        b > 0,
        rounded(a, b) < INFINITE,
    ensures
        ({
            let u = signed(false, rounded(a, b)).units();
            0x100_0000 * distance((u * b) as int, a as int) <= a + 0x80_0000 * b
        }),
{
    reveal(rounded);
    let q = last_place(a, b);
    let c = b * pow2(q);
    let k = nearest_even(a, c);
    lemma_pow2_pos(q);
    vstd::arithmetic::power2::lemma2_to64();
    assert(c > 0) by (nonlinear_arith)
        requires c == b * pow2(q), b > 0, pow2(q) > 0;
    lemma_last_place_bounds(a, b);
    lemma_pow2_adds(24, q);
    assert(b * pow2(24 + q) == 0x100_0000 * c) by (nonlinear_arith)
        requires pow2(24 + q) == 0x100_0000 * pow2(q), c == b * pow2(q);
    lemma_nearest_even_monotone(a, 0x100_0000 * c, c);
    lemma_nearest_even_exact(0x100_0000, c);
    if q > 0 {
        lemma_pow2_adds(23, q);
        assert(b * pow2(23 + q) == 0x80_0000 * c) by (nonlinear_arith)
            requires pow2(23 + q) == 0x80_0000 * pow2(q), c == b * pow2(q);
        lemma_nearest_even_monotone(0x80_0000 * c, a, c);
        lemma_nearest_even_exact(0x80_0000, c);
    }
    lemma_units_of(q, k);
    let u = signed(false, rounded(a, b)).units();
    assert(u * b == k * c) by (nonlinear_arith)
        requires u == k * pow2(q), c == b * pow2(q);
    // The nearest multiple is off by at most half of the place.
    vstd::arithmetic::div_mod::lemma_fundamental_div_mod(a as int, c as int);
    let quotient = a / c;
    let rest = a % c;
    assert(c * quotient == quotient * c) by (nonlinear_arith);
    assert((quotient + 1) * c == quotient * c + c) by (nonlinear_arith);
    assert(2 * distance((k * c) as int, a as int) <= c);
    if q == 0 {
        assert(b * 1 == b);
        assert(c == b);
    }
}

/// A finite sum is off by at most one part in two to the power 24, and half a unit.
pub proof fn lemma_sum_error(x: Single, y: Single)
    requires
        x.finite(),
        y.finite(),
        sum(x, y).finite(),
    ensures
        ({
            let total = x.value() + y.value();
            &&& 0x100_0000 * distance(sum(x, y).value(), total) <= distance(total, 0) + 0x80_0000
            &&& total >= 0 ==> sum(x, y).value() >= 0
            &&& total <= 0 ==> sum(x, y).value() <= 0
        }),
{
    let total = x.value() + y.value();
    let r = sum(x, y);
    if total > 0 {
        lemma_rounding_error(total as nat, 1);
        assert(r.units() * 1 == r.units());
    } else if total < 0 {
        lemma_rounding_error((-total) as nat, 1);
        let p = signed(false, rounded((-total) as nat, 1));
        assert(r.units() == p.units());
        assert(p.units() * 1 == p.units());
    } else {
        lemma_decoded(r);
    }
}

/// A finite product is off by at most one part in two to the power 24, and half a
/// unit.
pub proof fn lemma_product_error(x: Single, y: Single)
    requires
        x.finite(),
        y.finite(),
        product(x, y).finite(),
    ensures
        ({
            let exact = x.value() * y.value();
            &&& 0x100_0000 * distance(product(x, y).value() * pow2(149), exact) <= distance(
                exact,
                0,
            ) + 0x80_0000 * pow2(149)
            &&& exact >= 0 ==> product(x, y).value() >= 0
        }),
{
    let a = x.units() * y.units();
    let b = pow2(149);
    let r = product(x, y);
    let p = signed(false, rounded(a, b));
    lemma_pow2_pos(149);
    lemma_rounding_error(a, b);
    assert(r.units() == p.units());
    let u = r.units() as int;
    let (m, n) = (x.units() as int, y.units() as int);
    assert((-u) * b == -(u * b)) by (nonlinear_arith);
    assert((-m) * n == -(m * n) && m * (-n) == -(m * n) && (-m) * (-n) == m * n)
        by (nonlinear_arith);
    lemma_decoded(r);
    if m * n == 0 {
        lemma_rounded_exact(0, 0);
        assert(0 * pow2(0) == 0) by (nonlinear_arith);
        assert(a * 1 <= 0 * b) by (nonlinear_arith)
            requires a == 0;
        lemma_rounded_monotone(a, b, 0, 1);
    }
    assert(m * n >= 0) by (nonlinear_arith)
        requires m >= 0, n >= 0;
}

/// A finite quotient by a positive number is off by at most one part in two to the
/// power 24, and half a unit.
pub proof fn lemma_quotient_error(x: Single, y: Single)
    requires
        x.finite(),
        y.finite(),
        !y.negative(),
        y.units() > 0,
        quotient(x, y).finite(),
    ensures
        ({
            let q = quotient(x, y).value();
            &&& 0x100_0000 * distance(q * y.units(), x.value() * pow2(149)) <= distance(
                x.value() * pow2(149),
                0,
            ) + 0x80_0000 * y.units()
            &&& x.value() >= 0 ==> q >= 0
            &&& x.value() <= 0 ==> q <= 0
        }),
{
    let a = x.units() * pow2(149);
    let b = y.units();
    let r = quotient(x, y);
    let p = signed(false, rounded(a, b));
    lemma_pow2_pos(149);
    lemma_decoded(x);
    lemma_decoded(y);
    lemma_decoded(r);
    assert(0 <= a) by (nonlinear_arith)
        requires a == x.units() * pow2(149), pow2(149) > 0;
    lemma_rounding_error(a, b);
    assert(r.units() == p.units());
    let u = r.units() as int;
    let m = x.units() as int;
    let c = pow2(149) as int;
    assert((-u) * b == -(u * b)) by (nonlinear_arith);
    assert((-m) * c == -(m * c)) by (nonlinear_arith);
    if m == 0 {
        assert(a == 0) by (nonlinear_arith)
            requires a == m * c, m == 0;
        lemma_rounded_exact(0, 0);
        assert(0 * pow2(0) == 0) by (nonlinear_arith);
        assert(a * 1 <= 0 * b) by (nonlinear_arith)
            requires a == 0;
        lemma_rounded_monotone(a, b, 0, 1);
    }
}

/// Differences of numbers of at most half the greatest magnitude are finite.
pub(crate) proof fn lemma_difference_finite(x: Single, y: Single)
    requires
        x.magnitude() <= 0x7eff_ffff,
        y.magnitude() <= 0x7eff_ffff,
    ensures
        difference(x, y).finite(),
{
    let half = Single { bits: 0x7eff_ffff };
    let most = Single { bits: 0x7f7f_ffff };
    let z = opposite(y);
    lemma_magnitude_order(x, half);
    lemma_magnitude_order(z, half);
    lemma_pow2_adds(1, 252);
    vstd::arithmetic::power2::lemma2_to64();
    assert(half.place() == 252 && most.place() == 253);
    let p = pow2(252);
    assert(half.units() == 0xff_ffff * p);
    assert(most.units() == 0xff_ffff * pow2(253));
    assert(0xff_ffff * (2 * p) == 2 * (0xff_ffff * p)) by (nonlinear_arith);
    let total = x.value() + z.value();
    lemma_exact(most);
    if total > 0 {
        lemma_rounded_monotone(total as nat, 1, most.units(), 1);
    } else if total < 0 {
        lemma_rounded_monotone((-total) as nat, 1, most.units(), 1);
    }
}

/// The last place of a number that is not too great.
pub(crate) proof fn lemma_place_fits(n: nat, q: nat)
    requires
        n * pow2(q) <= pow2(276),
    ensures
        n >= 0x80_0000 ==> q <= 253,
        n >= 0x100_0000 ==> q <= 252,
{
    vstd::arithmetic::power2::lemma2_to64();
    lemma_pow2_adds(24, 252);
    lemma_pow2_adds(23, 253);
    lemma_pow2_pos(252);
    if n >= 0x100_0000 && q > 252 {
        vstd::arithmetic::power2::lemma_pow2_strictly_increases(252, q);
        assert(n * pow2(q) > 0x100_0000 * pow2(252)) by (nonlinear_arith)
            requires n >= 0x100_0000, pow2(q) > pow2(252), pow2(252) > 0;
    }
    if n >= 0x80_0000 && q > 253 {
        vstd::arithmetic::power2::lemma_pow2_strictly_increases(253, q);
        assert(n * pow2(q) > 0x80_0000 * pow2(253)) by (nonlinear_arith)
            requires n >= 0x80_0000, pow2(q) > pow2(253), pow2(253) >= 0;
    }
}

/// Room for numbers of 24 binary digits.
pub(crate) proof fn lemma_room(n: nat, q: nat)
    requires
        n <= 0x100_0000,
        q <= 252,
    ensures
        n * pow2(q) <= pow2(276),
{
    vstd::arithmetic::power2::lemma2_to64();
    lemma_pow2_adds(24, q);
    lemma_pow2_adds(24 + q, (252 - q) as nat);
    lemma_pow2_pos((252 - q) as nat);
    let (x, y) = (pow2(q), pow2((252 - q) as nat));
    assert(n * x <= (0x100_0000 * x) * y) by (nonlinear_arith)
        requires n <= 0x100_0000, y >= 1, x >= 0;
}

/// A number of 24 binary digits followed by zeros is its own rounding.
pub(crate) proof fn lemma_exact_units(n: nat, q: nat)
    requires
        n <= 0x100_0000,
        n * pow2(q) <= pow2(276),
    ensures
        signed(false, rounded(n * pow2(q), 1)).finite(),
        signed(false, rounded(n * pow2(q), 1)).units() == n * pow2(q),
    decreases q,
{
    vstd::arithmetic::power2::lemma2_to64();
    lemma_place_fits(n, q);
    if n == 0x100_0000 {
        lemma_pow2_adds(1, q);
        assert(n * pow2(q) == 0x80_0000 * pow2(q + 1)) by (nonlinear_arith)
            requires n == 0x100_0000, pow2(q + 1) == 2 * pow2(q);
        lemma_rounded_exact(q + 1, 0x80_0000);
        lemma_units_of(q + 1, 0x80_0000);
    } else if q == 0 || n >= 0x80_0000 {
        lemma_rounded_exact(q, n);
        lemma_units_of(q, n);
    } else {
        lemma_pow2_adds(1, (q - 1) as nat);
        assert(n * pow2(q) == (2 * n) * pow2((q - 1) as nat)) by (nonlinear_arith)
            requires pow2(q) == 2 * pow2((q - 1) as nat);
        lemma_exact_units(2 * n, (q - 1) as nat);
    }
}

/// Small whole numbers are exact.
pub proof fn lemma_whole_exact(n: nat)
    requires
        n <= 0x100_0000,
    ensures
        whole(n).finite(),
        !whole(n).negative(),
        whole(n).units() == n * pow2(149),
{
    lemma_room(n, 149);
    lemma_exact_units(n, 149);
}

/// A small power that the error bounds are multiples of.
pub(crate) open spec fn small() -> int {
    pow2(125) as int
}

pub(crate) proof fn lemma_small()
    ensures
        small() > 0x100_0000_0000,
        pow2(149) == 0x100_0000 * small(),
        pow2(124) * 2 == small(),
        pow2(275) == 0x200_0000 * (small() * small()),
{
    vstd::arithmetic::power2::lemma2_to64();
    lemma_pow2_pos(125);
    lemma_pow2_adds(24, 125);
    lemma_pow2_adds(1, 124);
    lemma_pow2_adds(125, 125);
    lemma_pow2_adds(25, 250);
    lemma_pow2_adds(64, 61);
    lemma_pow2_pos(61);
}

/// A quotient by a small whole number.
pub(crate) proof fn lemma_quotient_whole(x: Single, n: nat)
    requires
        x.finite(),
        1 <= n <= 0x100_0000,
        quotient(x, whole(n)).finite(),
    ensures
        0x100_0000 * distance(quotient(x, whole(n)).value() * n, x.value()) <= distance(
            x.value(),
            0,
        ) + 0x80_0000 * n,
{
    let c = pow2(149) as int;
    let t = quotient(x, whole(n)).value();
    let v = x.value();
    lemma_pow2_pos(149);
    lemma_whole_exact(n);
    assert(n * c > 0) by (nonlinear_arith)
        requires n >= 1, c > 0;
    lemma_quotient_error(x, whole(n));
    assert(t * (n * c) == (t * n) * c) by (nonlinear_arith);
    assert(distance((t * n) * c, v * c) == distance(t * n, v) * c) by (nonlinear_arith)
        requires c > 0;
    assert(distance(v * c, 0) == distance(v, 0) * c) by (nonlinear_arith)
        requires c > 0;
    let p = distance(t * n, v);
    let q = distance(v, 0);
    assert(0x100_0000 * (p * c) <= q * c + 0x80_0000 * (n * c));
    assert(0x100_0000 * p <= q + 0x80_0000 * n) by (nonlinear_arith)
        requires
            0x100_0000 * (p * c) <= q * c + 0x80_0000 * (n * c),
            c > 0,
    ;
}

/// Finite, and of a magnitude of at most `m`.
pub(crate) open spec fn within(x: Single, m: nat) -> bool {
    x.finite() && x.units() <= m * pow2(149)
}

/// A rounded magnitude does not pass a whole number.
pub(crate) proof fn lemma_within(a: nat, b: nat, m: nat)
    requires
        b > 0,
        m <= 0x100_0000,
        a <= (m * pow2(149)) * b,
    ensures
        within(signed(false, rounded(a, b)), m),
        within(signed(true, rounded(a, b)), m),
{
    lemma_room(m, 149);
    lemma_exact_units(m, 149);
    assert(a * 1 <= (m * pow2(149)) * b);
    lemma_rounded_monotone(a, b, m * pow2(149), 1);
    let x = signed(false, rounded(a, b));
    lemma_magnitude_order(x, signed(false, rounded(m * pow2(149), 1)));
    assert(signed(true, rounded(a, b)).units() == x.units());
}

/// A sum of bounded numbers.
pub(crate) proof fn lemma_sum_within(x: Single, y: Single, p: nat, q: nat)
    requires
        within(x, p),
        within(y, q),
        p + q <= 0x100_0000,
    ensures
        within(sum(x, y), p + q),
        distance(sum(x, y).value(), x.value() + y.value()) <= (p + q) * small(),
{
    let c = pow2(149);
    let t = x.value() + y.value();
    let m = p + q;
    assert(m * c == p * c + q * c) by (nonlinear_arith)
        requires m == p + q;
    assert((m * c) * 1 == m * c);
    if t > 0 {
        lemma_within(t as nat, 1, m);
    } else if t < 0 {
        lemma_within((-t) as nat, 1, m);
    } else {
        lemma_decoded(sum(x, y));
    }
    lemma_sum_error(x, y);
    lemma_small();
    let h = m * small();
    assert(m * c == 0x100_0000 * h) by (nonlinear_arith)
        requires c == 0x100_0000 * small(), h == m * small();
}

/// A product of two numbers between zero and one.
proof fn lemma_unit_share(w: Single, m: Single)
    requires
        in_unit(w),
        in_unit(m),
    ensures
        within(product(w, m), 1),
        distance(product(w, m).value() * pow2(149), w.value() * m.value()) <= pow2(149) * (small()
            + 1),
{
    let c = pow2(149) as int;
    let b = small();
    let (x, y) = (w.units() as int, m.units() as int);
    lemma_one();
    lemma_small();
    lemma_pow2_pos(149);
    lemma_magnitude_order(w, Single { bits: ONE });
    lemma_magnitude_order(m, Single { bits: ONE });
    assert(0 <= x * y <= c * c) by (nonlinear_arith)
        requires 0 <= x <= c, 0 <= y <= c;
    assert(1 * c == c);
    lemma_within((x * y) as nat, pow2(149), 1);
    lemma_product_error(w, m);
    let (v, u) = (w.value(), m.value());
    assert(distance(v * u, 0) == x * y) by (nonlinear_arith)
        requires
            v == x || v == -x,
            u == y || u == -y,
            x >= 0,
            y >= 0,
    ;
    assert(c * c == 0x100_0000 * (c * b)) by (nonlinear_arith)
        requires c == 0x100_0000 * b;
    let p = distance(product(w, m).value() * c, v * u);
    assert(c * (b + 1) == c * b + c) by (nonlinear_arith);
}

/// The weights of the two signals.
proof fn lemma_weight_values()
    ensures
        ({
            let w = Single { bits: MSG_SIGNAL_WEIGHT };
            let v = difference(Single { bits: ONE }, w);
            &&& in_unit(w)
            &&& in_unit(v)
            &&& distance(5 * w.value(), 3 * (pow2(149) as int)) <= 2 * small()
            &&& distance(5 * v.value(), 2 * (pow2(149) as int)) <= 7 * small()
        }),
{
    let w = Single { bits: MSG_SIGNAL_WEIGHT };
    let one = Single { bits: ONE };
    lemma_small();
    lemma_one();
    assert(w.place() == 125);
    assert(w.units() == 0x99_999a * pow2(125));
    lemma_unit_difference(w);
    lemma_difference_finite(one, w);
    let z = opposite(w);
    lemma_opposite(w);
    lemma_sum_error(one, z);
}

/// The combined confidence of signals between zero and one is three fifths of the
/// message signal and two fifths of the field signal up to rounding: five times it is
/// off by at most two to the power -19.
pub proof fn lemma_combined_value(m: Single, f: Single)
    requires
        in_unit(m),
        in_unit(f),
    ensures
        combined(m, f).finite(),
        distance(5 * combined(m, f).value(), 3 * m.value() + 2 * f.value()) <= pow2(130),
{
    reveal(combined);
    let w = Single { bits: MSG_SIGNAL_WEIGHT };
    let v = difference(Single { bits: ONE }, w);
    let p = product(w, m);
    let q = product(v, f);
    let s = sum(p, q);
    let c = pow2(149) as int;
    let b = small();
    lemma_small();
    lemma_pow2_pos(149);
    lemma_weight_values();
    lemma_unit_share(w, m);
    lemma_unit_share(v, f);
    lemma_sum_within(p, q, 1, 1);
    lemma_in_unit_value(m);
    lemma_in_unit_value(f);
    lemma_combined_algebra(
        w.value(),
        v.value(),
        m.value(),
        f.value(),
        p.value(),
        q.value(),
        s.value(),
        b,
        c,
    );
    lemma_clamped_value(s, 3 * m.value() + 2 * f.value(), 31 * b);
    vstd::arithmetic::power2::lemma2_to64();
    lemma_pow2_adds(5, 125);
}

/// A number between zero and one.
proof fn lemma_in_unit_value(x: Single)
    requires
        in_unit(x),
    ensures
        x.finite(),
        0 <= x.value() <= pow2(149),
{
    lemma_one();
    lemma_decoded(x);
    lemma_magnitude_order(x, Single { bits: ONE });
}

proof fn lemma_combined_algebra(
    w: int,
    v: int,
    m: int,
    f: int,
    p: int,
    q: int,
    s: int,
    b: int,
    c: int,
)
    requires
        b >= 0x100,
        c > 0,
        0 <= m <= c,
        0 <= f <= c,
        distance(5 * w, 3 * c) <= 2 * b,
        distance(5 * v, 2 * c) <= 7 * b,
        distance(p * c, w * m) <= c * (b + 1),
        distance(q * c, v * f) <= c * (b + 1),
        distance(s, p + q) <= 2 * b,
    ensures
        distance(5 * s, 3 * m + 2 * f) <= 31 * b,
{
    let h = c * b;
    let x = 5 * w - 3 * c;
    let y = 5 * v - 2 * c;
    assert(c * (b + 1) == h + c) by (nonlinear_arith)
        requires h == c * b;
    assert(0x100 * c <= h) by (nonlinear_arith)
        requires h == c * b, b >= 0x100, c > 0;
    assert(5 * (w * m) == 3 * (c * m) + x * m) by (nonlinear_arith)
        requires x == 5 * w - 3 * c;
    assert(5 * (v * f) == 2 * (c * f) + y * f) by (nonlinear_arith)
        requires y == 5 * v - 2 * c;
    assert(distance(x * m, 0) <= 2 * h) by (nonlinear_arith)
        requires -2 * b <= x <= 2 * b, 0 <= m <= c, h == c * b;
    assert(distance(y * f, 0) <= 7 * h) by (nonlinear_arith)
        requires -7 * b <= y <= 7 * b, 0 <= f <= c, h == c * b;
    let r = s - p - q;
    assert(s * c == p * c + q * c + r * c) by (nonlinear_arith)
        requires r == s - p - q;
    assert(distance(r * c, 0) <= 2 * h) by (nonlinear_arith)
        requires -2 * b <= r <= 2 * b, c > 0, h == c * b;
    let z = 5 * s - (3 * m + 2 * f);
    assert(z * c == 5 * (s * c) - (3 * (c * m) + 2 * (c * f))) by (nonlinear_arith)
        requires z == 5 * s - (3 * m + 2 * f);
    assert(distance(z * c, 0) <= 31 * h);
    assert(distance(z, 0) <= 31 * b) by (nonlinear_arith)
        requires -31 * h <= z * c <= 31 * h, h == c * b, c > 0;
}

/// Clamping comes no further from a number between zero and one.
proof fn lemma_clamped_value(s: Single, exact: int, e: int)
    requires
        s.finite(),
        0 <= exact <= 5 * pow2(149),
        distance(5 * s.value(), exact) <= e,
    ensures
        unit_clamped(s).finite(),
        distance(5 * unit_clamped(s).value(), exact) <= e,
{
    let one = Single { bits: ONE };
    let none = Single { bits: 0 };
    lemma_one();
    lemma_decoded(none);
    lemma_value_order(s, one);
    lemma_value_order(one, s);
    lemma_value_order(s, none);
    lemma_value_order(none, s);
}

}
