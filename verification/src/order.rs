//! Results grow with their operands.

use crate::bounds::{
    in_unit, lemma_exponent_not_positive, lemma_one, lemma_product_shrinks, lemma_unit_difference,
};
use crate::classify::signal_of;
use crate::rounding::{
    lemma_rounded_exact, lemma_rounded_monotone, lemma_rounded_scaled, rounded, INFINITE,
};
use crate::single::{
    at_least, difference, lemma_decoded, lemma_exact, lemma_less_is_value_order,
    lemma_magnitude_order, lemma_one_less, less, opposite, product, sum, Single, ONE,
};
use crate::stats::{combined, decay_exponent, unit_clamped, MINUS_HALF, MSG_SIGNAL_WEIGHT};
use vstd::arithmetic::power2::{lemma_pow2_pos, pow2};
use vstd::prelude::*;

verus! {

broadcast use crate::rounding::lemma_rounded_limit;

/// Finite numbers are in the order of their values.
pub proof fn lemma_value_order(x: Single, y: Single)
    requires
        x.finite(),
        y.finite(),
    ensures
        x.order() <= y.order() <==> x.value() <= y.value(),
{
    lemma_less_is_value_order(y, x);
}

/// Place in the order of the number that a value is rounded to.
pub(crate) open spec fn rounded_order(total: int) -> int {
    if total > 0 {
        rounded(total as nat, 1) as int
    } else if total < 0 {
        -(rounded((-total) as nat, 1) as int)
    } else {
        0
    }
}

pub(crate) proof fn lemma_rounded_order(a: int, b: int)
    requires
        a <= b,
    ensures
        rounded_order(a) <= rounded_order(b),
{
    if a > 0 {
        lemma_rounded_monotone(a as nat, 1, b as nat, 1);
    } else if b < 0 {
        lemma_rounded_monotone((-b) as nat, 1, (-a) as nat, 1);
    }
}

pub(crate) proof fn lemma_sum_order(x: Single, y: Single)
    requires
        x.finite(),
        y.finite(),
    ensures
        !sum(x, y).nan(),
        sum(x, y).order() == rounded_order(x.value() + y.value()),
{
}

/// A finite number is rounded to itself.
pub(crate) proof fn lemma_rounded_order_exact(x: Single)
    requires
        x.finite(),
    ensures
        rounded_order(x.value()) == x.order(),
{
    lemma_exact(x);
    lemma_decoded(x);
}

/// A sum grows with its terms.
pub proof fn lemma_sum_grows(x: Single, y: Single, u: Single, v: Single)
    requires
        x.finite(),
        y.finite(),
        u.finite(),
        v.finite(),
        x.order() <= u.order(),
        y.order() <= v.order(),
    ensures
        !sum(x, y).nan(),
        !sum(u, v).nan(),
        sum(x, y).order() <= sum(u, v).order(),
{
    lemma_value_order(x, u);
    lemma_value_order(y, v);
    lemma_sum_order(x, y);
    lemma_sum_order(u, v);
    lemma_rounded_order(x.value() + y.value(), u.value() + v.value());
}

/// The magnitude of a product grows with the magnitudes of its factors.
proof fn lemma_product_magnitude(w: Single, x: Single, u: Single, y: Single)
    requires
        w.finite(),
        x.finite(),
        u.finite(),
        y.finite(),
        w.magnitude() <= u.magnitude(),
        x.magnitude() <= y.magnitude(),
    ensures
        !product(w, x).nan(),
        product(w, x).magnitude() <= product(u, y).magnitude(),
        product(w, x).negative() == (w.negative() != x.negative()),
{
    let (a, b) = (w.units() * x.units(), u.units() * y.units());
    assert(rounded(a, pow2(149)) <= rounded(b, pow2(149))) by {
        lemma_magnitude_order(w, u);
        lemma_magnitude_order(x, y);
        lemma_pow2_pos(149);
        lemma_products_order(w.units(), x.units(), u.units(), y.units(), pow2(149));
        lemma_rounded_monotone(a, pow2(149), b, pow2(149));
    }
    assert(rounded(b, pow2(149)) <= INFINITE);
}

proof fn lemma_products_order(i: nat, j: nat, k: nat, l: nat, p: nat)
    requires
        i <= k,
        j <= l,
    ensures
        (i * j) * p <= (k * l) * p,
{
    assert(i * j <= k * l) by (nonlinear_arith)
        requires i <= k, j <= l;
    let (a, b) = (i * j, k * l);
    assert(a * p <= b * p) by (nonlinear_arith)
        requires a <= b;
}

/// A product with a factor that is not negative grows with the other factor.
proof fn lemma_product_grows(w: Single, x: Single, y: Single)
    requires
        w.finite(),
        !w.negative(),
        x.finite(),
        y.finite(),
        x.order() <= y.order(),
    ensures
        product(w, x).order() <= product(w, y).order(),
{
    if x.negative() && y.negative() {
        lemma_product_magnitude(w, y, w, x);
        lemma_product_magnitude(w, x, w, x);
    } else if !x.negative() && !y.negative() {
        lemma_product_magnitude(w, x, w, y);
        lemma_product_magnitude(w, y, w, y);
    } else if x.negative() {
        lemma_product_magnitude(w, x, w, x);
        lemma_product_magnitude(w, y, w, y);
    } else {
        assert(x.magnitude() == 0 && y.magnitude() == 0);
        lemma_product_magnitude(w, x, w, y);
        lemma_product_magnitude(w, y, w, x);
        lemma_zero_product(w, x);
        lemma_zero_product(w, y);
    }
}

proof fn lemma_zero_product(w: Single, x: Single)
    requires
        w.finite(),
        x.zero(),
    ensures
        product(w, x).zero(),
{
    let zero = Single { bits: 0 };
    assert(x.units() == 0) by {
        assert(x.place() == 0);
        assert(0 * pow2(0) == 0) by (nonlinear_arith);
    }
    assert(zero.units() == 0) by {
        assert(0 * pow2(0) == 0) by (nonlinear_arith);
    }
    lemma_exact(zero);
    lemma_pow2_pos(149);
    assert((w.units() * x.units()) * 1 <= 0 * pow2(149)) by (nonlinear_arith)
        requires x.units() == 0;
    lemma_rounded_monotone(w.units() * x.units(), pow2(149), 0, 1);
}

/// The combined confidence of finite signals grows with each of them and lies
/// between zero and one.
pub proof fn lemma_combined_grows(m1: Single, f1: Single, m2: Single, f2: Single)
    requires
        m1.finite(),
        f1.finite(),
        m2.finite(),
        f2.finite(),
        m1.order() <= m2.order(),
        f1.order() <= f2.order(),
    ensures
        in_unit(combined(m1, f1)),
        in_unit(combined(m2, f2)),
        combined(m1, f1).order() <= combined(m2, f2).order(),
{
    lemma_weighted(m1, f1, m2, f2);
    lemma_clamp_grows(weighted(m1, f1), weighted(m2, f2));
    lemma_combined_is(m1, f1);
    lemma_combined_is(m2, f2);
}

/// The weighted mean before it is clamped.
#[verifier::opaque]
spec fn weighted(m: Single, f: Single) -> Single {
    let weight = Single { bits: MSG_SIGNAL_WEIGHT };
    sum(product(weight, m), product(difference(Single { bits: ONE }, weight), f))
}

proof fn lemma_combined_is(m: Single, f: Single)
    ensures
        combined(m, f) == unit_clamped(weighted(m, f)),
{
    reveal(combined);
    reveal(weighted);
}

proof fn lemma_weighted(m1: Single, f1: Single, m2: Single, f2: Single)
    requires
        m1.finite() && m2.finite() && m1.order() <= m2.order(),
        f1.finite() && f2.finite() && f1.order() <= f2.order(),
    ensures
        !weighted(m1, f1).nan(),
        !weighted(m2, f2).nan(),
        weighted(m1, f1).order() <= weighted(m2, f2).order(),
{
    let weight = Single { bits: MSG_SIGNAL_WEIGHT };
    let rest = difference(Single { bits: ONE }, weight);
    lemma_rest();
    lemma_weighted_grows(weight, m1, m2, rest, f1, f2);
    reveal(weighted);
}

proof fn lemma_clamp_grows(x: Single, y: Single)
    requires
        !x.nan(),
        !y.nan(),
        x.order() <= y.order(),
    ensures
        in_unit(unit_clamped(x)),
        in_unit(unit_clamped(y)),
        unit_clamped(x).order() <= unit_clamped(y).order(),
{
}

proof fn lemma_weighted_grows(
    w: Single,
    m1: Single,
    m2: Single,
    v: Single,
    f1: Single,
    f2: Single,
)
    requires
        w.finite() && !w.negative() && w.magnitude() <= ONE,
        v.finite() && !v.negative() && v.magnitude() <= ONE,
        m1.finite() && m2.finite() && m1.order() <= m2.order(),
        f1.finite() && f2.finite() && f1.order() <= f2.order(),
    ensures
        !sum(product(w, m1), product(v, f1)).nan(),
        !sum(product(w, m2), product(v, f2)).nan(),
        sum(product(w, m1), product(v, f1)).order() <= sum(
            product(w, m2),
            product(v, f2),
        ).order(),
{
    lemma_product_grows(w, m1, m2);
    lemma_product_grows(v, f1, f2);
    lemma_product_shrinks(w, m1);
    lemma_product_shrinks(w, m2);
    lemma_product_shrinks(v, f1);
    lemma_product_shrinks(v, f2);
    lemma_sum_grows(product(w, m1), product(v, f1), product(w, m2), product(v, f2));
}

/// The weight of the field signal lies between zero and one.
proof fn lemma_rest()
    ensures
        ({
            let rest = difference(Single { bits: ONE }, Single { bits: MSG_SIGNAL_WEIGHT });
            rest.finite() && !rest.negative() && rest.magnitude() <= ONE
        }),
{
    let weight = Single { bits: MSG_SIGNAL_WEIGHT };
    let one = Single { bits: ONE };
    assert(in_unit(weight));
    lemma_unit_difference(weight);
    lemma_one();
    lemma_magnitude_order(one, weight);
    let e = opposite(weight);
    assert(e.units() == weight.units());
}

/// The exponent of the confidence curve does not depend on the sign of the Z-score.
pub proof fn lemma_exponent_symmetric(z: Single)
    ensures
        decay_exponent(opposite(z)) == decay_exponent(z),
{
    let half = Single { bits: MINUS_HALF };
    let y = opposite(z);
    assert(y.magnitude() == z.magnitude());
    assert(y.units() == z.units());
    if !z.nan() {
        let p = product(half, z);
        let q = product(half, y);
        assert(rounded(half.units() * z.units(), pow2(149)) <= INFINITE);
        assert(p.magnitude() == q.magnitude() && p.negative() != q.negative());
        assert(p.units() == q.units());
    }
}

/// The exponent of the confidence curve falls as the magnitude of the Z-score grows.
pub proof fn lemma_exponent_falls(a: Single, b: Single)
    requires
        a.finite(),
        b.finite(),
        a.magnitude() <= b.magnitude(),
    ensures
        !decay_exponent(a).nan(),
        !decay_exponent(b).nan(),
        decay_exponent(b).order() <= decay_exponent(a).order(),
{
    let half = Single { bits: MINUS_HALF };
    assert(half.magnitude() <= ONE);
    lemma_product_magnitude(half, a, half, b);
    lemma_product_magnitude(half, b, half, b);
    lemma_product_shrinks(half, a);
    lemma_product_shrinks(half, b);
    let p = product(half, a);
    let q = product(half, b);
    lemma_product_magnitude(p, a, q, b);
    lemma_product_magnitude(q, b, q, b);
}

/// Whether a function is like the exponential: on numbers up to zero it takes values
/// between zero and one, grows, and is one at zero.
pub open spec fn exponential_like(e: spec_fn(Single) -> Single) -> bool {
    &&& forall|x: Single| !x.nan() && x.order() <= 0 ==> in_unit(#[trigger] e(x))
    &&& forall|x: Single, y: Single|
        !x.nan() && !y.nan() && x.order() <= y.order() <= 0 ==> (#[trigger] e(x)).order()
            <= (#[trigger] e(y)).order()
    &&& forall|x: Single| x.zero() ==> (#[trigger] e(x)).bits == ONE
}

/// Confidence of a Z-score under an exponential.
pub open spec fn confidence_of(z: Single, e: spec_fn(Single) -> Single) -> Single {
    signal_of(z, e(decay_exponent(z))).confidence
}

/// The confidence curve is zero at zero, does not depend on the sign of the Z-score,
/// grows with its magnitude, and stays between zero and one.
pub proof fn lemma_confidence_curve(a: Single, b: Single, e: spec_fn(Single) -> Single)
    requires
        exponential_like(e),
        a.finite(),
        b.finite(),
        a.magnitude() <= b.magnitude(),
    ensures
        a.zero() ==> confidence_of(a, e).bits == 0,
        confidence_of(opposite(a), e) == confidence_of(a, e),
        in_unit(confidence_of(a, e)),
        in_unit(confidence_of(b, e)),
        confidence_of(a, e).order() <= confidence_of(b, e).order(),
{
    let x = decay_exponent(a);
    let y = decay_exponent(b);
    assert(decay_exponent(opposite(a)) == x) by {
        lemma_exponent_symmetric(a);
    }
    assert(!x.nan() && !y.nan() && y.order() <= x.order()) by {
        lemma_exponent_falls(a, b);
    }
    assert(x.order() <= 0 && y.order() <= 0) by {
        lemma_exponent_not_positive(a);
        lemma_exponent_not_positive(b);
    }
    lemma_confidences(a, b, e(x), e(y));
    if a.zero() {
        assert(x.zero()) by {
            let half = Single { bits: MINUS_HALF };
            lemma_zero_product(half, a);
            lemma_zero_product(product(half, a), a);
        }
        lemma_no_confidence(a, e(x));
    }
    assert(signal_of(opposite(a), e(x)).confidence == signal_of(a, e(x)).confidence) by {
        reveal(signal_of);
    }
}

proof fn lemma_confidences(a: Single, b: Single, c: Single, d: Single)
    requires
        in_unit(c),
        in_unit(d),
        d.order() <= c.order(),
    ensures
        in_unit(signal_of(a, c).confidence),
        in_unit(signal_of(b, d).confidence),
        signal_of(a, c).confidence.order() <= signal_of(b, d).confidence.order(),
{
    reveal(signal_of);
    let one = Single { bits: ONE };
    lemma_unit_difference(c);
    lemma_unit_difference(d);
    lemma_sum_grows(one, opposite(c), one, opposite(d));
}

proof fn lemma_no_confidence(a: Single, c: Single)
    requires
        c.bits == ONE,
    ensures
        signal_of(a, c).confidence.bits == 0,
{
    reveal(signal_of);
    lemma_one_less();
}

/// Bit pattern of 5.
pub const FIVE: u32 = 0x40a0_0000;

/// Bit pattern of -12.5: the exponent of a Z-score of five.
pub const FIVE_EXPONENT: u32 = 0xc148_0000;

/// Bit pattern of 1/128.
pub const ONE_128TH: u32 = 0x3c00_0000;

/// Bit pattern of 0.99.
pub const HIGH_CONFIDENCE: u32 = 0x3f7d_70a4;

/// The confidence of Z-scores of five or more, on either side, exceeds 0.99 under an
/// exponential that has fallen to a 128th by -12.5.
pub proof fn lemma_confidence_high(z: Single, e: spec_fn(Single) -> Single)
    requires
        exponential_like(e),
        at_least(Single { bits: ONE_128TH }, e(Single { bits: FIVE_EXPONENT })),
        z.finite(),
        z.magnitude() >= FIVE,
    ensures
        less(Single { bits: HIGH_CONFIDENCE }, confidence_of(z, e)),
{
    let five = Single { bits: FIVE };
    let exponent = Single { bits: FIVE_EXPONENT };
    let part = Single { bits: ONE_128TH };
    let (c, d) = (confidence_of(five, e), confidence_of(z, e));
    let least = signal_of(five, part).confidence;
    assert(in_unit(d) && c.order() <= d.order()) by {
        lemma_confidence_curve(five, z, e);
    }
    assert(c == signal_of(five, e(exponent)).confidence) by {
        lemma_five_exponent();
    }
    assert(in_unit(least) && least.order() <= c.order()) by {
        assert(!exponent.nan() && exponent.order() <= 0);
        lemma_confidences(five, five, part, e(exponent));
    }
    lemma_most_confidence(five);
}

proof fn lemma_five_exponent()
    ensures
        decay_exponent(Single { bits: FIVE }) == (Single { bits: FIVE_EXPONENT }),
{
    let five = Single { bits: FIVE };
    let half = Single { bits: MINUS_HALF };
    let p = pow2(149);
    lemma_pow2_pos(149);
    vstd::arithmetic::power2::lemma2_to64();
    vstd::arithmetic::power2::lemma_pow2_adds(21, 128);
    vstd::arithmetic::power2::lemma_pow2_adds(23, 125);
    vstd::arithmetic::power2::lemma_pow2_adds(21, 127);
    vstd::arithmetic::power2::lemma_pow2_adds(19, 129);
    assert(five.place() == 128 && half.place() == 125);
    assert(five.units() == 0xa0_0000 * pow2(128));
    assert(half.units() == 0x80_0000 * pow2(125));
    let q = pow2(148);
    assert(five.units() == 5 * p && half.units() == q);
    lemma_rounded_exact(127, 0xa0_0000);
    lemma_rounded_exact(129, 0xc8_0000);
    assert(q * (5 * p) == (5 * q) * p) by (nonlinear_arith);
    assert((5 * q) * (5 * p) == (25 * q) * p) by (nonlinear_arith);
    lemma_rounded_scaled(5 * q, 1, p);
    lemma_rounded_scaled(25 * q, 1, p);
    assert(1 * p == p);
    let r = product(half, five);
    assert(r == (Single { bits: 0xc020_0000 }));
    assert(r.place() == 127);
    assert(r.units() == 0xa0_0000 * pow2(127));
}

proof fn lemma_most_confidence(z: Single)
    ensures
        less(
            Single { bits: HIGH_CONFIDENCE },
            signal_of(z, Single { bits: ONE_128TH }).confidence,
        ),
{
    let one = Single { bits: ONE };
    let part = Single { bits: ONE_128TH };
    let y = opposite(part);
    reveal(signal_of);
    lemma_one();
    vstd::arithmetic::power2::lemma2_to64();
    vstd::arithmetic::power2::lemma_pow2_adds(24, 125);
    vstd::arithmetic::power2::lemma_pow2_adds(6, 119);
    assert(part.place() == 119);
    assert(part.units() == 0x80_0000 * pow2(119));
    assert(y.units() == part.units());
    assert(one.value() + y.value() == 0xfe_0000 * pow2(125));
    lemma_rounded_exact(125, 0xfe_0000);
    lemma_pow2_pos(125);
}

}
