//! IEEE 754 single-precision arithmetic on encodings.
//!
//! A [`Single`] is the bit pattern of a `binary32` number.  Sums, products,
//! quotients and square roots are correctly rounded (to nearest, ties to even);
//! an invalid operation gives the quiet NaN `0x7fc0_0000`.

use crate::rounding::{
    lemma_last_place_is, lemma_nearest_even_scaled, lemma_pow2_increases, lemma_rounded_exact,
    lemma_rounded_monotone, lemma_rounded_scaled, lemma_shift_fits, nearest_even, power_of_two,
    round_root, round_scaled, rounded, rounded_root, rounded_scaled, INFINITE,
};
use vstd::arithmetic::power2::{lemma_pow2_adds, lemma_pow2_pos, pow2};
use vstd::prelude::*;

verus! {

broadcast use crate::rounding::lemma_rounded_limit;

/// A single-precision number, by its bit pattern.
#[derive(Clone, Copy, Debug, PartialEq, Eq, Structural)]
pub struct Single {
    pub bits: u32,
}

/// Encoding of one.
pub const ONE: u32 = 0x3f80_0000;

/// Double-precision encoding of one.
pub const DOUBLE_ONE: u64 = 0x3ff0_0000_0000_0000;

/// Encoding of the quiet NaN that stands for every invalid result.
pub const NAN: u32 = 0x7fc0_0000;

/// The number with the given sign and magnitude encoding.
pub open spec fn signed(negative: bool, magnitude: nat) -> Single {
    Single {
        bits: if negative {
            (0x8000_0000 + magnitude) as u32
        } else {
            magnitude as u32
        },
    }
}

impl Single {
    pub open spec fn negative(self) -> bool {
        self.bits >= 0x8000_0000
    }

    /// Exponent and fraction fields, as one number.
    pub open spec fn magnitude(self) -> nat {
        (self.bits % 0x8000_0000) as nat
    }

    pub open spec fn nan(self) -> bool {
        self.magnitude() > INFINITE
    }

    pub open spec fn infinite(self) -> bool {
        self.magnitude() == INFINITE
    }

    pub open spec fn finite(self) -> bool {
        self.magnitude() < INFINITE
    }

    pub open spec fn zero(self) -> bool {
        self.magnitude() == 0
    }

    /// Size of the last place, as a power of two units.
    pub open spec fn place(self) -> nat {
        if self.magnitude() < 0x80_0000 {
            0
        } else {
            (self.magnitude() / 0x80_0000 - 1) as nat
        }
    }

    /// Absolute value of a finite number in units of two to the power -149.
    pub open spec fn units(self) -> nat {
        ((self.magnitude() - self.place() * 0x80_0000) * pow2(self.place())) as nat
    }

    /// A finite number in units of two to the power -149.
    pub open spec fn value(self) -> int {
        if self.negative() {
            -self.units()
        } else {
            self.units() as int
        }
    }

    /// Position in the order of the numbers other than NaN; both zeros share one.
    pub open spec fn order(self) -> int {
        if self.negative() {
            -self.magnitude()
        } else {
            self.magnitude() as int
        }
    }
}

/// Sum of two numbers.
pub open spec fn sum(x: Single, y: Single) -> Single {
    if x.nan() || y.nan() || (x.infinite() && y.infinite() && x.negative() != y.negative()) {
        Single { bits: NAN }
    } else if x.infinite() {
        x
    } else if y.infinite() {
        y
    } else {
        let total = x.value() + y.value();
        if total > 0 {
            signed(false, rounded(total as nat, 1))
        } else if total < 0 {
            signed(true, rounded((-total) as nat, 1))
        } else {
            signed(x.negative() && y.negative(), 0)
        }
    }
}

/// The number with its sign changed.
pub open spec fn opposite(x: Single) -> Single {
    signed(!x.negative(), x.magnitude())
}

/// Difference of two numbers.
pub open spec fn difference(x: Single, y: Single) -> Single {
    sum(x, opposite(y))
}

/// Product of two numbers.
pub open spec fn product(x: Single, y: Single) -> Single {
    let negative = x.negative() != y.negative();
    if x.nan() || y.nan() || (x.infinite() && y.zero()) || (x.zero() && y.infinite()) {
        Single { bits: NAN }
    } else if x.infinite() || y.infinite() {
        signed(negative, INFINITE as nat)
    } else {
        signed(negative, rounded(x.units() * y.units(), pow2(149)))
    }
}

/// Quotient of two numbers.
pub open spec fn quotient(x: Single, y: Single) -> Single {
    let negative = x.negative() != y.negative();
    if x.nan() || y.nan() || (x.infinite() && y.infinite()) || (x.zero() && y.zero()) {
        Single { bits: NAN }
    } else if x.infinite() || y.zero() {
        signed(negative, INFINITE as nat)
    } else if y.infinite() {
        signed(negative, 0)
    } else {
        signed(negative, rounded(x.units() * pow2(149), y.units()))
    }
}

/// A whole number as the nearest single-precision one.
pub open spec fn whole(n: nat) -> Single {
    signed(false, rounded(n * pow2(149), 1))
}

/// Square root.
pub open spec fn root(x: Single) -> Single {
    if x.nan() || (x.negative() && !x.zero()) {
        Single { bits: NAN }
    } else if x.zero() || x.infinite() {
        x
    } else {
        signed(false, rounded_root(x.units() * pow2(149)))
    }
}

/// The numeric `<`: false as soon as one side is NaN.
pub open spec fn less(x: Single, y: Single) -> bool {
    !x.nan() && !y.nan() && x.order() < y.order()
}

/// The numeric `>=`: false as soon as one side is NaN.
pub open spec fn at_least(x: Single, y: Single) -> bool {
    !x.nan() && !y.nan() && x.order() >= y.order()
}

/// `x`, or the nearest end of the range from `low` to `high` when `x` lies
/// outside; NaN stays NaN.
pub open spec fn clamped(x: Single, low: Single, high: Single) -> Single {
    if less(x, low) {
        low
    } else if less(high, x) {
        high
    } else {
        x
    }
}

/// The greater of two numbers; a number other than NaN when there is one.
pub open spec fn greater_of(x: Single, y: Single) -> Single {
    if x.nan() || less(x, y) {
        y
    } else {
        x
    }
}

/// Absolute value.
pub open spec fn absolute(x: Single) -> Single {
    signed(false, x.magnitude())
}

pub(crate) proof fn lemma_decoded(x: Single)
    requires
        x.finite(),
    ensures
        x.place() <= 253,
        x.units() == (x.magnitude() - x.place() * 0x80_0000) * pow2(x.place()),
        0 <= x.magnitude() - x.place() * 0x80_0000 < 0x100_0000,
        x.place() > 0 ==> x.magnitude() - x.place() * 0x80_0000 >= 0x80_0000,
        x.units() == 0 <==> x.zero(),
{
    let m = x.magnitude() - x.place() * 0x80_0000;
    lemma_pow2_pos(x.place());
    assert(m >= 0 ==> m * pow2(x.place()) >= 0) by (nonlinear_arith);
    assert(m == 0 ==> m * pow2(x.place()) == 0) by (nonlinear_arith);
    assert(m == 0 <==> x.zero());
    assert(m > 0 ==> m * pow2(x.place()) > 0) by (nonlinear_arith)
        requires pow2(x.place()) > 0;
}

/// A number and its opposite differ in the sign alone.
pub(crate) proof fn lemma_opposite(x: Single)
    ensures
        opposite(x).magnitude() == x.magnitude(),
        opposite(x).negative() == !x.negative(),
        opposite(x).place() == x.place(),
        opposite(x).units() == x.units(),
        opposite(x).value() == -x.value(),
{
    let y = opposite(x);
    let m = x.magnitude();
    assert(0 <= m < 0x8000_0000);
    assert(y.bits == if x.negative() {
        m
    } else {
        0x8000_0000 + m
    });
    assert(y.magnitude() == m);
}

/// When the larger operand's last place exceeds the smaller operand by far, the
/// sum rounds back to the larger operand.
proof fn lemma_absorbed(x: Single, y: Single)
    requires
        x.finite(),
        y.finite(),
        x.place() > y.place() + 75,
    ensures
        sum(x, y) == x,
{
    reveal(rounded);
    let q = x.place();
    let m = (x.magnitude() - q * 0x80_0000) as nat;
    let d = y.units();
    lemma_decoded(x);
    lemma_decoded(y);
    vstd::arithmetic::power2::lemma2_to64();
    // The smaller operand is below a quarter of the larger operand's last place.
    let half = pow2((q - 1) as nat);
    vstd::arithmetic::power2::lemma_pow2_unfold(q);
    vstd::arithmetic::power2::lemma_pow2_unfold((q - 1) as nat);
    assert(d < pow2((q - 2) as nat)) by {
        let n = (y.magnitude() - y.place() * 0x80_0000) as nat;
        lemma_pow2_pos(y.place());
        lemma_pow2_adds(24, y.place());
        assert(n * pow2(y.place()) < 0x100_0000 * pow2(y.place())) by (nonlinear_arith)
            requires n < 0x100_0000, pow2(y.place()) > 0;
        lemma_pow2_increases(24 + y.place(), (q - 2) as nat);
    }
    let u = m * pow2(q);
    assert(x.units() == u);
    assert(u >= 0x80_0000 * pow2(q)) by (nonlinear_arith)
        requires u == m * pow2(q), m >= 0x80_0000;
    lemma_pow2_adds(24, q);
    lemma_pow2_adds(23, q);
    lemma_pow2_adds(22, q);
    assert(u + pow2(q) <= 0x100_0000 * pow2(q)) by (nonlinear_arith)
        requires u == m * pow2(q), m < 0x100_0000;
    if x.negative() == y.negative() {
        let a = u + d;
        lemma_last_place_is(a, 1, q);
        lemma_pow2_pos(q);
        vstd::arithmetic::div_mod::lemma_fundamental_div_mod_converse(
            a as int,
            pow2(q) as int,
            m as int,
            d as int,
        );
        assert(1 * pow2(q) == pow2(q));
        assert(rounded(a, 1) == x.magnitude());
        assert(sum(x, y) == signed(x.negative(), x.magnitude()));
    } else if d == 0 {
        lemma_last_place_is(u, 1, q);
        vstd::arithmetic::div_mod::lemma_fundamental_div_mod_converse(
            u as int,
            pow2(q) as int,
            m as int,
            0,
        );
        assert(1 * pow2(q) == pow2(q));
        assert(rounded(u, 1) == x.magnitude());
        assert(sum(x, y) == signed(x.negative(), x.magnitude()));
    } else {
        let a = (u - d) as nat;
        if m > 0x80_0000 {
            assert(u >= 0x80_0000 * pow2(q) + pow2(q)) by (nonlinear_arith)
                requires u == m * pow2(q), m >= 0x80_0001;
            lemma_last_place_is(a, 1, q);
            assert(a == (m - 1) * pow2(q) + (pow2(q) - d)) by (nonlinear_arith)
                requires a == m * pow2(q) - d;
            vstd::arithmetic::div_mod::lemma_fundamental_div_mod_converse(
                a as int,
                pow2(q) as int,
                m - 1,
                pow2(q) - d,
            );
            assert(1 * pow2(q) == pow2(q));
            assert(rounded(a, 1) == x.magnitude());
        } else {
            lemma_pow2_adds(24, (q - 1) as nat);
            lemma_pow2_adds(23, (q - 1) as nat);
            assert(m == 0x80_0000);
            assert(u == 0x100_0000 * half) by (nonlinear_arith)
                requires u == m * pow2(q), m == 0x80_0000, pow2(q) == 2 * half;
            lemma_last_place_is(a, 1, (q - 1) as nat);
            assert(a == 0xff_ffff * half + (half - d));
            vstd::arithmetic::div_mod::lemma_fundamental_div_mod_converse(
                a as int,
                half as int,
                0xff_ffff,
                half - d,
            );
            assert(1 * half == half);
            assert(rounded(a, 1) == x.magnitude());
        }
        assert(sum(x, y) == signed(x.negative(), x.magnitude()));
    }
}

/// `double` rounded to single precision, where `double` is the bit pattern of a
/// `binary64` number.
pub open spec fn narrowed(double: u64) -> Single {
    let negative = double >= 0x8000_0000_0000_0000;
    let magnitude = (double % 0x8000_0000_0000_0000) as nat;
    let exponent = (magnitude / 0x10_0000_0000_0000) as int;
    let fraction = magnitude % 0x10_0000_0000_0000;
    if exponent == 2047 {
        if fraction == 0 {
            signed(negative, INFINITE as nat)
        } else {
            Single { bits: NAN }
        }
    } else if exponent == 0 {
        signed(negative, rounded_scaled(fraction, 1, 1 - 926))
    } else {
        signed(negative, rounded_scaled(0x10_0000_0000_0000 + fraction, 1, exponent - 926))
    }
}

impl Single {
    /// The number with the given bit pattern.
    pub fn from_bits(bits: u32) -> (x: Single)
        ensures
            x.bits == bits,
    {
        Single { bits }
    }

    fn make(negative: bool, magnitude: u32) -> (x: Single)
        requires
            magnitude < 0x8000_0000,
        ensures
            x == signed(negative, magnitude as nat),
    {
        if negative {
            Single { bits: 0x8000_0000 + magnitude }
        } else {
            Single { bits: magnitude }
        }
    }

    pub(crate) fn sign(self) -> (negative: bool)
        ensures
            negative == self.negative(),
    {
        self.bits >= 0x8000_0000
    }

    fn encoding(self) -> (magnitude: u32)
        ensures
            magnitude == self.magnitude(),
            magnitude < 0x8000_0000,
    {
        self.bits % 0x8000_0000
    }

    /// Significand and last place of a finite number.
    pub(crate) fn decode(self) -> (parts: (u32, u32))
        requires
            self.finite(),
        ensures
            parts.1 == self.place(),
            parts.0 == self.magnitude() - self.place() * 0x80_0000,
            self.units() == parts.0 * pow2(parts.1 as nat),
            parts.0 < 0x100_0000,
            parts.1 <= 253,
    {
        proof {
            lemma_decoded(self);
        }
        let magnitude = self.encoding();
        if magnitude < 0x80_0000 {
            (magnitude, 0)
        } else {
            let place = magnitude / 0x80_0000 - 1;
            (magnitude - place * 0x80_0000, place)
        }
    }

    /// Whether the number is NaN.
    pub fn is_nan(self) -> (r: bool)
        ensures
            r == self.nan(),
    {
        self.encoding() > INFINITE
    }

    pub(crate) fn is_infinite(self) -> (r: bool)
        ensures
            r == self.infinite(),
    {
        self.encoding() == INFINITE
    }

    fn is_zero(self) -> (r: bool)
        ensures
            r == self.zero(),
    {
        self.encoding() == 0
    }

    /// The numeric `<`.
    pub fn is_less(self, other: Single) -> (r: bool)
        ensures
            r == less(self, other),
    {
        if self.is_nan() || other.is_nan() {
            return false;
        }
        let a = self.encoding();
        let b = other.encoding();
        if self.sign() {
            if other.sign() {
                b < a
            } else {
                a > 0 || b > 0
            }
        } else {
            !other.sign() && a < b
        }
    }

    /// `self`, or the nearest end of the range when `self` lies outside.
    pub fn clamp(self, low: Single, high: Single) -> (r: Single)
        ensures
            r == clamped(self, low, high),
    {
        if self.is_less(low) {
            low
        } else if high.is_less(self) {
            high
        } else {
            self
        }
    }

    /// The greater of two numbers.
    pub fn max(self, other: Single) -> (r: Single)
        ensures
            r == greater_of(self, other),
    {
        if self.is_nan() || self.is_less(other) {
            other
        } else {
            self
        }
    }

    /// Absolute value.
    pub fn abs(self) -> (r: Single)
        ensures
            r == absolute(self),
    {
        Single::make(false, self.encoding())
    }

    /// The number with its sign changed.
    pub fn negate(self) -> (r: Single)
        ensures
            r == opposite(self),
    {
        Single::make(!self.sign(), self.encoding())
    }

    /// Sum of two numbers.
    pub fn plus(self, other: Single) -> (r: Single)
        ensures
            r == sum(self, other),
    {
        if self.is_nan() || other.is_nan() {
            return Single { bits: NAN };
        }
        if self.is_infinite() {
            if other.is_infinite() && self.sign() != other.sign() {
                return Single { bits: NAN };
            }
            return self;
        }
        if other.is_infinite() {
            return other;
        }
        let (_, p) = self.decode();
        let (_, q) = other.decode();
        if p >= q {
            self.plus_finer(other)
        } else {
            proof {
                assert(self.value() + other.value() == other.value() + self.value());
            }
            other.plus_finer(self)
        }
    }

    /// Sum of two finite numbers, the second with the finer last place.
    fn plus_finer(self, other: Single) -> (r: Single)
        requires
            self.finite(),
            other.finite(),
            self.place() >= other.place(),
        ensures
            r == sum(self, other),
    {
        let (m, p) = self.decode();
        let (n, q) = other.decode();
        let gap = p - q;
        if gap > 75 {
            proof {
                lemma_absorbed(self, other);
            }
            return self;
        }
        let scale = power_of_two(gap);
        proof {
            lemma_pow2_adds(gap as nat, q as nat);
            lemma_pow2_pos(q as nat);
            vstd::arithmetic::power2::lemma2_to64();
            vstd::arithmetic::power2::lemma2_to64_rest();
            lemma_shift_fits(m as nat, 24, gap as nat, 99);
            lemma_pow2_adds(49, 50);
        }
        let a: u128 = m as u128 * scale;
        let b: u128 = n as u128;
        let ghost y = pow2(q as nat);
        proof {
            assert(self.units() == a * y) by (nonlinear_arith)
                requires self.units() == m * (scale * y), a == m * scale;
            assert((a + b) * y == a * y + b * y) by (nonlinear_arith);
            assert((a - b) * y == a * y - b * y) by (nonlinear_arith);
            assert((b - a) * y == b * y - a * y) by (nonlinear_arith);
            assert(a > b ==> (a - b) * y > 0) by (nonlinear_arith)
                requires y > 0;
            assert(b > a ==> (b - a) * y > 0) by (nonlinear_arith)
                requires y > 0;
            assert(a + b > 0 ==> (a + b) * y > 0) by (nonlinear_arith)
                requires y > 0;
            assert(a + b == 0 ==> (a + b) * y == 0) by (nonlinear_arith);
        }
        if self.sign() == other.sign() {
            if a + b == 0 {
                return Single::make(self.sign(), 0);
            }
            Single::make(self.sign(), round_scaled(a + b, 1, q as i32))
        } else if a > b {
            Single::make(self.sign(), round_scaled(a - b, 1, q as i32))
        } else if a < b {
            Single::make(other.sign(), round_scaled(b - a, 1, q as i32))
        } else {
            Single::make(false, 0)
        }
    }

    /// Difference of two numbers.
    pub fn minus(self, other: Single) -> (r: Single)
        ensures
            r == difference(self, other),
    {
        self.plus(other.negate())
    }

    /// Product of two numbers.
    pub fn times(self, other: Single) -> (r: Single)
        ensures
            r == product(self, other),
    {
        if self.is_nan() || other.is_nan() {
            return Single { bits: NAN };
        }
        if (self.is_infinite() && other.is_zero()) || (self.is_zero() && other.is_infinite()) {
            return Single { bits: NAN };
        }
        let negative = self.sign() != other.sign();
        if self.is_infinite() || other.is_infinite() {
            return Single::make(negative, INFINITE);
        }
        let (m, p) = self.decode();
        let (n, q) = other.decode();
        let a: u128 = {
            assert(m * n < 0x1_0000_0000_0000) by (nonlinear_arith)
                requires m < 0x100_0000, n < 0x100_0000;
            m as u128 * n as u128
        };
        let t: i32 = p as i32 + q as i32 - 149;
        proof {
            let e = (p + q) as nat;
            lemma_pow2_adds(p as nat, q as nat);
            assert(self.units() * other.units() == a * pow2(e)) by (nonlinear_arith)
                requires
                    self.units() == m * pow2(p as nat),
                    other.units() == n * pow2(q as nat),
                    pow2(e) == pow2(p as nat) * pow2(q as nat),
                    a == m * n,
            ;
            lemma_scaled_quotient(a as nat, 1, e, 149);
        }
        Single::make(negative, round_scaled(a, 1, t))
    }

    /// Quotient of two numbers.
    pub fn over(self, other: Single) -> (r: Single)
        ensures
            r == quotient(self, other),
    {
        if self.is_nan() || other.is_nan() {
            return Single { bits: NAN };
        }
        if (self.is_infinite() && other.is_infinite()) || (self.is_zero() && other.is_zero()) {
            return Single { bits: NAN };
        }
        let negative = self.sign() != other.sign();
        if self.is_infinite() || other.is_zero() {
            return Single::make(negative, INFINITE);
        }
        if other.is_infinite() {
            return Single::make(negative, 0);
        }
        let (m, p) = self.decode();
        let (n, q) = other.decode();
        let t: i32 = p as i32 + 149 - q as i32;
        proof {
            lemma_decoded(other);
            let e = (p + 149) as nat;
            lemma_pow2_adds(p as nat, 149);
            assert(self.units() * pow2(149) == m * pow2(e)) by (nonlinear_arith)
                requires
                    self.units() == m * pow2(p as nat),
                    pow2(e) == pow2(p as nat) * pow2(149),
            ;
            lemma_scaled_quotient(m as nat, n as nat, e, q as nat);
        }
        Single::make(negative, round_scaled(m as u128, n as u128, t))
    }

    /// Square root.
    pub fn sqrt(self) -> (r: Single)
        ensures
            r == root(self),
    {
        if self.is_nan() || (self.sign() && !self.is_zero()) {
            return Single { bits: NAN };
        }
        if self.is_zero() || self.is_infinite() {
            return self;
        }
        let (m, p) = self.decode();
        proof {
            lemma_decoded(self);
            lemma_pow2_adds(p as nat, 149);
            assert(self.units() * pow2(149) == m * pow2((p + 149) as nat)) by (nonlinear_arith)
                requires
                    self.units() == m * pow2(p as nat),
                    pow2((p + 149) as nat) == pow2(p as nat) * pow2(149),
            ;
        }
        Single::make(false, round_root(m, p + 149))
    }

    /// A whole number as the nearest single-precision one.
    pub fn from_whole(n: u64) -> (r: Single)
        ensures
            r == whole(n as nat),
    {
        Single::make(false, round_scaled(n as u128, 1, 149))
    }

    /// Rounds a double-precision number, given by its bit pattern.
    pub fn from_double(double: u64) -> (r: Single)
        ensures
            r == narrowed(double),
    {
        let negative = double >= 0x8000_0000_0000_0000;
        let magnitude = double % 0x8000_0000_0000_0000;
        let exponent = magnitude / 0x10_0000_0000_0000;
        let fraction = magnitude % 0x10_0000_0000_0000;
        if exponent == 2047 {
            if fraction == 0 {
                Single::make(negative, INFINITE)
            } else {
                Single { bits: NAN }
            }
        } else if exponent == 0 {
            Single::make(negative, round_scaled(fraction as u128, 1, -925))
        } else {
            let significand = 0x10_0000_0000_0000 + fraction;
            Single::make(negative, round_scaled(significand as u128, 1, exponent as i32 - 926))
        }
    }
}

proof fn lemma_scaled_quotient(a: nat, b: nat, e: nat, f: nat)
    requires
        b > 0,
    ensures
        rounded(a * pow2(e), b * pow2(f)) == rounded_scaled(a, b, e - f),
{
    lemma_pow2_pos(e);
    lemma_pow2_pos(f);
    if e >= f {
        let x = pow2((e - f) as nat);
        let y = pow2(f);
        lemma_pow2_adds((e - f) as nat, f);
        assert(a * (x * y) == a * x * y) by (nonlinear_arith);
        lemma_rounded_scaled(a * x, b, y);
    } else {
        let x = pow2((f - e) as nat);
        let y = pow2(e);
        lemma_pow2_adds((f - e) as nat, e);
        lemma_pow2_pos((f - e) as nat);
        assert(b * (x * y) == b * x * y) by (nonlinear_arith);
        assert(b * x > 0) by (nonlinear_arith)
            requires b > 0, x > 0;
        lemma_rounded_scaled(a, b * x, y);
    }
}

/// A finite number is the rounding of its own magnitude.
pub proof fn lemma_exact(x: Single)
    requires
        x.finite(),
    ensures
        rounded(x.units(), 1) == x.magnitude(),
{
    lemma_decoded(x);
    lemma_rounded_exact(x.place(), (x.magnitude() - x.place() * 0x80_0000) as nat);
}

/// Encodings are in the order of the magnitudes they stand for.
pub proof fn lemma_magnitude_order(x: Single, y: Single)
    requires
        x.finite(),
        y.finite(),
    ensures
        x.magnitude() <= y.magnitude() <==> x.units() <= y.units(),
{
    lemma_exact(x);
    lemma_exact(y);
    if x.units() <= y.units() {
        lemma_rounded_monotone(x.units(), 1, y.units(), 1);
    } else {
        lemma_rounded_monotone(y.units(), 1, x.units(), 1);
        if x.magnitude() == y.magnitude() {
            assert(x.place() == y.place());
        }
    }
}

/// The order of finite numbers is the order of their values.
pub proof fn lemma_less_is_value_order(x: Single, y: Single)
    requires
        x.finite(),
        y.finite(),
    ensures
        less(x, y) <==> x.value() < y.value(),
{
    lemma_magnitude_order(x, y);
    lemma_magnitude_order(y, x);
    lemma_decoded(x);
    lemma_decoded(y);
}

/// Sums and products do not depend on the order of their operands.
pub proof fn lemma_commutative(x: Single, y: Single)
    ensures
        sum(x, y) == sum(y, x),
        product(x, y) == product(y, x),
{
    if x.infinite() && y.infinite() && x.negative() == y.negative() {
        assert(x.bits == y.bits);
    }
    assert(x.units() * y.units() == y.units() * x.units()) by (nonlinear_arith);
}

/// One less one is zero, and one less zero is one.
pub proof fn lemma_one_less()
    ensures
        difference(Single { bits: ONE }, Single { bits: ONE }).bits == 0,
        difference(Single { bits: ONE }, Single { bits: 0 }).bits == ONE,
{
    let one = Single { bits: ONE };
    let minus = opposite(one);
    assert(minus.units() == one.units());
    lemma_exact(one);
    lemma_decoded(one);
    let nothing = opposite(Single { bits: 0 });
    assert(nothing.units() == 0) by {
        assert(0 * pow2(0) == 0) by (nonlinear_arith);
    }
}

/// Zero stays zero in single precision.
pub proof fn lemma_zero_narrowed()
    ensures
        narrowed(0).bits == 0,
{
    lemma_pow2_pos(925);
    assert(1 * pow2(925) == pow2(925) && 0 * pow2(925) == 0) by (nonlinear_arith);
    lemma_rounded_scaled(0, 1, pow2(925));
    lemma_rounded_exact(0, 0);
    assert(0 * pow2(0) == 0) by (nonlinear_arith);
}

/// A double-precision number next to one is one in single precision.
pub proof fn lemma_one_narrowed(double: u64)
    requires
        DOUBLE_ONE - 8 <= double <= DOUBLE_ONE + 8,
    ensures
        narrowed(double).bits == ONE,
{
    let low: nat = 0x1f_ffff_ffff_fff8;
    let high: nat = 0x10_0000_0000_0008;
    vstd::arithmetic::power2::lemma2_to64();
    lemma_rounds_to(low, 96, 125, 0x100_0000);
    lemma_rounds_to(high, 97, 126, 0x80_0000);
    lemma_pow2_adds(96, 1);
    lemma_pow2_pos(96);
    let x = pow2(96);
    assert(1 * pow2(97) == 2 * x && pow2(97) == 2 * x);
    if double < DOUBLE_ONE {
        let s = (double - 0x3fe0_0000_0000_0000 + 0x10_0000_0000_0000) as nat;
        assert((low * x) * 1 <= (s * x) * 1) by (nonlinear_arith)
            requires low <= s;
        assert((s * x) * 1 <= (high * (2 * x)) * 1) by (nonlinear_arith)
            requires s <= 2 * high;
        lemma_rounded_monotone(low * x, 1, s * x, 1);
        lemma_rounded_monotone(s * x, 1, high * (2 * x), 1);
        assert(narrowed(double) == signed(false, rounded(s * x, 1)));
    } else {
        let s = (double - DOUBLE_ONE + 0x10_0000_0000_0000) as nat;
        assert((low * x) * 1 <= (s * (2 * x)) * 1) by (nonlinear_arith)
            requires low <= 2 * s;
        assert((s * (2 * x)) * 1 <= (high * (2 * x)) * 1) by (nonlinear_arith)
            requires s <= high;
        lemma_rounded_monotone(low * x, 1, s * (2 * x), 1);
        lemma_rounded_monotone(s * (2 * x), 1, high * (2 * x), 1);
        assert(narrowed(double) == signed(false, rounded(s * (2 * x), 1)));
    }
}

/// A double-precision number between minus one and one, or next to them, lies between
/// minus one and one in single precision.
pub proof fn lemma_unit_narrowed(double: u64)
    requires
        double % 0x8000_0000_0000_0000 <= DOUBLE_ONE + 8,
    ensures
        narrowed(double).magnitude() <= ONE,
{
    let magnitude = (double % 0x8000_0000_0000_0000) as nat;
    let exponent = (magnitude / 0x10_0000_0000_0000) as int;
    let fraction = magnitude % 0x10_0000_0000_0000;
    let high: nat = 0x10_0000_0000_0008;
    let most = high * pow2(97);
    vstd::arithmetic::power2::lemma2_to64();
    lemma_rounds_to(high, 97, 126, 0x80_0000);
    assert(rounded(most, 1) == ONE);
    lemma_pow2_adds(96, 1);
    lemma_pow2_pos(96);
    assert(most == 0x20_0000_0000_0010 * pow2(96)) by (nonlinear_arith)
        requires most == high * pow2(97), pow2(97) == 2 * pow2(96), high == 0x10_0000_0000_0008;
    let s = if exponent == 0 {
        fraction
    } else {
        0x10_0000_0000_0000 + fraction
    };
    let t = if exponent == 0 {
        1 - 926
    } else {
        exponent - 926
    };
    assert(s < 0x20_0000_0000_0000);
    assert(exponent <= 1023);
    if t >= 0 {
        let x = pow2(t as nat);
        assert(s * x <= most) by {
            if t < 97 {
                lemma_pow2_adds(t as nat, (96 - t) as nat);
                lemma_pow2_pos((96 - t) as nat);
                lemma_pow2_pos(t as nat);
                assert(x <= pow2(96)) by (nonlinear_arith)
                    requires
                        pow2(96) == x * pow2((96 - t) as nat),
                        pow2((96 - t) as nat) >= 1,
                        x > 0,
                ;
                assert(s * x <= 0x20_0000_0000_0010 * pow2(96)) by (nonlinear_arith)
                    requires s <= 0x20_0000_0000_0010, 0 < x <= pow2(96);
            } else {
                assert(s <= high);
                assert(s * x <= high * x) by (nonlinear_arith)
                    requires s <= high, x >= 0;
            }
        }
        assert((s * x) * 1 <= most * 1);
        lemma_rounded_monotone(s * x, 1, most, 1);
    } else {
        let d = pow2((-t) as nat);
        lemma_pow2_pos((-t) as nat);
        assert(s * 1 <= most * d) by (nonlinear_arith)
            requires
                s <= 0x20_0000_0000_0010,
                most == 0x20_0000_0000_0010 * pow2(96),
                pow2(96) >= 1,
                d >= 1,
        ;
        assert(1 * d == d);
        lemma_rounded_monotone(s, d, most, 1);
    }
}

/// Rounding of `s` scaled by two to the power `t`, with `29` bits to drop.
proof fn lemma_rounds_to(s: nat, t: nat, q: nat, m: nat)
    requires
        q == t + 29,
        q > 0,
        0x10_0000_0000_0000 <= s < 0x20_0000_0000_0000,
        nearest_even(s, 0x2000_0000) == m,
        q * 0x80_0000 + m < INFINITE,
    ensures
        rounded(s * pow2(t), 1) == q * 0x80_0000 + m,
{
    reveal(rounded);
    vstd::arithmetic::power2::lemma2_to64();
    vstd::arithmetic::power2::lemma2_to64_rest();
    lemma_pow2_pos(t);
    lemma_pow2_adds(29, t);
    lemma_pow2_adds(52, t);
    lemma_pow2_adds(53, t);
    let x = pow2(t);
    assert(s * x >= 0x10_0000_0000_0000 * x) by (nonlinear_arith)
        requires s >= 0x10_0000_0000_0000;
    assert(s * x < 0x20_0000_0000_0000 * x) by (nonlinear_arith)
        requires s < 0x20_0000_0000_0000, x > 0;
    assert(24 + q == 53 + t && 23 + q == 52 + t);
    assert(1 * pow2(24 + q) == pow2(24 + q) && 1 * pow2((23 + q) as nat) == pow2(
        (23 + q) as nat,
    ) && 1 * pow2(q) == pow2(q));
    lemma_last_place_is(s * x, 1, q);
    lemma_nearest_even_scaled(s, 0x2000_0000, x);
}

/// Operations without a numeric result give NaN, a finite number over zero is infinite,
/// and opposite numbers add up to zero.
pub proof fn lemma_special_values(x: Single, y: Single)
    ensures
        x.nan() || y.nan() ==> sum(x, y).nan() && difference(x, y).nan() && product(x, y).nan()
            && quotient(x, y).nan(),
        x.nan() ==> root(x).nan(),
        x.infinite() && !y.nan() && !y.infinite() ==> sum(x, y) == x && quotient(x, y).infinite(),
        x.infinite() && y == opposite(x) ==> sum(x, y).nan(),
        x.infinite() && y.zero() ==> product(x, y).nan() && product(y, x).nan(),
        x.zero() && y.zero() ==> quotient(x, y).nan(),
        x.infinite() && y.infinite() ==> quotient(x, y).nan() && product(x, y).infinite(),
        x.finite() && !x.zero() && y.zero() ==> quotient(x, y).infinite(),
        x.finite() && y.infinite() ==> quotient(x, y).zero(),
        !x.nan() && !x.zero() && x.negative() ==> root(x).nan(),
        x.zero() ==> root(x) == x,
        x.zero() && y.zero() ==> sum(x, y).zero() && sum(x, y).negative() == (x.negative()
            && y.negative()),
        x.finite() && x.value() + y.value() == 0 && y.finite() ==> sum(x, y).zero(),
        product(x, y).nan() || product(x, y).negative() == (x.negative() != y.negative()),
        quotient(x, y).nan() || quotient(x, y).negative() == (x.negative() != y.negative()),
{
    if x.finite() {
        lemma_decoded(x);
    }
    if y.finite() {
        lemma_decoded(y);
    }
}

/// The greater of two numbers is one of them and less than neither; NaN is passed over.
pub proof fn lemma_greater_of(x: Single, y: Single)
    ensures
        greater_of(x, y) == x || greater_of(x, y) == y,
        !less(greater_of(x, y), x) && !less(greater_of(x, y), y),
        !x.nan() && y.nan() ==> greater_of(x, y) == x,
        x.nan() ==> greater_of(x, y) == y,
{
}

/// Clamping leaves what lies in the range, and NaN, and takes anything else to the nearer
/// end of it.
pub proof fn lemma_clamped_range(x: Single, low: Single, high: Single)
    requires
        !low.nan() && !high.nan() && low.order() <= high.order(),
    ensures
        x.nan() || low.order() <= x.order() <= high.order() ==> clamped(x, low, high) == x,
        !x.nan() && x.order() < low.order() ==> clamped(x, low, high) == low,
        !x.nan() && x.order() > high.order() ==> clamped(x, low, high) == high,
{
}

/// The absolute value and the opposite of a finite number.
pub proof fn lemma_sign_changes(x: Single)
    requires
        x.finite(),
    ensures
        opposite(x).finite() && opposite(x).value() == -x.value(),
        absolute(x).finite() && absolute(x).value() == if x.value() < 0 {
            -x.value()
        } else {
            x.value()
        },
{
    lemma_decoded(x);
    assert(opposite(x).units() == x.units());
    assert(absolute(x).units() == x.units());
}

}
