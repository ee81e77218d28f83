//! Rounding of exact quotients to binary floating point with a 24-bit
//! significand, as IEEE 754 prescribes for `binary32`.
//!
//! Every finite `binary32` number is a whole multiple of the smallest positive
//! one, which is two to the power -149.  An exact magnitude is therefore given
//! here as a quotient `a / b` of natural numbers, counted in that unit.

use vstd::arithmetic::power2::{lemma_pow2_adds, lemma_pow2_pos, lemma_pow2_unfold, pow2};
use vstd::prelude::*;

verus! {

/// Encoding of the magnitude "infinity": exponent field all ones.
pub const INFINITE: u32 = 0x7f80_0000;

/// `a / b` rounded to the nearest whole number, ties to the even one.
pub open spec fn nearest_even(a: nat, b: nat) -> nat {
    let quotient = a / b;
    let twice_rest = 2 * (a % b);
    if twice_rest < b || (twice_rest == b && quotient % 2 == 0) {
        quotient
    } else {
        quotient + 1
    }
}

/// The least `q` for which `a / b` is below two to the power `24 + q`: the
/// exponent, in units, of the last place of a 24-bit significand.
pub open spec fn last_place(a: nat, b: nat) -> nat
    decreases a - b,
    when b > 0
{
    if a < 0x100_0000 * b {
        0
    } else {
        1 + last_place(a, 2 * b)
    }
}

/// The magnitude `a / b` rounded to the nearest `binary32` encoding, ties to
/// even; magnitudes too large for any finite encoding become `INFINITE`.
///
/// Consecutive encodings are consecutive numbers: `q * 2^23 + m` encodes the
/// magnitude of `m` last places of size `2^q`.
#[verifier::opaque]
pub open spec fn rounded(a: nat, b: nat) -> nat {
    let q = last_place(a, b);
    let encoding = q * 0x80_0000 + nearest_even(a, b * pow2(q));
    if encoding < INFINITE {
        encoding
    } else {
        INFINITE as nat
    }
}

/// No encoding exceeds that of infinity.
pub broadcast proof fn lemma_rounded_limit(a: nat, b: nat)
    ensures
        #[trigger] rounded(a, b) <= INFINITE,
{
    reveal(rounded);
}

/// `rounded` of `a / b` scaled by two to the power `t`.
pub open spec fn rounded_scaled(a: nat, b: nat, t: int) -> nat {
    if t >= 0 {
        rounded(a * pow2(t as nat), b)
    } else {
        rounded(a, b * pow2((-t) as nat))
    }
}

/// The least `q` for which the square root of `n` is below two to the power
/// `24 + q`.
pub open spec fn root_place(n: nat) -> nat
    decreases n,
{
    if n < 0x1_0000_0000_0000 {
        0
    } else {
        1 + root_place(n / 4)
    }
}

/// Whether `m` places of size `2^q` are the nearest to the square root of `n`.
pub open spec fn nearest_root(n: nat, q: nat, m: nat) -> bool {
    (2 * m - 1) * (2 * m - 1) * pow2(2 * q) < 4 * n < (2 * m + 1) * (2 * m + 1) * pow2(2 * q)
}

/// Encoding of the magnitude nearest to the square root of `n`, for an `n` of at
/// most 24 binary digits followed by at least 149 zeros: such a root never lies
/// half-way between two encodings.
pub open spec fn rounded_root(n: nat) -> nat {
    let q = root_place(n);
    q * 0x80_0000 + choose|m: nat| nearest_root(n, q, m)
}

pub proof fn lemma_last_place_is(a: nat, b: nat, q: nat)
    requires
        b > 0,
        a < b * pow2(24 + q),
        q > 0 ==> a >= b * pow2((23 + q) as nat),
    ensures
        last_place(a, b) == q,
    decreases q,
{
    assert(pow2(24) == 0x100_0000 && pow2(23) == 0x80_0000) by {
        vstd::arithmetic::power2::lemma2_to64();
    }
    if q == 0 {
        assert(0x100_0000 * b == b * pow2(24)) by (nonlinear_arith)
            requires pow2(24) == 0x100_0000;
    } else {
        lemma_pow2_adds(24, (q - 1) as nat);
        lemma_pow2_pos((q - 1) as nat);
        assert(b * pow2((23 + q) as nat) >= 0x100_0000 * b) by (nonlinear_arith)
            requires
                pow2((23 + q) as nat) == pow2(24) * pow2((q - 1) as nat),
                pow2(24) == 0x100_0000,
                pow2((q - 1) as nat) > 0,
        ;
        let c = 2 * b;
        assert(c * pow2((24 + (q - 1)) as nat) == b * pow2(24 + q)) by {
            lemma_pow2_unfold((24 + q) as nat);
            assert(c * pow2((24 + (q - 1)) as nat) == b * (2 * pow2((24 + (q - 1)) as nat)))
                by (nonlinear_arith)
                requires c == 2 * b;
        }
        if q - 1 > 0 {
            assert(c * pow2((23 + (q - 1)) as nat) == b * pow2((23 + q) as nat)) by {
                lemma_pow2_unfold((23 + q) as nat);
                assert(c * pow2((23 + (q - 1)) as nat) == b * (2 * pow2((23 + (q - 1)) as nat)))
                    by (nonlinear_arith)
                    requires c == 2 * b;
            }
        }
        lemma_last_place_is(a, c, (q - 1) as nat);
    }
}

pub proof fn lemma_nearest_even_scaled(a: nat, b: nat, k: nat)
    requires
        b > 0,
        k > 0,
    ensures
        nearest_even(a * k, b * k) == nearest_even(a, b),
{
    let q = a / b;
    let r = a % b;
    vstd::arithmetic::div_mod::lemma_fundamental_div_mod(a as int, b as int);
    assert(b * k > 0) by (nonlinear_arith)
        requires b > 0, k > 0;
    assert(a * k == q * (b * k) + r * k) by (nonlinear_arith)
        requires a == b * q + r;
    assert(0 <= r * k < b * k) by (nonlinear_arith)
        requires 0 <= r < b, k > 0;
    vstd::arithmetic::div_mod::lemma_fundamental_div_mod_converse(
        (a * k) as int,
        (b * k) as int,
        q as int,
        (r * k) as int,
    );
    assert(2 * (r * k) == (2 * r) * k) by (nonlinear_arith);
    assert((2 * r < b) == ((2 * r) * k < b * k)) by (nonlinear_arith)
        requires k > 0;
    assert((2 * r == b) == ((2 * r) * k == b * k)) by (nonlinear_arith)
        requires k > 0;
}

pub proof fn lemma_last_place_scaled(a: nat, b: nat, k: nat)
    requires
        b > 0,
        k > 0,
    ensures
        last_place(a * k, b * k) == last_place(a, b),
    decreases a - b,
{
    assert(b * k > 0) by (nonlinear_arith)
        requires b > 0, k > 0;
    assert(a * k < 0x100_0000 * (b * k) <==> a < 0x100_0000 * b) by (nonlinear_arith)
        requires k > 0;
    if a >= 0x100_0000 * b {
        assert(2 * (b * k) == (2 * b) * k) by (nonlinear_arith);
        lemma_last_place_scaled(a, 2 * b, k);
    }
}

/// A common factor of numerator and denominator does not matter.
pub proof fn lemma_rounded_scaled(a: nat, b: nat, k: nat)
    requires
        b > 0,
        k > 0,
    ensures
        rounded(a * k, b * k) == rounded(a, b),
{
    reveal(rounded);
    lemma_last_place_scaled(a, b, k);
    let x = pow2(last_place(a, b));
    lemma_pow2_pos(last_place(a, b));
    assert(b * k * x == (b * x) * k) by (nonlinear_arith);
    assert(b * x > 0) by (nonlinear_arith)
        requires b > 0, x > 0;
    lemma_nearest_even_scaled(a, b * x, k);
}

/// Whether `a` scaled by two to the power `s` is below `b`.
spec fn below(a: nat, b: nat, s: int) -> bool {
    if s >= 0 {
        a * pow2(s as nat) < b
    } else {
        a < b * pow2((-s) as nat)
    }
}

/// Numerator of `a / b` scaled by two to the power `t`.
spec fn numerator(a: nat, t: int) -> nat {
    if t >= 0 {
        a * pow2(t as nat)
    } else {
        a
    }
}

/// Denominator of `a / b` scaled by two to the power `t`.
spec fn denominator(b: nat, t: int) -> nat {
    if t >= 0 {
        b
    } else {
        b * pow2((-t) as nat)
    }
}

proof fn lemma_below_scaled(a: nat, b: nat, t: int, e: nat)
    ensures
        below(a, b, t - e) <==> numerator(a, t) < denominator(b, t) * pow2(e),
{
    let s = t - e;
    if t >= 0 && s >= 0 {
        lemma_pow2_adds(s as nat, e);
        lemma_pow2_pos(e);
        assert((s as nat) + e == t as nat);
        let x = pow2(s as nat);
        let y = pow2(e);
        assert(a * (x * y) < b * y <==> a * x < b) by (nonlinear_arith)
            requires y > 0;
    } else if t >= 0 {
        lemma_pow2_adds((-s) as nat, t as nat);
        lemma_pow2_pos(t as nat);
        assert(((-s) as nat) + (t as nat) == e);
        let x = pow2((-s) as nat);
        let y = pow2(t as nat);
        assert(a * y < b * (x * y) <==> a < b * x) by (nonlinear_arith)
            requires y > 0;
    } else {
        lemma_pow2_adds((-t) as nat, e);
        assert(((-t) as nat) + e == (-s) as nat);
        let x = pow2((-t) as nat);
        let y = pow2(e);
        assert(b * (x * y) == b * x * y) by (nonlinear_arith);
    }
}

proof fn lemma_below_by_length(a: nat, b: nat, la: nat, lb: nat, s: int)
    requires
        la > 0,
        lb > 0,
        pow2((la - 1) as nat) <= a < pow2(la),
        pow2((lb - 1) as nat) <= b < pow2(lb),
    ensures
        s <= lb - la - 1 ==> below(a, b, s),
        s >= lb - la + 1 ==> !below(a, b, s),
{
    if s >= 0 {
        let x = pow2(s as nat);
        lemma_pow2_pos(s as nat);
        if s <= lb - la - 1 {
            lemma_pow2_adds(la, s as nat);
            lemma_pow2_increases(la + s as nat, (lb - 1) as nat);
            assert(a * x < pow2(la) * x) by (nonlinear_arith)
                requires a < pow2(la), x > 0;
        }
        if s >= lb - la + 1 {
            lemma_pow2_adds((la - 1) as nat, s as nat);
            lemma_pow2_increases(lb, (la - 1 + s) as nat);
            assert(a * x >= pow2((la - 1) as nat) * x) by (nonlinear_arith)
                requires a >= pow2((la - 1) as nat), x > 0;
        }
    } else {
        let n = (-s) as nat;
        let x = pow2(n);
        lemma_pow2_pos(n);
        if s <= lb - la - 1 {
            lemma_pow2_adds((lb - 1) as nat, n);
            lemma_pow2_increases(la, (lb - 1 + n) as nat);
            assert(b * x >= pow2((lb - 1) as nat) * x) by (nonlinear_arith)
                requires b >= pow2((lb - 1) as nat), x > 0;
        }
        if s >= lb - la + 1 {
            lemma_pow2_adds(lb, n);
            lemma_pow2_increases(lb + n, (la - 1) as nat);
            assert(b * x < pow2(lb) * x) by (nonlinear_arith)
                requires b < pow2(lb), x > 0;
        }
    }
}

pub proof fn lemma_pow2_increases(e: nat, f: nat)
    requires
        e <= f,
    ensures
        pow2(e) <= pow2(f),
{
    if e < f {
        vstd::arithmetic::power2::lemma_pow2_strictly_increases(e, f);
    }
}

/// Two to the power `e`.
pub(crate) fn power_of_two(e: u32) -> (p: u128)
    requires
        e < 128,
    ensures
        p == pow2(e as nat),
{
    let mut p: u128 = 1;
    let mut i: u32 = 0;
    assert(pow2(0) == 1) by {
        vstd::arithmetic::power2::lemma2_to64();
    }
    while i < e
        invariant
            i <= e < 128,
            p == pow2(i as nat),
        decreases e - i,
    {
        proof {
            lemma_pow2_unfold((i + 1) as nat);
            lemma_pow2_increases((i + 1) as nat, 127);
            lemma_pow2_127();
        }
        p = p * 2;
        i = i + 1;
    }
    p
}

proof fn lemma_pow2_127()
    ensures
        pow2(100) == 0x10_0000_0000_0000_0000_0000_0000,
        pow2(127) == 0x8000_0000_0000_0000_0000_0000_0000_0000,
{
    vstd::arithmetic::power2::lemma2_to64();
    vstd::arithmetic::power2::lemma2_to64_rest();
    lemma_pow2_adds(50, 50);
    lemma_pow2_adds(63, 64);
}

/// Number of binary digits of `a`.
fn bit_length(a: u128) -> (n: u32)
    requires
        0 < a < 0x8000_0000_0000_0000_0000_0000_0000_0000,
    ensures
        1 <= n <= 127,
        pow2((n - 1) as nat) <= a < pow2(n as nat),
{
    let mut n: u32 = 1;
    let mut p: u128 = 2;
    proof {
        vstd::arithmetic::power2::lemma2_to64();
        lemma_pow2_127();
    }
    while p <= a
        invariant
            1 <= n < 127,
            p == pow2(n as nat),
            pow2((n - 1) as nat) <= a,
            a < 0x8000_0000_0000_0000_0000_0000_0000_0000 == pow2(127),
        ensures
            1 <= n <= 127,
            pow2((n - 1) as nat) <= a < pow2(n as nat),
        decreases 127 - n,
    {
        proof {
            lemma_pow2_unfold((n + 1) as nat);
            lemma_pow2_increases((n + 1) as nat, 127);
        }
        if n == 126 {
            return 127;
        }
        p = p * 2;
        n = n + 1;
    }
    n
}

proof fn lemma_nearest_even_cancels(a: nat, b: nat, t: int, q: nat)
    requires
        b > 0,
    ensures
        t - q >= 0 ==> nearest_even(numerator(a, t), denominator(b, t) * pow2(q)) == nearest_even(
            a * pow2((t - q) as nat),
            b,
        ),
        t - q < 0 ==> nearest_even(numerator(a, t), denominator(b, t) * pow2(q)) == nearest_even(
            a,
            b * pow2((q - t) as nat),
        ),
{
    let s = t - q;
    if s >= 0 {
        lemma_pow2_adds(s as nat, q);
        lemma_pow2_pos(q);
        let x = pow2(s as nat);
        let y = pow2(q);
        assert(a * (x * y) == a * x * y) by (nonlinear_arith);
        lemma_nearest_even_scaled(a * x, b, y);
    } else if t >= 0 {
        lemma_pow2_adds((-s) as nat, t as nat);
        lemma_pow2_pos(t as nat);
        lemma_pow2_pos((-s) as nat);
        let x = pow2((-s) as nat);
        let y = pow2(t as nat);
        assert(b * (x * y) == b * x * y) by (nonlinear_arith);
        assert(b * x > 0) by (nonlinear_arith)
            requires b > 0, x > 0;
        lemma_nearest_even_scaled(a, b * x, y);
    } else {
        lemma_pow2_adds((-t) as nat, q);
        let x = pow2((-t) as nat);
        let y = pow2(q);
        assert(b * (x * y) == b * x * y) by (nonlinear_arith);
    }
}

/// `num / den` rounded to the nearest whole number, ties to the even one.
fn divide_to_nearest(num: u128, den: u128) -> (m: u128)
    requires
        0 < den < 0x4000_0000_0000_0000_0000_0000_0000_0000,
        num < 0x4000_0000_0000_0000_0000_0000_0000_0000,
    ensures
        m == nearest_even(num as nat, den as nat),
{
    let quotient = num / den;
    let twice_rest = 2 * (num % den);
    if twice_rest < den || (twice_rest == den && quotient % 2 == 0) {
        quotient
    } else {
        quotient + 1
    }
}

/// Rounds `a / b`, scaled by two to the power `t`, to a magnitude encoding.
pub fn round_scaled(a: u128, b: u128, t: i32) -> (encoding: u32)
    requires
        a < 0x10_0000_0000_0000_0000_0000_0000,
        0 < b < 0x100_0000,
        -2000 <= t <= 2000,
    ensures
        encoding == rounded_scaled(a as nat, b as nat, t as int),
        encoding <= INFINITE,
{
    proof {
        reveal(rounded);
    }
    let ghost num = numerator(a as nat, t as int);
    let ghost den = denominator(b as nat, t as int);
    proof {
        vstd::arithmetic::power2::lemma2_to64();
        lemma_pow2_127();
        if t < 0 {
            lemma_pow2_pos((-t) as nat);
            assert(b * pow2((-t) as nat) > 0) by (nonlinear_arith)
                requires b > 0, pow2((-t) as nat) > 0;
        }
    }
    if a == 0 {
        proof {
            assert(num == 0) by {
                vstd::arithmetic::mul::lemma_mul_basics(pow2(t as nat) as int);
            }
            assert(den * pow2(24) > 0) by (nonlinear_arith)
                requires den > 0, pow2(24) > 0;
            lemma_last_place_is(num, den, 0);
            assert(nearest_even(0, den * pow2(0)) == 0) by {
                assert(0nat / den == 0 && 0nat % den == 0) by (nonlinear_arith)
                    requires den > 0;
            }
        }
        return 0;
    }
    let la = bit_length(a);
    let lb = bit_length(b);
    proof {
        if la > 100 {
            lemma_pow2_increases(100, (la - 1) as nat);
        }
        if lb > 24 {
            lemma_pow2_increases(24, (lb - 1) as nat);
        }
        lemma_pow2_adds(la as nat, 0);
    }
    let guess: i32 = la as i32 - lb as i32 + t - 24;
    let q: i32 = if guess < 0 {
        proof {
            lemma_below_by_length(a as nat, b as nat, la as nat, lb as nat, t - 24);
            lemma_below_scaled(a as nat, b as nat, t as int, 24);
        }
        0
    } else {
        proof {
            lemma_below_by_length(a as nat, b as nat, la as nat, lb as nat, t - (25 + guess));
            lemma_below_scaled(a as nat, b as nat, t as int, (25 + guess) as nat);
            lemma_below_by_length(a as nat, b as nat, la as nat, lb as nat, t - (23 + guess));
            lemma_below_scaled(a as nat, b as nat, t as int, (23 + guess) as nat);
            lemma_below_scaled(a as nat, b as nat, t as int, (24 + guess) as nat);
        }
        let fits = if lb >= la {
            proof {
                lemma_shift_fits(a as nat, la as nat, (lb - la) as nat, 24);
            }
            a * power_of_two(lb - la) < b
        } else {
            proof {
                lemma_shift_fits(b as nat, lb as nat, (la - lb) as nat, 100);
            }
            a < b * power_of_two(la - lb)
        };
        if fits {
            guess
        } else {
            guess + 1
        }
    };
    assert(last_place(num, den) == q) by {
        lemma_last_place_is(num, den, q as nat);
    }
    let shift: i32 = t - q;
    proof {
        lemma_nearest_even_cancels(a as nat, b as nat, t as int, q as nat);
        lemma_below_scaled(a as nat, b as nat, t as int, (24 + q) as nat);
    }
    let m: u128 = if shift >= 0 {
        proof {
            lemma_small_numerator(a as nat, b as nat, shift as nat);
            lemma_pow2_increases(shift as nat, 127);
        }
        let scale = power_of_two(shift as u32);
        divide_to_nearest(a * scale, b)
    } else if shift < -100 {
        proof {
            if q > 0 {
                lemma_below_scaled(a as nat, b as nat, t as int, (23 + q) as nat);
                lemma_tiny_is_below(a as nat, b as nat, shift as int);
            }
            lemma_pow2_increases(101, (-shift) as nat);
            lemma_pow2_unfold(101);
            let d = b as nat * pow2((-shift) as nat);
            assert(d >= pow2(101)) by (nonlinear_arith)
                requires
                    d == b as nat * pow2((-shift) as nat),
                    b > 0,
                    pow2((-shift) as nat) >= pow2(101),
            ;
            vstd::arithmetic::div_mod::lemma_fundamental_div_mod_converse(
                a as int,
                d as int,
                0,
                a as int,
            );
        }
        0
    } else {
        proof {
            lemma_shift_fits(b as nat, 24, (-shift) as nat, 124);
            lemma_pow2_increases(124, 125);
            lemma_pow2_pos((-shift) as nat);
            assert(b * pow2((-shift) as nat) > 0) by (nonlinear_arith)
                requires b > 0, pow2((-shift) as nat) > 0;
        }
        divide_to_nearest(a, b * power_of_two((-shift) as u32))
    };
    let encoding: u128 = q as u128 * 0x80_0000 + m;
    if encoding < INFINITE as u128 {
        encoding as u32
    } else {
        INFINITE
    }
}

pub(crate) proof fn lemma_shift_fits(x: nat, l: nat, s: nat, bound: nat)
    requires
        x < pow2(l),
        l + s <= bound <= 124,
    ensures
        x * pow2(s) < 0x1000_0000_0000_0000_0000_0000_0000_0000,
        x * pow2(s) < pow2(bound),
{
    lemma_pow2_adds(l, s);
    lemma_pow2_pos(s);
    assert(x * pow2(s) < pow2(l) * pow2(s)) by (nonlinear_arith)
        requires x < pow2(l), pow2(s) > 0;
    lemma_pow2_increases(l + s, bound);
    lemma_pow2_increases(bound, 124);
    lemma_pow2_127();
    lemma_pow2_adds(124, 3);
    vstd::arithmetic::power2::lemma2_to64();
}

proof fn lemma_small_numerator(a: nat, b: nat, s: nat)
    requires
        below(a, b, s - 24),
        0 < a,
        b < 0x100_0000,
    ensures
        a * pow2(s) < 0x1_0000_0000_0000,
        s < 127,
{
    vstd::arithmetic::power2::lemma2_to64();
    vstd::arithmetic::power2::lemma2_to64_rest();
    if s >= 24 {
        lemma_pow2_adds((s - 24) as nat, 24);
        let x = pow2((s - 24) as nat);
        assert(a * (x * 0x100_0000) < b * 0x100_0000) by (nonlinear_arith)
            requires a * x < b;
    } else {
        lemma_pow2_adds((24 - s) as nat, s);
        let x = pow2((24 - s) as nat);
        let y = pow2(s);
        lemma_pow2_pos(s);
        assert(a * y < b * (x * y)) by (nonlinear_arith)
            requires a < b * x, y > 0;
    }
    if s >= 127 {
        lemma_pow2_increases(127, s);
        lemma_pow2_127();
        assert(a * pow2(s) >= pow2(s)) by (nonlinear_arith)
            requires a > 0;
    }
}

proof fn lemma_tiny_is_below(a: nat, b: nat, shift: int)
    requires
        shift < -100,
        0 < b,
        a < 0x10_0000_0000_0000_0000_0000_0000,
    ensures
        below(a, b, shift - 23),
{
    let n = (23 - shift) as nat;
    lemma_pow2_increases(101, n);
    lemma_pow2_127();
    lemma_pow2_unfold(101);
    assert(b * pow2(n) >= pow2(n)) by (nonlinear_arith)
        requires b > 0;
}

pub(crate) proof fn lemma_root_place_is(n: nat, k: nat, q: nat)
    requires
        n == k * pow2(2 * q),
        q > 0 ==> k >= 0x4000_0000_0000,
        k < 0x1_0000_0000_0000,
    ensures
        root_place(n) == q,
    decreases q,
{
    vstd::arithmetic::power2::lemma2_to64();
    if q > 0 {
        let c = pow2((2 * q - 2) as nat);
        lemma_pow2_adds((2 * q - 2) as nat, 2);
        lemma_pow2_pos((2 * q - 2) as nat);
        assert(n == 4 * (k * c)) by (nonlinear_arith)
            requires n == k * pow2(2 * q), pow2(2 * q) == c * 4;
        assert(n >= 0x1_0000_0000_0000) by (nonlinear_arith)
            requires n == 4 * (k * c), k >= 0x4000_0000_0000, c > 0;
        assert(2 * (q - 1) == 2 * q - 2);
        lemma_root_place_is(n / 4, k, (q - 1) as nat);
    } else {
        assert(k * pow2(0) == k) by (nonlinear_arith)
            requires pow2(0) == 1;
    }
}

pub(crate) proof fn lemma_nearest_root_unique(n: nat, q: nat, a: nat, b: nat)
    requires
        nearest_root(n, q, a),
        nearest_root(n, q, b),
    ensures
        a <= b,
{
    if a > b {
        let x = 2 * a - 1;
        let y = 2 * b + 1;
        let s = pow2(2 * q);
        lemma_pow2_pos(2 * q);
        assert(x * x >= y * y) by (nonlinear_arith)
            requires x >= y >= 0;
        assert(x * x * s >= y * y * s) by (nonlinear_arith)
            requires x * x >= y * y, s > 0;
    }
}

/// Largest number whose square is at most `k`.
fn floor_root(k: u64) -> (s: u64)
    requires
        k < 0x1_0000_0000_0000,
    ensures
        s < 0x100_0000,
        s * s <= k < (s + 1) * (s + 1),
{
    let mut low: u64 = 0;
    let mut high: u64 = 0x100_0000;
    while high - low > 1
        invariant
            low < high <= 0x100_0000,
            low * low <= k < high * high,
        decreases high - low,
    {
        let mid = (low + high) / 2;
        assert(mid * mid <= 0x1_0000_0000_0000) by (nonlinear_arith)
            requires mid <= 0x100_0000;
        if mid * mid <= k {
            low = mid;
        } else {
            high = mid;
        }
    }
    low
}

/// Rounds the square root of `m` scaled by two to the power `e`.
pub fn round_root(m: u32, e: u32) -> (encoding: u32)
    requires
        0 < m < 0x100_0000,
        149 <= e <= 402,
    ensures
        encoding == rounded_root(m as nat * pow2(e as nat)),
        encoding < INFINITE,
{
    let l = bit_length(m as u128);
    proof {
        vstd::arithmetic::power2::lemma2_to64();
        vstd::arithmetic::power2::lemma2_to64_rest();
        if l > 24 {
            lemma_pow2_increases(24, (l - 1) as nat);
        }
    }
    let q: u32 = (l + e - 47) / 2;
    let shift: u32 = e - 2 * q;
    let scale = power_of_two(shift);
    let ghost n = m as nat * pow2(e as nat);
    proof {
        // The scaled significand has 47 or 48 binary digits.
        lemma_pow2_adds((l - 1) as nat, shift as nat);
        lemma_pow2_adds(l as nat, shift as nat);
        lemma_pow2_pos(shift as nat);
        lemma_pow2_increases(46, (l - 1 + shift) as nat);
        lemma_pow2_increases((l + shift) as nat, 48);
        assert(m * scale >= pow2((l - 1) as nat) * scale) by (nonlinear_arith)
            requires m >= pow2((l - 1) as nat);
        assert(m * scale < pow2(l as nat) * scale) by (nonlinear_arith)
            requires m < pow2(l as nat), scale > 0;
        lemma_pow2_adds(shift as nat, (2 * q) as nat);
        assert(n == (m * scale) as nat * pow2((2 * q) as nat)) by (nonlinear_arith)
            requires n == m * pow2(e as nat), pow2(e as nat) == scale * pow2((2 * q) as nat);
    }
    let k: u64 = (m as u128 * scale) as u64;
    proof {
        lemma_root_place_is(n, k as nat, q as nat);
    }
    let s = floor_root(k);
    assert(s * s < 0x1_0000_0000_0000) by (nonlinear_arith)
        requires s < 0x100_0000;
    let r: u64 = if k - s * s > s {
        s + 1
    } else {
        s
    };
    proof {
        let f = pow2((2 * q) as nat);
        lemma_pow2_pos((2 * q) as nat);
        let x = 2 * r - 1;
        let y = 2 * r + 1;
        assert(x * x < 4 * k < y * y) by {
            if r == s {
                assert(x * x < 4 * k < y * y) by (nonlinear_arith)
                    requires
                        s * s <= k <= s * s + s,
                        x == 2 * s - 1,
                        y == 2 * s + 1,
                        k >= 0x4000_0000_0000,
                        s >= 0,
                        s > 0 || k == 0,
                ;
            } else {
                assert(x * x < 4 * k < y * y) by (nonlinear_arith)
                    requires
                        s * s + s < k < (s + 1) * (s + 1),
                        x == 2 * s + 1,
                        y == 2 * s + 3,
                ;
            }
        }
        assert(x * x * f < 4 * (k * f) < y * y * f) by (nonlinear_arith)
            requires x * x < 4 * k < y * y, f > 0;
        assert(nearest_root(n, q as nat, r as nat));
        let c = choose|c: nat| nearest_root(n, q as nat, c);
        lemma_nearest_root_unique(n, q as nat, r as nat, c);
        lemma_nearest_root_unique(n, q as nat, c, r as nat);
    }
    (q as u64 * 0x80_0000 + r) as u32
}

pub(crate) proof fn lemma_last_place_bounds(a: nat, b: nat)
    requires
        b > 0,
    ensures
        a < b * pow2(24 + last_place(a, b)),
        last_place(a, b) > 0 ==> a >= b * pow2((23 + last_place(a, b)) as nat),
    decreases a - b,
{
    vstd::arithmetic::power2::lemma2_to64();
    if a < 0x100_0000 * b {
        assert(b * pow2(24) == 0x100_0000 * b) by (nonlinear_arith)
            requires pow2(24) == 0x100_0000;
    } else {
        lemma_last_place_bounds(a, 2 * b);
        let q = last_place(a, 2 * b);
        lemma_pow2_adds(1, 24 + q);
        assert((2 * b) * pow2(24 + q) == b * pow2(25 + q)) by (nonlinear_arith)
            requires pow2(25 + q) == 2 * pow2(24 + q);
        if q > 0 {
            lemma_pow2_adds(1, 23 + q);
            assert((2 * b) * pow2(23 + q) == b * pow2(24 + q)) by (nonlinear_arith)
                requires pow2(24 + q) == 2 * pow2(23 + q);
        } else {
            assert(b * pow2(24) == 0x100_0000 * b) by (nonlinear_arith)
                requires pow2(24) == 0x100_0000;
        }
    }
}

proof fn lemma_last_place_monotone(a: nat, c: nat, b: nat)
    requires
        b > 0,
        a <= c,
    ensures
        last_place(a, b) <= last_place(c, b),
    decreases c - b,
{
    if c >= 0x100_0000 * b && a >= 0x100_0000 * b {
        lemma_last_place_monotone(a, c, 2 * b);
    }
}

pub(crate) proof fn lemma_nearest_even_monotone(a: nat, c: nat, b: nat)
    requires
        b > 0,
        a <= c,
    ensures
        nearest_even(a, b) <= nearest_even(c, b),
{
    vstd::arithmetic::div_mod::lemma_div_is_ordered(a as int, c as int, b as int);
    vstd::arithmetic::div_mod::lemma_fundamental_div_mod(a as int, b as int);
    vstd::arithmetic::div_mod::lemma_fundamental_div_mod(c as int, b as int);
    if a / b == c / b {
        assert(a % b <= c % b);
    }
}

/// A whole quotient is the nearest whole number to itself.
pub proof fn lemma_nearest_even_exact(k: nat, b: nat)
    requires
        b > 0,
    ensures
        nearest_even(k * b, b) == k,
{
    assert(1 * b == b);
    lemma_nearest_even_scaled(k, 1, b);
}

proof fn lemma_rounded_monotone_over(a: nat, c: nat, b: nat)
    requires
        b > 0,
        a <= c,
    ensures
        rounded(a, b) <= rounded(c, b),
{
    reveal(rounded);
    let p = last_place(a, b);
    let q = last_place(c, b);
    lemma_last_place_monotone(a, c, b);
    lemma_pow2_pos(p);
    lemma_pow2_pos(q);
    vstd::arithmetic::power2::lemma2_to64();
    assert(b * pow2(p) > 0) by (nonlinear_arith)
        requires b > 0, pow2(p) > 0;
    assert(b * pow2(q) > 0) by (nonlinear_arith)
        requires b > 0, pow2(q) > 0;
    if p == q {
        lemma_nearest_even_monotone(a, c, b * pow2(p));
    } else {
        lemma_last_place_bounds(a, b);
        lemma_last_place_bounds(c, b);
        lemma_pow2_adds(24, p);
        lemma_pow2_adds(23, q);
        assert(b * pow2(24 + p) == 0x100_0000 * (b * pow2(p))) by (nonlinear_arith)
            requires pow2(24 + p) == 0x100_0000 * pow2(p);
        assert(b * pow2(23 + q) == 0x80_0000 * (b * pow2(q))) by (nonlinear_arith)
            requires pow2(23 + q) == 0x80_0000 * pow2(q);
        lemma_nearest_even_monotone(a, 0x100_0000 * (b * pow2(p)), b * pow2(p));
        lemma_nearest_even_exact(0x100_0000, b * pow2(p));
        lemma_nearest_even_monotone(0x80_0000 * (b * pow2(q)), c, b * pow2(q));
        lemma_nearest_even_exact(0x80_0000, b * pow2(q));
    }
}

/// Rounding keeps the order of magnitudes.
pub proof fn lemma_rounded_monotone(a: nat, b: nat, c: nat, d: nat)
    requires
        b > 0,
        d > 0,
        a * d <= c * b,
    ensures
        rounded(a, b) <= rounded(c, d),
{
    lemma_rounded_scaled(a, b, d);
    lemma_rounded_scaled(c, d, b);
    assert(b * d > 0 && d * b == b * d) by (nonlinear_arith)
        requires b > 0, d > 0;
    lemma_rounded_monotone_over(a * d, c * b, b * d);
}

/// Rounding changes no magnitude that has an encoding.
pub proof fn lemma_rounded_exact(q: nat, m: nat)
    requires
        m < 0x100_0000,
        q > 0 ==> m >= 0x80_0000,
        q * 0x80_0000 + m < INFINITE,
    ensures
        rounded(m * pow2(q), 1) == q * 0x80_0000 + m,
{
    reveal(rounded);
    vstd::arithmetic::power2::lemma2_to64();
    lemma_pow2_pos(q);
    lemma_pow2_adds(24, q);
    lemma_pow2_adds(23, q);
    assert(m * pow2(q) < 0x100_0000 * pow2(q)) by (nonlinear_arith)
        requires m < 0x100_0000, pow2(q) > 0;
    assert(m >= 0x80_0000 ==> m * pow2(q) >= 0x80_0000 * pow2(q)) by (nonlinear_arith);
    assert(1 * pow2(24 + q) == pow2(24 + q) && 1 * pow2(q) == pow2(q));
    if q > 0 {
        assert(1 * pow2((23 + q) as nat) == pow2((23 + q) as nat));
    }
    lemma_last_place_is(m * pow2(q), 1, q);
    lemma_nearest_even_exact(m, pow2(q));
}

/// The nearest whole number is off by at most one half, and where it is off by one half
/// it is even.
pub proof fn lemma_nearest_even_nearest(a: nat, b: nat)
    requires
        b > 0,
    ensures
        ({
            let m = nearest_even(a, b);
            &&& 2 * a <= (2 * m + 1) * b
            &&& (2 * m - 1) * b <= 2 * a
            &&& 2 * a == (2 * m + 1) * b || 2 * a == (2 * m - 1) * b ==> m % 2 == 0
        }),
{
    let q = a / b;
    let r = a % b;
    let m = nearest_even(a, b);
    vstd::arithmetic::div_mod::lemma_fundamental_div_mod(a as int, b as int);
    let t = q * b;
    assert(b * q == t) by (nonlinear_arith)
        requires t == q * b;
    assert((2 * q + 1) * b == 2 * t + b && (2 * q - 1) * b == 2 * t - b && (2 * (q + 1) + 1) * b
        == 2 * t + 3 * b && (2 * (q + 1) - 1) * b == 2 * t + b) by (nonlinear_arith)
        requires t == q * b;
}

}
