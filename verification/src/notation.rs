//! Decimal notation of single-precision numbers.

use crate::rounding::{lemma_nearest_even_scaled, lemma_pow2_increases, nearest_even, power_of_two};
use crate::single::Single;
use crate::text::{decimal, decimal_text, digit, digit_text, prefixed};
use vstd::arithmetic::power2::{lemma_pow2_adds, lemma_pow2_pos, pow2};
use vstd::prelude::*;
use vstd::string::*;

verus! {

/// The absolute value of a finite number in hundredths, rounded to the nearest,
/// ties to even.
#[verifier::opaque]
pub open spec fn hundredths(x: Single) -> nat {
    nearest_even(100 * x.units(), pow2(149))
}

/// The text of a number with two digits behind the point.
pub open spec fn two_decimals(x: Single) -> Seq<char> {
    let sign = if x.negative() {
        "-"@
    } else {
        ""@
    };
    let h = hundredths(x);
    if x.nan() {
        "NaN"@
    } else if x.infinite() {
        sign + "inf"@
    } else {
        sign + (decimal(h / 100) + "."@ + seq![digit(h / 10 % 10)] + seq![digit(h % 10)])
    }
}

/// Whole part and hundredths of the absolute value of a finite number.
fn split_hundredths(x: Single) -> (r: (u128, u128))
    requires
        x.finite(),
    ensures
        r.1 < 100,
        r.0 * 100 + r.1 == hundredths(x),
{
    let (m, p) = x.decode();
    let ghost unit = pow2(p as nat);
    proof {
        reveal(hundredths);
        lemma_pow2_pos(p as nat);
        vstd::arithmetic::power2::lemma2_to64();
    }
    if p >= 149 {
        let scale = power_of_two(p - 149);
        proof {
            lemma_pow2_adds((p - 149) as nat, 149);
            lemma_pow2_pos(149);
            lemma_pow2_pos((p - 149) as nat);
            lemma_pow2_increases((p - 149) as nat, 104);
            lemma_pow2_adds(24, 104);
            lemma_pow2_adds(64, 64);
            assert(m * scale < 0x100_0000 * pow2(104)) by (nonlinear_arith)
                requires m < 0x100_0000, 0 < scale <= pow2(104);
            let k = (100 * (m * scale)) as nat;
            assert(100 * x.units() == k * pow2(149)) by (nonlinear_arith)
                requires
                    x.units() == m * unit,
                    unit == scale * pow2(149),
                    k == 100 * (m * scale),
            ;
            assert(pow2(149) == 1 * pow2(149));
            lemma_nearest_even_scaled(k, 1, pow2(149));
        }
        (m as u128 * scale, 0)
    } else {
        let s = 149 - p;
        let a: u128 = 100 * m as u128;
        proof {
            lemma_pow2_adds(s as nat, p as nat);
            lemma_pow2_pos(s as nat);
            assert(100 * x.units() == a * unit) by (nonlinear_arith)
                requires x.units() == m * unit, a == 100 * m;
            lemma_nearest_even_scaled(a as nat, pow2(s as nat), unit);
        }
        if s >= 64 {
            proof {
                lemma_pow2_increases(64, s as nat);
                vstd::arithmetic::div_mod::lemma_basic_div(a as int, pow2(s as nat) as int);
                vstd::arithmetic::div_mod::lemma_small_mod(a as nat, pow2(s as nat));
            }
            return (0, 0);
        }
        let b = power_of_two(s);
        proof {
            lemma_pow2_increases(s as nat, 64);
        }
        let quotient = a / b;
        let twice_rest = 2 * (a % b);
        let h = if twice_rest < b || (twice_rest == b && quotient % 2 == 0) {
            quotient
        } else {
            quotient + 1
        };
        (h / 100, h % 100)
    }
}

/// The text of a number with two digits behind the point.
pub fn to_two_decimals(x: Single) -> (text: String)
    ensures
        text@ == two_decimals(x),
{
    if x.is_nan() {
        return "NaN".to_owned();
    }
    let sign = if x.sign() {
        "-"
    } else {
        ""
    };
    if x.is_infinite() {
        return prefixed(sign, "inf");
    }
    let (whole, rest) = split_hundredths(x);
    let mut text = decimal_text(whole);
    text.append(".");
    text.append(digit_text(rest / 10));
    text.append(digit_text(rest % 10));
    proof {
        let h = hundredths(x);
        assert(h / 100 == whole && h % 100 == rest);
        assert(h / 10 % 10 == rest / 10 && h % 10 == rest % 10);
    }
    prefixed(sign, text.as_str())
}

}
