//! Single-precision floating-point numbers, taken apart as bit patterns and
//! turned into the nearest quantity. Nothing here computes in floating point:
//! a finite number is a whole significand times a power of two, and its
//! decimal form is found in whole numbers.

use crate::power::{lemma_pow10_unfold, pow10, power_of_two};
use crate::quantity::Quantity;
use crate::ratio::{lemma_equal_ratios, nearest, round_binary, round_whole, Rounding};
use vstd::arithmetic::power::*;
use vstd::arithmetic::power2::*;
use vstd::prelude::*;

verus! {

/// The fraction field of a bit pattern: its low twenty-three bits.
pub open spec fn f32_fraction(bits: u32) -> nat {
    (bits % 0x80_0000) as nat
}

/// The exponent field of a bit pattern: the eight bits above the fraction.
pub open spec fn f32_exponent_field(bits: u32) -> nat {
    ((bits / 0x80_0000) % 0x100) as nat
}

/// Whether the bit pattern is a finite number, and not an infinity or a NaN.
pub open spec fn f32_is_finite(bits: u32) -> bool {
    f32_exponent_field(bits) != 255
}

/// The significand of a finite number: the fraction, with the hidden bit
/// added unless the number is subnormal.
pub open spec fn f32_significand(bits: u32) -> nat {
    if f32_exponent_field(bits) == 0 {
        f32_fraction(bits)
    } else {
        f32_fraction(bits) + 0x80_0000
    }
}

/// The power of two that scales the significand.
pub open spec fn f32_binary_exponent(bits: u32) -> int {
    if f32_exponent_field(bits) == 0 {
        -149
    } else {
        f32_exponent_field(bits) - 150
    }
}

/// The numerator of the magnitude of a finite number, written as a ratio of
/// whole numbers.
pub open spec fn f32_numerator(bits: u32) -> nat {
    if f32_binary_exponent(bits) >= 0 {
        f32_significand(bits) * pow2(f32_binary_exponent(bits) as nat)
    } else {
        f32_significand(bits)
    }
}

/// The denominator of that ratio.
pub open spec fn f32_denominator(bits: u32) -> nat {
    if f32_binary_exponent(bits) >= 0 {
        1
    } else {
        pow2((-f32_binary_exponent(bits)) as nat)
    }
}

/// The quantity nearest to the magnitude of a finite number. The sign is left
/// aside: a negative number gives what its absolute value gives.
pub open spec fn f32_quantity(bits: u32) -> Quantity {
    nearest(f32_numerator(bits), f32_denominator(bits))
}

/// Powers of two and of five that bound the scaling of a fraction.
proof fn lemma_scaling_bounds()
    ensures
        pow2(104) == 20282409603651670423947251286016,
        pow2(105) == 40564819207303340847894502572032,
        pow2(108) == 324518553658426726783156020576256,
        pow2(109) == 649037107316853453566312041152512,
        pow(5, 43) == 1136868377216160297393798828125,
{
    lemma2_to64();
    lemma2_to64_rest();
    lemma_pow2_adds(64, 40);
    let a: nat = pow2(64);
    let b: nat = pow2(40);
    assert(a * b == 20282409603651670423947251286016) by (nonlinear_arith)
        requires
            a == 0x1_0000_0000_0000_0000,
            b == 0x100_0000_0000,
    ;
    lemma_pow2_unfold(105);
    lemma_pow2_unfold(106);
    lemma_pow2_unfold(107);
    lemma_pow2_unfold(108);
    lemma_pow2_unfold(109);
    lemma_pow1(5);
    lemma_power_product(5, 1, 1, 5, 5);
    lemma_power_product(5, 2, 2, 25, 25);
    lemma_power_product(5, 4, 4, 625, 625);
    lemma_power_product(5, 8, 2, 390625, 25);
    lemma_power_product(5, 10, 1, 9765625, 5);
    lemma_power_product(5, 11, 10, 48828125, 9765625);
    lemma_power_product(5, 11, 11, 48828125, 48828125);
    lemma_power_product(5, 22, 21, 2384185791015625, 476837158203125);
}

/// The power of a sum of exponents, from the two powers.
proof fn lemma_power_product(base: int, e1: nat, e2: nat, v1: int, v2: int)
    requires
        pow(base, e1) == v1,
        pow(base, e2) == v2,
    ensures
        pow(base, e1 + e2) == v1 * v2,
{
    lemma_pow_adds(base, e1, e2);
}

/// Tells whether `x / 2^halves` is below a million.
fn under_million(x: u128, halves: u32) -> (under: bool)
    requires
        halves <= 149,
    ensures
        under == (x < 1_000_000 * pow2(halves as nat)),
{
    proof {
        lemma_scaling_bounds();
    }
    if halves >= 109 {
        proof {
            if halves > 109 {
                lemma_pow2_strictly_increases(109, halves as nat);
            }
        }
        true
    } else {
        proof {
            if halves < 108 {
                lemma_pow2_strictly_increases(halves as nat, 108);
            }
        }
        x < 1_000_000 * power_of_two(halves)
    }
}

/// Rounds `significand / 2^halves` to a mantissa in millionths. The ratio is
/// multiplied by ten, as five over a half, until it reaches a million; what is
/// left of the halves is then rounded away.
pub fn round_fraction(significand: u32, halves: u32) -> (rounding: Rounding)
    requires
        0 < significand < 0x100_0000,
        1 <= halves <= 149,
    ensures
        rounding.rounds(significand as nat, pow2(halves as nat)),
        -1_000 <= rounding.exponent <= 38,
{
    let mut x: u128 = significand as u128;
    let mut left: u32 = halves;
    proof {
        lemma_scaling_bounds();
        lemma_pow0(5);
        lemma2_to64();
        lemma_pow2_pos(halves as nat);
        if halves > 1 {
            lemma_pow2_strictly_increases(1, halves as nat);
        }
    }
    while left > 0 && under_million(x, left)
        invariant
            0 < significand < 0x100_0000,
            1 <= halves <= 149,
            left <= halves,
            x == significand * pow(5, (halves - left) as nat),
            1 <= x < 10_000_000 * pow2(left as nat),
        decreases left,
    {
        proof {
            let done: nat = (halves - left) as nat;
            lemma_scaling_bounds();
            reveal(pow);
            assert(pow(5, done + 1) == 5 * pow(5, done));
            lemma_pow_positive(5, done);
            lemma_pow2_unfold(left as nat);
            let p: int = pow(5, done);
            let sig: int = significand as int;
            assert(sig * (5 * p) == 5 * (sig * p)) by (nonlinear_arith);
            if left >= 106 {
                lemma_pow_increases(5, done, 43);
                assert(sig * p <= 0xFF_FFFF * 1136868377216160297393798828125) by (nonlinear_arith)
                    requires
                        0 < sig <= 0xFF_FFFF,
                        0 < p <= 1136868377216160297393798828125,
                ;
            } else {
                lemma_pow2_pos(left as nat);
                if left < 105 {
                    lemma_pow2_strictly_increases(left as nat, 105);
                }
            }
        }
        x = x * 5;
        left = left - 1;
    }
    let tenths: u32 = halves - left;
    let ghost sig: nat = significand as nat;
    let ghost den: nat = pow2(halves as nat);
    proof {
        // significand * 10^tenths == x * 2^tenths.
        lemma_pow_distributes(5, 2, tenths as nat);
        lemma_pow_positive(5, tenths as nat);
        lemma_pow_positive(2, tenths as nat);
        lemma_pow_positive(10, tenths as nat);
        lemma_pow2_adds(left as nat, tenths as nat);
        lemma_pow2_pos(left as nat);
        lemma_pow2_pos(halves as nat);
        lemma_pow10_unfold(tenths as nat);
    }
    if left == 0 {
        let rounding: Rounding = round_whole(x, tenths);
        proof {
            let five: int = pow(5, tenths as nat);
            let two: int = pow(2, tenths as nat);
            assert(sig * (five * two) == (sig * five) * two) by (nonlinear_arith);
            assert(pow2(0) == 1) by {
                lemma2_to64();
            }
            assert(pow2(halves as nat) == pow2(tenths as nat));
            lemma_equal_ratios(
                sig,
                den,
                x as nat,
                pow10(tenths as nat),
                rounding.exponent as int,
            );
        }
        rounding
    } else {
        proof {
            lemma_scaling_bounds();
            if left > 109 {
                lemma_pow2_strictly_increases(109, left as nat);
            }
        }
        let rounding: Rounding = round_binary(x, left, tenths);
        proof {
            let five: int = pow(5, tenths as nat);
            let two: int = pow(2, tenths as nat);
            let rest: int = pow2(left as nat) as int;
            let s: int = sig as int;
            assert(s * (rest * (five * two)) == (s * five) * (rest * two)) by (nonlinear_arith);
            assert(rest * (five * two) > 0) by (nonlinear_arith)
                requires
                    rest > 0,
                    five > 0,
                    two > 0,
            ;
            lemma_equal_ratios(
                sig,
                den,
                x as nat,
                pow2(left as nat) * pow10(tenths as nat),
                rounding.exponent as int,
            );
        }
        rounding
    }
}

/// Rounds the magnitude of a finite, nonzero number to a mantissa in
/// millionths.
pub fn round_f32(bits: u32) -> (rounding: Rounding)
    requires
        f32_is_finite(bits),
        f32_significand(bits) > 0,
    ensures
        rounding.rounds(f32_numerator(bits), f32_denominator(bits)),
        -1_000 <= rounding.exponent <= 38,
{
    let fraction: u32 = bits % 0x80_0000;
    let field: u32 = (bits / 0x80_0000) % 0x100;
    let significand: u32 = if field == 0 {
        fraction
    } else {
        fraction + 0x80_0000
    };
    if field >= 150 {
        let doublings: u32 = field - 150;
        proof {
            lemma_scaling_bounds();
            if doublings < 104 {
                lemma_pow2_strictly_increases(doublings as nat, 104);
            }
            lemma_pow2_pos(doublings as nat);
            let s: int = significand as int;
            let p: int = pow2(doublings as nat) as int;
            assert(0 < s * p <= 0xFF_FFFF * 20282409603651670423947251286016) by (nonlinear_arith)
                requires
                    0 < s <= 0xFF_FFFF,
                    0 < p <= 20282409603651670423947251286016,
            ;
            lemma_pow10_unfold(0);
        }
        let whole: u128 = significand as u128 * power_of_two(doublings);
        round_whole(whole, 0)
    } else {
        let halves: u32 = if field == 0 {
            149
        } else {
            150 - field
        };
        round_fraction(significand, halves)
    }
}

} // verus!
