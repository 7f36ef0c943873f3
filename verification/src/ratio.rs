//! The quantity nearest to a ratio of two whole numbers.

use crate::power::{
    lemma_pow10_38, lemma_pow10_adds, lemma_pow10_increases, lemma_pow10_small,
    lemma_pow10_unfold, lemma_pow2_127, pow10, power_of_ten, power_of_two,
};
use crate::quantity::{Quantity, MANTISSA_ONE, MANTISSA_TEN};
use vstd::arithmetic::div_mod::*;
use vstd::arithmetic::mul::*;
use vstd::arithmetic::power2::*;
use vstd::prelude::*;

verus! {

/// The power of ten above one by which a decade is scaled: `10^e` for a
/// positive `e`, and one otherwise.
pub open spec fn above(e: int) -> nat {
    pow10(
        if e > 0 {
            e as nat
        } else {
            0
        },
    )
}

/// The power of ten by which a decade below one is scaled: `10^-e` for a
/// negative `e`, and one otherwise.
pub open spec fn below(e: int) -> nat {
    pow10(
        if e < 0 {
            (-e) as nat
        } else {
            0
        },
    )
}

/// Whether `num / den` lies in the decade of `e`: at least `10^e` and less
/// than `10^(e+1)`.
pub open spec fn in_decade(num: nat, den: nat, e: int) -> bool {
    den * above(e) <= num * below(e) < 10 * (den * above(e))
}

/// The decade of a positive ratio: the whole part of its decimal logarithm.
pub open spec fn decade(num: nat, den: nat) -> int {
    choose|e: int| in_decade(num, den, e)
}

/// `num / den * 10^(6 - e)`, rounded to the nearest whole number, halves
/// upward: the mantissa of the ratio in millionths, where `e` is its decade.
pub open spec fn rounded_mantissa(num: nat, den: nat, e: int) -> nat {
    (2 * (num * below(e - 6)) + den * above(e - 6)) / (2 * (den * above(e - 6)))
}

/// The quantity nearest to `num / den`: zero for zero, and otherwise the
/// decade of the ratio with the mantissa rounded to millionths. Where the
/// rounding reaches ten, the mantissa is one and the exponent one higher.
pub open spec fn nearest(num: nat, den: nat) -> Quantity {
    if num == 0 {
        Quantity::zero()
    } else {
        let e: int = decade(num, den);
        let mantissa: nat = rounded_mantissa(num, den, e);
        if mantissa >= MANTISSA_TEN {
            Quantity { mantissa: MANTISSA_ONE as nat, exponent: e + 1 }
        } else {
            Quantity { mantissa, exponent: e }
        }
    }
}

/// Two ratios that are equal have equal whole parts.
pub proof fn lemma_equal_ratios_divide(p: int, q: int, r: int, s: int)
    requires
        0 <= p,
        0 < q,
        0 <= r,
        0 < s,
        p * s == r * q,
    ensures
        p / q == r / s,
{
    let k: int = p / q;
    lemma_fundamental_div_mod(p, q);
    lemma_mod_bound(p, q);
    assert(k * q <= p < (k + 1) * q) by (nonlinear_arith)
        requires
            p == q * k + p % q,
            0 <= p % q < q,
    ;
    assert(k * s <= r < (k + 1) * s) by (nonlinear_arith)
        requires
            k * q <= p < (k + 1) * q,
            p * s == r * q,
            0 < q,
            0 < s,
    ;
    assert((k + 1) * s == k * s + s) by (nonlinear_arith);
    lemma_fundamental_div_mod_converse(r, s, k, r - k * s);
}

/// Rounding halves upward, taken apart: the whole part of the quotient, and
/// one more where twice the remainder reaches the divisor.
pub proof fn lemma_round_half_up(n: nat, d: nat)
    requires
        d > 0,
    ensures
        (2 * n + d) / (2 * d) == n / d + if 2 * (n % d) >= d {
            1int
        } else {
            0int
        },
{
    let q: int = (n / d) as int;
    let r: int = (n % d) as int;
    lemma_fundamental_div_mod(n as int, d as int);
    lemma_mod_bound(n as int, d as int);
    let up: int = if 2 * r >= d {
        1
    } else {
        0
    };
    assert(2 * n + d == (q + up) * (2 * d) + (2 * r + d - up * (2 * d))) by (nonlinear_arith)
        requires
            n == d * q + r,
    ;
    assert(up * (2 * d) == if up == 1 {
        2 * d
    } else {
        0
    }) by (nonlinear_arith)
        requires
            up == 0 || up == 1,
    ;
    lemma_fundamental_div_mod_converse(
        (2 * n + d) as int,
        (2 * d) as int,
        q + up,
        2 * r + d - up * (2 * d),
    );
}

/// A positive ratio lies in one decade only.
pub proof fn lemma_decade_unique(num: nat, den: nat, e: int)
    requires
        den > 0,
        in_decade(num, den, e),
    ensures
        decade(num, den) == e,
{
    let other: int = decade(num, den);
    assert(in_decade(num, den, other));
    lemma_decades_ordered(num, den, other, e);
    lemma_decades_ordered(num, den, e, other);
}

/// Of two decades that hold the same ratio, the first is not the lower one.
proof fn lemma_decades_ordered(num: nat, den: nat, low: int, high: int)
    requires
        den > 0,
        in_decade(num, den, low),
        in_decade(num, den, high),
    ensures
        low >= high,
{
    if low >= high {
        return ;
    }
    let a1: nat = if low > 0 {
        low as nat
    } else {
        0
    };
    let b1: nat = if low < 0 {
        (-low) as nat
    } else {
        0
    };
    let a2: nat = if high > 0 {
        high as nat
    } else {
        0
    };
    let b2: nat = if high < 0 {
        (-high) as nat
    } else {
        0
    };
    // num * 10^b1 < den * 10^(a1 + 1), and den * 10^a2 <= num * 10^b2.
    lemma_pow10_unfold(a1);
    lemma_pow10_unfold(b1);
    lemma_pow10_unfold(a2);
    lemma_pow10_unfold(b2);
    lemma_pow10_adds(a1 + 1, b2);
    lemma_pow10_adds(a2, b1);
    lemma_pow10_increases(a1 + 1 + b2, a2 + b1);
    let pa: int = pow10(a1 + 1) as int;
    let pb1: int = pow10(b1) as int;
    let pa2: int = pow10(a2) as int;
    let pb2: int = pow10(b2) as int;
    let n: int = num as int;
    let d: int = den as int;
    assert(n * pb1 < d * pa) by (nonlinear_arith)
        requires
            n * pb1 < 10 * (d * pow10(a1)),
            pa == 10 * pow10(a1),
    ;
    assert(d * pa2 <= n * pb2);
    assert(low >= high) by (nonlinear_arith)
        requires
            n * pb1 < d * pa,
            d * pa2 <= n * pb2,
            pa * pb2 <= pa2 * pb1,
            d > 0,
            pb1 > 0,
            pb2 > 0,
            pa > 0,
            pa2 > 0,
            n >= 0,
    ;
}

/// Equal ratios lie in the same decade and round to the same mantissa.
pub proof fn lemma_equal_ratios(a: nat, b: nat, c: nat, d: nat, e: int)
    requires
        b > 0,
        d > 0,
        a * d == c * b,
    ensures
        in_decade(a, b, e) == in_decade(c, d, e),
        rounded_mantissa(a, b, e) == rounded_mantissa(c, d, e),
{
    let p: int = above(e) as int;
    let q: int = below(e) as int;
    lemma_pow10_unfold(
        if e > 0 {
            e as nat
        } else {
            0
        },
    );
    lemma_pow10_unfold(
        if e < 0 {
            (-e) as nat
        } else {
            0
        },
    );
    let (ai, bi, ci, di): (int, int, int, int) = (a as int, b as int, c as int, d as int);
    assert((bi * p <= ai * q) == (di * p <= ci * q)) by (nonlinear_arith)
        requires
            ai * di == ci * bi,
            bi > 0,
            di > 0,
            p > 0,
            q > 0,
            ai >= 0,
            ci >= 0,
    ;
    assert((ai * q < 10 * (bi * p)) == (ci * q < 10 * (di * p))) by (nonlinear_arith)
        requires
            ai * di == ci * bi,
            bi > 0,
            di > 0,
            p > 0,
            q > 0,
            ai >= 0,
            ci >= 0,
    ;
    let up: int = below(e - 6) as int;
    let down: int = above(e - 6) as int;
    lemma_pow10_unfold(
        if e - 6 > 0 {
            (e - 6) as nat
        } else {
            0
        },
    );
    lemma_pow10_unfold(
        if e - 6 < 0 {
            (6 - e) as nat
        } else {
            0
        },
    );
    let left: int = 2 * (ai * up) + bi * down;
    let right: int = 2 * (ci * up) + di * down;
    assert(left * (2 * (di * down)) == right * (2 * (bi * down))) by (nonlinear_arith)
        requires
            ai * di == ci * bi,
            left == 2 * (ai * up) + bi * down,
            right == 2 * (ci * up) + di * down,
    ;
    assert(0 <= left && 0 <= right && 2 * (bi * down) > 0 && 2 * (di * down) > 0)
        by (nonlinear_arith)
        requires
            left == 2 * (ai * up) + bi * down,
            right == 2 * (ci * up) + di * down,
            ai >= 0,
            ci >= 0,
            bi > 0,
            di > 0,
            up > 0,
            down > 0,
    ;
    lemma_equal_ratios_divide(left, 2 * (bi * down), right, 2 * (di * down));
}

/// A mantissa and an exponent as rounding leaves them: the mantissa may have
/// reached ten.
pub struct Rounding {
    pub mantissa: u32,
    pub exponent: i32,
}

impl Rounding {
    /// Whether this is what rounding `num / den` to millionths gives.
    pub open spec fn rounds(self, num: nat, den: nat) -> bool {
        &&& in_decade(num, den, self.exponent as int)
        &&& self.mantissa == rounded_mantissa(num, den, self.exponent as int)
        &&& MANTISSA_ONE <= self.mantissa <= MANTISSA_TEN
    }
}

/// What rounds a ratio is what is nearest to it.
pub proof fn lemma_rounding_is_nearest(rounding: Rounding, num: nat, den: nat)
    requires
        den > 0,
        rounding.rounds(num, den),
    ensures
        num > 0,
        nearest(num, den) == if rounding.mantissa >= MANTISSA_TEN {
            Quantity { mantissa: MANTISSA_ONE as nat, exponent: rounding.exponent + 1 }
        } else {
            Quantity { mantissa: rounding.mantissa as nat, exponent: rounding.exponent as int }
        },
{
    lemma_decade_unique(num, den, rounding.exponent as int);
    if num == 0 {
        let e: int = rounding.exponent as int;
        lemma_pow10_unfold(
            if e > 0 {
                e as nat
            } else {
                0
            },
        );
        assert(den * above(e) > 0) by (nonlinear_arith)
            requires
                den > 0,
                above(e) > 0,
        ;
        assert(0 * below(e) == 0) by (nonlinear_arith);
    }
}

/// The rounded mantissa of a whole number of `10^-tenths`, whose leading
/// digit stands at `10^order`, written with the powers of ten that a
/// computation uses.
proof fn lemma_rounded_mantissa_whole(n: nat, tenths: nat, order: nat)
    ensures
        rounded_mantissa(n, pow10(tenths), order - tenths) == (2 * (n * above(6 - order)) + above(
            order - 6,
        )) / (2 * above(order - 6)),
{
    let k: int = order - tenths - 6;
    let t: int = pow10(tenths) as int;
    let a: int = above(k) as int;
    let b: int = below(k) as int;
    let u: int = above(6 - order) as int;
    let d: int = above(order - 6) as int;
    let ni: int = n as int;
    lemma_pow10_unfold(tenths);
    lemma_pow10_unfold(0);
    // b * d == u * t * a: both are ten to the same power.
    if order >= 6 {
        let down: nat = (order - 6) as nat;
        lemma_pow10_unfold(down);
        if k >= 0 {
            lemma_pow10_adds(tenths, k as nat);
            lemma_pow10_unfold(k as nat);
        } else {
            lemma_pow10_adds((-k) as nat, down);
            lemma_pow10_unfold((-k) as nat);
        }
    } else {
        let up: nat = (6 - order) as nat;
        lemma_pow10_unfold(up);
        lemma_pow10_adds(up, tenths);
        lemma_pow10_unfold((-k) as nat);
    }
    assert(b * d == u * (t * a)) by (nonlinear_arith)
        requires
            order >= 6 ==> u == 1,
            order >= 6 && k >= 0 ==> b == 1 && d == t * a,
            order >= 6 && k < 0 ==> a == 1 && t == b * d,
            order < 6 ==> d == 1 && a == 1 && b == u * t,
    ;
    let left: int = 2 * (ni * b) + t * a;
    let right: int = 2 * (ni * u) + d;
    assert(left * (2 * d) == right * (2 * (t * a)) && left >= 0 && right >= 0 && 2 * d > 0 && 2
        * (t * a) > 0) by (nonlinear_arith)
        requires
            b * d == u * (t * a),
            left == 2 * (ni * b) + t * a,
            right == 2 * (ni * u) + d,
            ni >= 0,
            t > 0,
            a > 0,
            b > 0,
            u > 0,
            d > 0,
    ;
    lemma_equal_ratios_divide(left, 2 * (t * a), right, 2 * d);
}

/// A whole number of `10^-tenths` lies in the decade of its leading digit.
proof fn lemma_in_decade_whole(n: nat, tenths: nat, order: nat)
    requires
        pow10(order) <= n < pow10(order + 1),
    ensures
        in_decade(n, pow10(tenths), order - tenths),
{
    let e: int = order - tenths;
    let t: int = pow10(tenths) as int;
    let ni: int = n as int;
    lemma_pow10_unfold(order);
    lemma_pow10_unfold(tenths);
    lemma_pow10_unfold(0);
    if e >= 0 {
        lemma_pow10_adds(tenths, e as nat);
        assert(ni * 1 == ni);
    } else {
        lemma_pow10_adds(order, (-e) as nat);
        let f: int = pow10((-e) as nat) as int;
        lemma_pow10_unfold((-e) as nat);
        assert(t * 1 <= ni * f < 10 * (t * 1)) by (nonlinear_arith)
            requires
                pow10(order) <= ni < 10 * pow10(order),
                t == pow10(order) * f,
                f > 0,
        ;
    }
}

/// The power of ten of the leading digit of `n`.
pub fn decimal_order(n: u128) -> (order: u32)
    requires
        n > 0,
    ensures
        order <= 38,
        pow10(order as nat) <= n < pow10(order as nat + 1),
{
    let mut order: u32 = 0;
    proof {
        lemma_pow10_small();
    }
    while order < 38 && n >= power_of_ten(order + 1)
        invariant
            order <= 38,
            pow10(order as nat) <= n,
        decreases 38 - order,
    {
        order = order + 1;
    }
    proof {
        if order == 38 {
            lemma_pow10_38();
            lemma_pow10_unfold(38);
        }
    }
    order
}

/// Rounds `n / 10^tenths` to a mantissa in millionths.
pub fn round_whole(n: u128, tenths: u32) -> (rounding: Rounding)
    requires
        n > 0,
        tenths <= 1_000,
    ensures
        rounding.rounds(n as nat, pow10(tenths as nat)),
        -1_000 <= rounding.exponent <= 38,
{
    let order: u32 = decimal_order(n);
    proof {
        lemma_in_decade_whole(n as nat, tenths as nat, order as nat);
        lemma_rounded_mantissa_whole(n as nat, tenths as nat, order as nat);
        lemma_pow10_small();
        lemma_pow10_38();
        lemma_pow10_unfold(0);
        lemma_pow10_unfold(order as nat);
    }
    let mantissa: u128 = if order <= 6 {
        let up: u128 = power_of_ten(6 - order);
        proof {
            lemma_pow10_adds(order as nat, (6 - order) as nat);
            lemma_pow10_adds(order as nat + 1, (6 - order) as nat);
            lemma_mul_inequality(pow10(order as nat) as int, n as int, up as int);
            lemma_mul_strict_inequality(n as int, pow10(order as nat + 1) as int, up as int);
            assert(pow10(order as nat + 1) * up == 10_000_000) by {
                lemma_pow10_adds(order as nat + 1, (6 - order) as nat);
            }
            assert((2 * (n * up) + 1) / 2 == n * up);
        }
        n * up
    } else {
        let down: u128 = power_of_ten(order - 6);
        proof {
            lemma_pow10_increases((order - 6) as nat, 32);
            lemma_pow10_adds(6, (order - 6) as nat);
            lemma_pow10_adds(7, (order - 6) as nat);
            lemma_round_half_up(n as nat, down as nat);
            lemma_div_is_ordered(1_000_000 * down as int, n as int, down as int);
            lemma_div_multiples_vanish(1_000_000, down as int);
            lemma_multiply_divide_lt(n as int, down as int, 10_000_000);
            assert(n as nat * 1 == n);
            lemma_mod_bound(n as int, down as int);
        }
        let whole: u128 = n / down;
        let rest: u128 = n % down;
        if 2 * rest >= down {
            whole + 1
        } else {
            whole
        }
    };
    Rounding { mantissa: mantissa as u32, exponent: order as i32 - tenths as i32 }
}

/// Rounds `x / (2^halves * 10^tenths)` to a mantissa in millionths, for an
/// `x / 2^halves` that lies between a million and ten million.
pub fn round_binary(x: u128, halves: u32, tenths: u32) -> (rounding: Rounding)
    requires
        halves <= 108,
        tenths <= 1_000,
        1_000_000 * pow2(halves as nat) <= x < 10_000_000 * pow2(halves as nat),
    ensures
        rounding.rounds(x as nat, pow2(halves as nat) * pow10(tenths as nat)),
        -1_000 <= rounding.exponent <= 6,
{
    let unit: u128 = power_of_two(halves);
    let whole: u128 = x / unit;
    let rest: u128 = x % unit;
    proof {
        let p: int = unit as int;
        let t: int = pow10(tenths as nat) as int;
        let xi: int = x as int;
        let e: int = 6 - tenths;
        lemma_pow2_pos(halves as nat);
        lemma_pow10_unfold(tenths as nat);
        lemma_pow10_unfold(0);
        lemma_pow10_small();
        lemma_pow2_127();
        lemma_mod_bound(xi, p);
        if halves < 127 {
            lemma_pow2_strictly_increases(halves as nat, 127);
        }
        // The decade.
        if e >= 0 {
            lemma_pow10_adds(tenths as nat, e as nat);
            assert((p * t) * pow10(e as nat) == 1_000_000 * p) by (nonlinear_arith)
                requires
                    t * pow10(e as nat) == 1_000_000,
            ;
            assert(10 * ((p * t) * pow10(e as nat)) == 10_000_000 * p);
            assert(xi * 1 == xi);
        } else {
            let f: int = pow10((-e) as nat) as int;
            lemma_pow10_adds(6, (-e) as nat);
            lemma_pow10_unfold((-e) as nat);
            assert((p * t) * 1 <= xi * f < 10 * ((p * t) * 1)) by (nonlinear_arith)
                requires
                    t == 1_000_000 * f,
                    1_000_000 * p <= xi < 10_000_000 * p,
                    f > 0,
            ;
        }
        // The mantissa.
        let left: int = 2 * (xi * t) + (p * t) * 1;
        let right: int = 2 * xi + p;
        assert(left * (2 * p) == right * (2 * ((p * t) * 1)) && left >= 0 && 2 * ((p * t) * 1) > 0)
            by (nonlinear_arith)
            requires
                left == 2 * (xi * t) + (p * t) * 1,
                right == 2 * xi + p,
                xi >= 0,
                p > 0,
                t > 0,
        ;
        lemma_equal_ratios_divide(left, 2 * ((p * t) * 1), right, 2 * p);
        lemma_round_half_up(x as nat, unit as nat);
        lemma_div_is_ordered(1_000_000 * p, xi, p);
        lemma_div_multiples_vanish(1_000_000, p);
        lemma_multiply_divide_lt(xi, p, 10_000_000);
    }
    let mantissa: u128 = if 2 * rest >= unit {
        whole + 1
    } else {
        whole
    };
    Rounding { mantissa: mantissa as u32, exponent: 6 - tenths as i32 }
}

} // verus!
