//! Powers of ten and of two, in specifications and at run time.

use vstd::arithmetic::power::*;
use vstd::arithmetic::power2::*;
use vstd::prelude::*;

verus! {

/// Ten to the power `n`.
pub open spec fn pow10(n: nat) -> nat {
    pow(10, n) as nat
}

/// The defining equations of `pow10`.
pub proof fn lemma_pow10_unfold(n: nat)
    ensures
        pow10(0) == 1,
        pow10(n) > 0,
        pow10(n + 1) == 10 * pow10(n),
{
    reveal(pow);
    lemma_pow_positive(10, n);
    lemma_pow_positive(10, n + 1);
}

/// Powers of ten multiply by adding their exponents.
pub proof fn lemma_pow10_adds(a: nat, b: nat)
    ensures
        pow10(a + b) == pow10(a) * pow10(b),
{
    lemma_pow_adds(10, a, b);
    lemma_pow_positive(10, a);
    lemma_pow_positive(10, b);
    lemma_pow_positive(10, a + b);
}

/// A larger exponent gives a larger power of ten.
pub proof fn lemma_pow10_increases(a: nat, b: nat)
    requires
        a <= b,
    ensures
        pow10(a) <= pow10(b),
        a < b ==> 10 * pow10(a) <= pow10(b),
{
    lemma_pow_increases(10, a, b);
    lemma_pow_positive(10, a);
    lemma_pow_positive(10, b);
    if a < b {
        lemma_pow_increases(10, a + 1, b);
        lemma_pow_positive(10, a + 1);
        lemma_pow10_unfold(a);
    }
}

/// The powers of ten up to the ninth.
pub proof fn lemma_pow10_small()
    ensures
        pow10(0) == 1,
        pow10(1) == 10,
        pow10(2) == 100,
        pow10(3) == 1_000,
        pow10(4) == 10_000,
        pow10(5) == 100_000,
        pow10(6) == 1_000_000,
        pow10(7) == 10_000_000,
        pow10(8) == 100_000_000,
        pow10(9) == 1_000_000_000,
{
    lemma_pow10_unfold(0);
    lemma_pow10_unfold(1);
    lemma_pow10_unfold(2);
    lemma_pow10_unfold(3);
    lemma_pow10_unfold(4);
    lemma_pow10_unfold(5);
    lemma_pow10_unfold(6);
    lemma_pow10_unfold(7);
    lemma_pow10_unfold(8);
}

/// Ten to the thirty-eighth, the largest power of ten below `2^128`.
pub proof fn lemma_pow10_38()
    ensures
        pow10(19) == 10_000_000_000_000_000_000,
        pow10(38) == 100_000_000_000_000_000_000_000_000_000_000_000_000,
{
    lemma_pow10_small();
    lemma_pow10_adds(9, 9);
    lemma_pow10_adds(18, 1);
    lemma_pow10_adds(19, 19);
    let p: nat = pow10(19);
    assert(p * p == 100_000_000_000_000_000_000_000_000_000_000_000_000) by (nonlinear_arith)
        requires
            p == 10_000_000_000_000_000_000,
    ;
}

/// Raises `base` to the power `exponent` with `num::pow`, which multiplies by
/// repeated squaring. Not verified: the contract records that the result is
/// the mathematical power whenever that power fits in 128 bits, which is the
/// only case in which `num::pow` does not overflow.
#[verifier::external_body]
pub(crate) fn power(base: u128, exponent: u32) -> (result: u128)
    requires
        base >= 1,
        pow(base as int, exponent as nat) <= u128::MAX,
    ensures
        result == pow(base as int, exponent as nat),
{
    num::pow(base, exponent as usize)
}

/// The largest power of two that 128 bits hold.
pub proof fn lemma_pow2_127()
    ensures
        pow2(127) == 0x8000_0000_0000_0000_0000_0000_0000_0000,
{
    lemma2_to64();
    lemma2_to64_rest();
    lemma_pow2_adds(64, 63);
    let a: nat = pow2(64);
    let b: nat = pow2(63);
    assert(a * b == 0x8000_0000_0000_0000_0000_0000_0000_0000) by (nonlinear_arith)
        requires
            a == 0x1_0000_0000_0000_0000,
            b == 0x8000_0000_0000_0000,
    ;
}

/// Two to the power `exponent`.
pub fn power_of_two(exponent: u32) -> (result: u128)
    requires
        exponent <= 127,
    ensures
        result == pow2(exponent as nat),
{
    proof {
        lemma_pow2_127();
        if exponent < 127 {
            lemma_pow2_strictly_increases(exponent as nat, 127);
        }
        lemma_pow_positive(2, exponent as nat);
    }
    power(2, exponent)
}

/// Ten to the power `exponent`.
pub fn power_of_ten(exponent: u32) -> (result: u128)
    requires
        exponent <= 38,
    ensures
        result == pow10(exponent as nat),
{
    proof {
        lemma_pow10_38();
        lemma_pow10_increases(exponent as nat, 38);
    }
    power(10, exponent)
}

} // verus!
