//! Whole-number arithmetic for derivatives of powers.

use vstd::prelude::*;

verus! {

/// The product of the whole numbers from one up to `n`; one for an `n` below
/// one.
pub open spec fn factorial_of(n: int) -> int
    decreases n,
{
    if n < 1 {
        1
    } else {
        n * factorial_of(n - 1)
    }
}

/// A factorial is at least one, and a larger number has a larger factorial.
pub proof fn lemma_factorial_increases(low: int, high: int)
    requires
        low <= high,
    ensures
        1 <= factorial_of(low) <= factorial_of(high),
    decreases high - low, high,
{
    if low < high {
        lemma_factorial_increases(low, high - 1);
        if high >= 1 {
            let below: int = factorial_of(high - 1);
            assert(high * below >= below) by (nonlinear_arith)
                requires
                    high >= 1,
                    below >= 1,
            ;
        }
    } else if low >= 1 {
        lemma_factorial_increases(low - 1, low - 1);
        let below: int = factorial_of(low - 1);
        assert(low * below >= 1) by (nonlinear_arith)
            requires
                low >= 1,
                below >= 1,
        ;
    }
}

/// The factorial of `number`, which must be one that an `isize` holds.
pub fn factorial(number: isize) -> (product: isize)
    requires
        factorial_of(number as int) <= isize::MAX,
    ensures
        product == factorial_of(number as int),
{
    let mut product: isize = 1;
    let mut i: isize = 0;
    while i < number
        invariant
            0 <= i,
            i <= number || (number < 0 && i == 0),
            product == factorial_of(i as int),
            factorial_of(number as int) <= isize::MAX,
        decreases number - i,
    {
        proof {
            lemma_factorial_increases(i + 1, number as int);
            let below: int = factorial_of(i as int);
            assert(factorial_of(i + 1) == (i + 1) * below);
            assert(below * (i + 1) == (i + 1) * below) by (nonlinear_arith);
        }
        i = i + 1;
        product = product * i;
    }
    assert(factorial_of(0) == 1);
    assert(number < 1 ==> factorial_of(number as int) == 1);
    product
}

} // verus!
