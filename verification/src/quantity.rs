//! The mathematical model of a number: a mantissa and a power of ten.
//!
//! A quantity stands for `mantissa / 1_000_000 * 10^exponent`. The mantissa is
//! kept as a whole number of millionths, so a normalized mantissa between one
//! and ten is a number from `MANTISSA_ONE` up to, but not including,
//! `MANTISSA_TEN`.

use crate::format::{format_of, Format};
use vstd::prelude::*;

verus! {

/// The mantissa of one: a million millionths.
pub const MANTISSA_ONE: u32 = 1_000_000;

/// The mantissa that ten would have; every normalized mantissa is below it.
pub const MANTISSA_TEN: u32 = 10_000_000;

/// The floor of the exponent: the lowest that a stored number can hold. A
/// quantity that an operation would push below `10^MIN_EXPONENT` is too close
/// to zero to be held and becomes zero.
pub const MIN_EXPONENT: i32 = -2_147_483_648;

/// The largest exponent that a stored number can hold.
pub const MAX_EXPONENT: i32 = 2_147_483_647;

/// A mantissa in millionths and the power of ten that scales it.
pub struct Quantity {
    pub mantissa: nat,
    pub exponent: int,
}

impl Quantity {
    /// The zero sentinel.
    pub open spec fn zero() -> Quantity {
        Quantity { mantissa: 0, exponent: 0 }
    }

    /// The quantity one.
    pub open spec fn one() -> Quantity {
        Quantity { mantissa: MANTISSA_ONE as nat, exponent: 0 }
    }

    /// Whether this is the zero sentinel.
    pub open spec fn is_zero(self) -> bool {
        self == Quantity::zero()
    }

    /// The invariant of every quantity: it is the zero sentinel, or its
    /// mantissa lies between one and ten and its exponent is at or above the
    /// floor.
    pub open spec fn normalized(self) -> bool {
        self.is_zero() || (MANTISSA_ONE <= self.mantissa < MANTISSA_TEN && MIN_EXPONENT
            <= self.exponent)
    }

    /// Whether the exponent fits in what a stored number can hold.
    pub open spec fn representable(self) -> bool {
        self.exponent <= MAX_EXPONENT
    }

    /// The display format, which the exponent alone decides.
    pub open spec fn format(self) -> Format {
        format_of(self.exponent)
    }

    /// This quantity times `10^delta`. The mantissa stays as it is. Zero stays
    /// zero, and a result below the floor of the exponent is zero.
    pub open spec fn shifted(self, delta: int) -> Quantity {
        if self.is_zero() || delta == 0 {
            self
        } else if self.exponent + delta < MIN_EXPONENT {
            Quantity::zero()
        } else {
            Quantity { mantissa: self.mantissa, exponent: self.exponent + delta }
        }
    }

    /// Whether the product of the two mantissas reaches ten, so that the
    /// product needs one digit carried into the exponent.
    pub open spec fn carries(self, other: Quantity) -> bool {
        self.mantissa * other.mantissa >= 10_000_000_000_000
    }

    /// The product of two quantities: exponents added, mantissas multiplied
    /// and cut to a whole number of millionths, with one digit carried into
    /// the exponent where the mantissas' product reaches ten. Zero absorbs,
    /// and a product below the floor of the exponent is zero.
    pub open spec fn times(self, other: Quantity) -> Quantity {
        if self.is_zero() || other.is_zero() {
            Quantity::zero()
        } else {
            let product: nat = self.mantissa * other.mantissa;
            let raw: Quantity = if self.carries(other) {
                Quantity {
                    mantissa: product / 10_000_000,
                    exponent: self.exponent + other.exponent + 1,
                }
            } else {
                Quantity {
                    mantissa: product / 1_000_000,
                    exponent: self.exponent + other.exponent,
                }
            };
            if raw.exponent < MIN_EXPONENT {
                Quantity::zero()
            } else {
                raw
            }
        }
    }
}

/// The product of two normalized mantissas lies between one and a hundred,
/// in millionths of millionths.
pub proof fn lemma_mantissa_product(x: nat, y: nat)
    requires
        MANTISSA_ONE <= x < MANTISSA_TEN,
        MANTISSA_ONE <= y < MANTISSA_TEN,
    ensures
        1_000_000_000_000 <= x * y < 100_000_000_000_000,
{
    assert(1_000_000_000_000 <= x * y < 100_000_000_000_000) by (nonlinear_arith)
        requires
            1_000_000 <= x < 10_000_000,
            1_000_000 <= y < 10_000_000,
    ;
}

} // verus!
