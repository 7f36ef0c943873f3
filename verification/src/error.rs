//! Why a text was not accepted as a number.

use vstd::prelude::*;

verus! {

/// The ways in which reading a number from text fails.
#[derive(Clone, Copy, Debug, PartialEq, Eq, Structural)]
pub enum NumberError {
    /// The numeric part is no decimal, or its value cannot be held.
    InvalidMantissa,
    /// The letters at the end of a compact text name no magnitude tier.
    UnknownSuffix,
    /// The exponent of an exponential text is missing, is no integer, or
    /// leads outside the range of exponents.
    InvalidExponent,
}

} // verus!
