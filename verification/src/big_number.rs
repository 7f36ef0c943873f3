//! The stored number: a normalized mantissa, a power of ten, and the display
//! format that follows from the exponent.

use crate::compact;
use crate::decimal::Reading;
use crate::digits::EXPONENT_TEXT_LIMIT;
use crate::error::NumberError;
use crate::exponential;
use crate::float::{f32_denominator, f32_is_finite, f32_numerator, f32_quantity, round_f32};
use crate::format::{select_format, Format};
use crate::quantity::{
    lemma_mantissa_product, Quantity, MANTISSA_ONE, MANTISSA_TEN, MAX_EXPONENT, MIN_EXPONENT,
};
use crate::ratio::lemma_rounding_is_nearest;
use crate::text::{parse_as, parse_text, render, to_chars};
use vstd::prelude::*;

verus! {

/// A number of any magnitude. Its value is `mantissa / 1_000_000 * 10^exponent`;
/// the view is the `Quantity` it stands for. Every value of this type is
/// normalized and carries the display format of its exponent: the fields are
/// private, and each operation re-derives the format.
#[derive(Clone, Copy, Debug, PartialEq, Eq, Structural)]
pub struct BigNumber {
    mantissa: u32,
    exponent: i32,
    display_format: Format,
}

impl View for BigNumber {
    type V = Quantity;

    closed spec fn view(&self) -> Quantity {
        Quantity { mantissa: self.mantissa as nat, exponent: self.exponent as int }
    }
}

impl BigNumber {
    /// The display format that is stored with the number.
    pub closed spec fn stored_format(self) -> Format {
        self.display_format
    }

    /// What holds of every stored number, whichever operation made it: it is
    /// normalized, its exponent is one that can be held, and its format is
    /// the one of its exponent.
    #[verifier::type_invariant]
    pub open spec fn well_formed(self) -> bool {
        &&& self@.normalized()
        &&& self@.representable()
        &&& self.stored_format() == self@.format()
    }

    /// Puts a number together from a normalized mantissa and exponent, and
    /// derives its format.
    pub(crate) fn from_components(mantissa: u32, exponent: i32) -> (number: BigNumber)
        requires
            (Quantity { mantissa: mantissa as nat, exponent: exponent as int }).normalized(),
        ensures
            number@ == (Quantity { mantissa: mantissa as nat, exponent: exponent as int }),
            number.well_formed(),
    {
        let number = BigNumber { mantissa, exponent, display_format: select_format(exponent) };
        proof {
            use_type_invariant(&number);
        }
        number
    }

    /// Turns a decimal that was read, times `10^shift`, into a number, or
    /// gives `error` where the exponent leaves the range that can be held.
    pub(crate) fn from_reading(reading: Reading, shift: i128, error: NumberError) -> (result:
        Result<BigNumber, NumberError>)
        requires
            reading.mantissa == 0 || MANTISSA_ONE <= reading.mantissa < MANTISSA_TEN,
            -0x1_0000_0000_0000_0000 <= reading.magnitude <= 0x1_0000_0000_0000_0000,
            -EXPONENT_TEXT_LIMIT <= shift <= EXPONENT_TEXT_LIMIT,
        ensures
            match result {
                Ok(number) => {
                    &&& number.well_formed()
                    &&& number@ == reading.quantity(shift as int)
                    &&& reading.quantity(shift as int).normalized()
                    &&& reading.quantity(shift as int).representable()
                },
                Err(e) => {
                    &&& e == error
                    &&& !(reading.quantity(shift as int).normalized() && reading.quantity(
                        shift as int,
                    ).representable())
                },
            },
    {
        if reading.mantissa == 0 {
            return Ok(BigNumber::zero());
        }
        let exponent: i128 = reading.magnitude + shift;
        if exponent < MIN_EXPONENT as i128 || exponent > MAX_EXPONENT as i128 {
            Err(error)
        } else {
            Ok(BigNumber::from_components(reading.mantissa, exponent as i32))
        }
    }

    /// Reads a number from `text`, which is taken to be in the given format.
    /// The format chooses the grammar only: the number that comes back has
    /// the format of its own exponent.
    pub fn new(text: &str, format: Format) -> (result: Result<BigNumber, NumberError>)
        ensures
            match parse_as(text@, format) {
                Ok(value) => result matches Ok(number) && number@ == value,
                Err(error) => result == Err::<BigNumber, NumberError>(error),
            },
            result matches Ok(number) ==> number.well_formed(),
    {
        let chars: Vec<char> = to_chars(text);
        match format {
            Format::Compact => compact::parse(chars.as_slice()),
            Format::Exponential => exponential::parse(chars.as_slice()),
        }
    }

    /// Reads a number from `text`. A text that holds the separator `x10^` is
    /// read as exponential, any other as compact.
    pub fn parse(text: &str) -> (result: Result<BigNumber, NumberError>)
        ensures
            match parse_text(text@) {
                Ok(value) => result matches Ok(number) && number@ == value,
                Err(error) => result == Err::<BigNumber, NumberError>(error),
            },
            result matches Ok(number) ==> number.well_formed(),
    {
        let chars: Vec<char> = to_chars(text);
        if exponential::find_separator(chars.as_slice()) < chars.len() {
            exponential::parse(chars.as_slice())
        } else {
            compact::parse(chars.as_slice())
        }
    }

    /// The number nearest to the magnitude of a single-precision
    /// floating-point number, which is given as its bit pattern (what
    /// `f32::to_bits` returns) and must be finite. Zero gives zero. Any other
    /// number gives the power of ten of its leading digit and a mantissa
    /// rounded to millionths, halves upward; where the rounding reaches ten,
    /// the mantissa is one and the exponent one higher. The sign is left
    /// aside: a negative number gives what its absolute value gives.
    pub fn new_d(deserialized: u32) -> (number: BigNumber)
        requires
            f32_is_finite(deserialized),
        ensures
            number@ == f32_quantity(deserialized),
            number.well_formed(),
    {
        let fraction: u32 = deserialized % 0x80_0000;
        let field: u32 = (deserialized / 0x80_0000) % 0x100;
        if fraction == 0 && field == 0 {
            return BigNumber::zero();
        }
        let rounding = round_f32(deserialized);
        proof {
            vstd::arithmetic::power2::lemma_pow2_pos(
                (-crate::float::f32_binary_exponent(deserialized)) as nat,
            );
            lemma_rounding_is_nearest(
                rounding,
                f32_numerator(deserialized),
                f32_denominator(deserialized),
            );
        }
        let number: BigNumber = if rounding.mantissa >= MANTISSA_TEN {
            BigNumber::from_components(MANTISSA_ONE, rounding.exponent + 1)
        } else {
            BigNumber::from_components(rounding.mantissa, rounding.exponent)
        };
        number
    }

    /// The text of the number, in its display format.
    pub fn get_value(&self) -> (text: String)
        ensures
            text@ == render(self@),
    {
        match self.display_format() {
            Format::Compact => compact::render(self),
            Format::Exponential => exponential::render(self),
        }
    }

    /// The number zero.
    pub fn zero() -> (number: BigNumber)
        ensures
            number@ == Quantity::zero(),
            number.well_formed(),
    {
        BigNumber::from_components(0, 0)
    }

    /// The mantissa in millionths: zero for the number zero, and otherwise at
    /// least `MANTISSA_ONE` and below `MANTISSA_TEN`.
    pub fn mantissa(&self) -> (mantissa: u32)
        ensures
            mantissa == self@.mantissa,
            mantissa == 0 || MANTISSA_ONE <= mantissa < MANTISSA_TEN,
    {
        proof {
            use_type_invariant(self);
        }
        self.mantissa
    }

    /// The power of ten.
    pub fn exponent(&self) -> (exponent: i32)
        ensures
            exponent == self@.exponent,
            MIN_EXPONENT <= exponent <= MAX_EXPONENT,
    {
        proof {
            use_type_invariant(self);
        }
        self.exponent
    }

    /// The display format, which is always the one of the exponent.
    pub fn display_format(&self) -> (format: Format)
        ensures
            format == self@.format(),
    {
        proof {
            use_type_invariant(self);
        }
        self.display_format
    }

    /// Multiplies the number by `10^increment`. The mantissa stays as it is
    /// and the format follows the new exponent. Zero stays zero, and a number
    /// pushed below the floor of the exponent becomes zero. Gives `None`, and
    /// leaves the number as it was, exactly when the new exponent would pass
    /// `MAX_EXPONENT`.
    pub fn increase_power(&mut self, increment: i32) -> (done: Option<bool>)
        ensures
            old(self)@.shifted(increment as int).representable() ==> done == Some(true)
                && final(self)@ == old(self)@.shifted(increment as int),
            !old(self)@.shifted(increment as int).representable() ==> done is None && *final(self)
                == *old(self),
            final(self).well_formed(),
    {
        self.shift(increment as i64)
    }

    /// Divides the number by `10^increment`: the same as `increase_power`
    /// with the increment negated.
    pub fn decrease_power(&mut self, increment: i32) -> (done: Option<bool>)
        ensures
            old(self)@.shifted(-(increment as int)).representable() ==> done == Some(true)
                && final(self)@ == old(self)@.shifted(-(increment as int)),
            !old(self)@.shifted(-(increment as int)).representable() ==> done is None
                && *final(self) == *old(self),
            final(self).well_formed(),
    {
        self.shift(-(increment as i64))
    }

    /// Shifts the power of ten by `delta`.
    fn shift(&mut self, delta: i64) -> (done: Option<bool>)
        requires
            -2_147_483_648 <= delta <= 2_147_483_648,
        ensures
            old(self)@.shifted(delta as int).representable() ==> done == Some(true)
                && final(self)@ == old(self)@.shifted(delta as int),
            !old(self)@.shifted(delta as int).representable() ==> done is None && *final(self)
                == *old(self),
            final(self).well_formed(),
    {
        proof {
            use_type_invariant(&*self);
        }
        if delta == 0 || self.mantissa == 0 {
            return Some(true);
        }
        let target: i64 = self.exponent as i64 + delta;
        if target > MAX_EXPONENT as i64 {
            None
        } else if target < MIN_EXPONENT as i64 {
            *self = BigNumber::zero();
            Some(true)
        } else {
            *self = BigNumber::from_components(self.mantissa, target as i32);
            Some(true)
        }
    }

    /// The product of two numbers: zero if either is zero; otherwise the
    /// exponents added and the mantissas multiplied, with one digit carried
    /// into the exponent where the mantissas' product reaches ten. A product
    /// below the floor of the exponent is zero. The exponent of the product
    /// must be one that can be held.
    pub fn multiply(self, other: BigNumber) -> (product: BigNumber)
        requires
            self@.times(other@).representable(),
        ensures
            product@ == self@.times(other@),
            product.well_formed(),
    {
        proof {
            use_type_invariant(&self);
            use_type_invariant(&other);
        }
        if self.mantissa == 0 || other.mantissa == 0 {
            return BigNumber::zero();
        }
        proof {
            lemma_mantissa_product(self.mantissa as nat, other.mantissa as nat);
        }
        let combined: u64 = self.mantissa as u64 * other.mantissa as u64;
        let sum: i64 = self.exponent as i64 + other.exponent as i64;
        let (mantissa, exponent): (u64, i64) = if combined >= 10_000_000_000_000 {
            (combined / 10_000_000, sum + 1)
        } else {
            (combined / 1_000_000, sum)
        };
        if exponent < MIN_EXPONENT as i64 {
            BigNumber::zero()
        } else {
            BigNumber::from_components(mantissa as u32, exponent as i32)
        }
    }

    /// The product of a number and a single-precision floating-point number,
    /// which is given as its bit pattern and must be finite: the same as
    /// `multiply` with what `new_d` makes of the bit pattern.
    pub fn multiply_scalar(self, scalar: u32) -> (product: BigNumber)
        requires
            f32_is_finite(scalar),
            self@.times(f32_quantity(scalar)).representable(),
        ensures
            product@ == self@.times(f32_quantity(scalar)),
            product.well_formed(),
    {
        self.multiply(BigNumber::new_d(scalar))
    }
}

/// A point in the plane: two numbers, each with its own invariant and with
/// nothing that ties them together.
#[derive(Clone, Copy, Debug, PartialEq, Eq, Structural)]
pub struct BigVec2 {
    pub x: BigNumber,
    pub y: BigNumber,
}

} // verus!
