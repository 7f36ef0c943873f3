//! The compact format: a short decimal of one to three whole digits and at
//! most one digit behind the point, followed by the suffix of its magnitude
//! tier. It serves the exponents from zero up to twenty-six.

use crate::big_number::BigNumber;
use crate::decimal::{
    decimal_quantity, decimal_text, is_decimal, lemma_decimal_ends_in_digit, lemma_decimal_text,
    lemma_leading_mantissa_bounds, lemma_scaled_trailing_zeros, push_decimal, read_decimal,
    scaled, Reading,
};
use crate::digits::{digits_value, lemma_count_digits_from_bounds};
use crate::error::NumberError;
use crate::format::{
    find_tier, is_alpha, is_alpha_char, law_suffix_table, suffix_of, suffix_text, tier_of, Format,
};
use crate::power::{lemma_pow10_small, pow10};
use crate::quantity::Quantity;
use vstd::prelude::*;
use vstd::slice::*;

verus! {

/// The mantissa expanded to its place within its tier, in tenths: from `10`
/// up to `9999`, or zero for the number zero.
pub open spec fn compact_units(x: Quantity) -> nat {
    x.mantissa * pow10((x.exponent % 3) as nat) / 100_000
}

/// The compact text of a quantity whose exponent is at least zero and below
/// the compact limit: the expanded mantissa with at most one digit behind the
/// point, cut and not rounded, then the suffix of the tier.
pub open spec fn compact_text(x: Quantity) -> Seq<char> {
    decimal_text(compact_units(x), 1) + suffix_of(x.exponent / 3)
}

/// The quantity that the compact text shows: the mantissa cut to the digits
/// that are written, which are two more than the place of the exponent
/// within its tier.
pub open spec fn compact_shown(x: Quantity) -> Quantity {
    let cut: nat = pow10((5 - x.exponent % 3) as nat);
    Quantity { mantissa: x.mantissa / cut * cut, exponent: x.exponent }
}

/// Where the run of letters that ends at `end` starts.
pub open spec fn suffix_start(s: Seq<char>, end: int) -> int
    decreases end,
{
    if 0 < end <= s.len() && is_alpha(s[end - 1]) {
        suffix_start(s, end - 1)
    } else {
        end
    }
}

/// What a text in compact form stands for. The longest run of letters at its
/// end is the suffix, which must name a tier unless it is empty; what stands
/// before it must be a decimal; and the value must be one that can be held.
pub open spec fn parse_compact(s: Seq<char>) -> Result<Quantity, NumberError> {
    let cut: int = suffix_start(s, s.len() as int);
    let prefix: Seq<char> = s.take(cut);
    let suffix: Seq<char> = s.skip(cut);
    if suffix.len() > 0 && tier_of(suffix) is None {
        Err(NumberError::UnknownSuffix)
    } else if !is_decimal(prefix) {
        Err(NumberError::InvalidMantissa)
    } else {
        let tier: int = if suffix.len() == 0 {
            0
        } else {
            tier_of(suffix)->0
        };
        let value: Quantity = decimal_quantity(prefix, 3 * tier);
        if value.normalized() && value.representable() {
            Ok(value)
        } else {
            Err(NumberError::InvalidMantissa)
        }
    }
}

/// A run of letters that no letter stands before starts where it starts.
pub proof fn lemma_suffix_start(s: Seq<char>, cut: int, end: int)
    requires
        0 <= cut <= end <= s.len(),
        forall|i: int| cut <= i < end ==> is_alpha(#[trigger] s[i]),
        cut == 0 || !is_alpha(s[cut - 1]),
    ensures
        suffix_start(s, end) == cut,
    decreases end - cut,
{
    if cut < end {
        lemma_suffix_start(s, cut, end - 1);
    }
}

/// The expanded mantissa of a normalized quantity has two digits more than
/// the place of the exponent within its tier, and it is the mantissa with
/// the digits behind them cut off.
pub proof fn lemma_compact_units(x: Quantity)
    requires
        x.normalized(),
        !x.is_zero(),
        0 <= x.exponent,
    ensures
        pow10((x.exponent % 3 + 1) as nat) <= compact_units(x) < pow10((x.exponent % 3 + 2) as nat),
        compact_units(x) == x.mantissa / pow10((5 - x.exponent % 3) as nat),
{
    lemma_pow10_small();
    let m: nat = x.mantissa;
    let place: int = x.exponent % 3;
    if place == 0 {
        assert(m * 1 / 100_000 == m / 100_000);
    } else if place == 1 {
        assert(m * 10 / 100_000 == m / 10_000);
    } else {
        assert(m * 100 / 100_000 == m / 1_000);
    }
}

/// Reading back the compact text of a quantity gives the quantity that the
/// text shows.
pub proof fn lemma_compact_round_trip(x: Quantity)
    requires
        x.normalized(),
        0 <= x.exponent < 27,
    ensures
        parse_compact(compact_text(x)) == Ok::<Quantity, NumberError>(compact_shown(x)),
        compact_shown(x).normalized(),
        forall|i: int| 0 <= i < compact_text(x).len() ==> compact_text(x)[i] != 'x',
{
    let units: nat = compact_units(x);
    let tier: int = x.exponent / 3;
    let place: int = x.exponent % 3;
    let number: Seq<char> = decimal_text(units, 1);
    let suffix: Seq<char> = suffix_of(tier);
    let text: Seq<char> = compact_text(x);
    let cut: int = number.len() as int;
    lemma_pow10_small();
    lemma_decimal_text(units, 1);
    lemma_decimal_ends_in_digit(number);
    if tier >= 1 {
        law_suffix_table(tier, tier);
    }
    assert forall|i: int| cut <= i < text.len() implies is_alpha(#[trigger] text[i]) by {
        assert(text[i] == suffix[i - cut]);
    }
    assert(text[cut - 1] == number[cut - 1]);
    lemma_suffix_start(text, cut, text.len() as int);
    assert(text.take(cut) =~= number);
    assert(text.skip(cut) =~= suffix);
    assert forall|i: int| 0 <= i < text.len() implies text[i] != 'x' by {
        if i < cut {
            assert(text[i] == number[i]);
        } else {
            assert(text[i] == suffix[i - cut]);
        }
    }
    let behind: nat = crate::decimal::decimal_places(number);
    let value: nat = digits_value(crate::decimal::decimal_digits(number));
    lemma_scaled_trailing_zeros(value, (1 - behind) as nat, 3 * tier - behind);
    assert(decimal_quantity(number, 3 * tier) == scaled(units, 3 * tier - 1));
    if x.is_zero() {
        assert(0 * pow10(place as nat) == 0) by (nonlinear_arith);
        assert(units == 0);
        assert(0nat / 100_000 * 100_000 == 0);
    } else {
        lemma_compact_units(x);
        lemma_count_digits_from_bounds(units, (place + 1) as nat);
        lemma_leading_mantissa_bounds(units);
    }
}

/// Writes a number in compact form.
pub fn render(x: &BigNumber) -> (text: String)
    requires
        x@.format() == Format::Compact,
    ensures
        text@ == compact_text(x@),
{
    let exponent: i32 = x.exponent();
    let place: i32 = exponent % 3;
    let tier: u8 = (exponent / 3) as u8;
    proof {
        lemma_pow10_small();
    }
    let scale: u64 = if place == 0 {
        1
    } else if place == 1 {
        10
    } else {
        100
    };
    let units: u64 = x.mantissa() as u64 * scale / 100_000;
    let mut text: String = String::new();
    push_decimal(&mut text, units, 1);
    text.append(suffix_text(tier));
    proof {
        assert(text@ =~= compact_text(x@));
    }
    text
}

/// Finds where the run of letters at the end of `s` starts.
pub fn skip_letters_back(s: &[char]) -> (cut: usize)
    ensures
        cut == suffix_start(s@, s@.len() as int),
        cut <= s.len(),
{
    let mut i: usize = s.len();
    while i > 0 && is_alpha_char(s[i - 1])
        invariant
            i <= s.len(),
            suffix_start(s@, s@.len() as int) == suffix_start(s@, i as int),
        decreases i,
    {
        i = i - 1;
    }
    i
}

/// Reads a text in compact form.
pub fn parse(s: &[char]) -> (result: Result<BigNumber, NumberError>)
    ensures
        match parse_compact(s@) {
            Ok(value) => result matches Ok(number) && number@ == value,
            Err(error) => result == Err::<BigNumber, NumberError>(error),
        },
        result matches Ok(number) ==> number.well_formed(),
{
    let len: usize = s.len();
    let cut: usize = skip_letters_back(s);
    let prefix: &[char] = slice_subrange(s, 0, cut);
    let suffix: &[char] = slice_subrange(s, cut, len);
    proof {
        assert(s@.take(cut as int) =~= prefix@);
        assert(s@.skip(cut as int) =~= suffix@);
    }
    let tier: u8 = if cut == len {
        0
    } else {
        match find_tier(suffix) {
            Some(tier) => tier,
            None => {
                return Err(NumberError::UnknownSuffix);
            },
        }
    };
    match read_decimal(prefix) {
        Some(reading) => BigNumber::from_reading(
            reading,
            3 * tier as i128,
            NumberError::InvalidMantissa,
        ),
        None => Err(NumberError::InvalidMantissa),
    }
}

} // verus!
