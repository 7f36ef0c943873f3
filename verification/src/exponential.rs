//! The exponential format: a mantissa of up to three digits, the separator
//! `x10^`, and the exponent. It serves every exponent that the compact format
//! does not.

use crate::big_number::BigNumber;
use crate::decimal::{
    decimal_digits, decimal_places, decimal_quantity, decimal_text, is_decimal,
    lemma_decimal_text, lemma_leading_mantissa_bounds, lemma_scaled_trailing_zeros, push_decimal,
    read_decimal, scaled,
};
use crate::digits::{
    digits_value, int_digits, integer_value, is_integer, lemma_count_digits_from_bounds,
    lemma_int_digits, push_int, read_integer, };
use crate::error::NumberError;
use crate::power::lemma_pow10_small;
use crate::quantity::Quantity;
use vstd::prelude::*;
use vstd::slice::*;

verus! {

/// The separator between mantissa and exponent: `x10^`.
pub open spec fn separator() -> Seq<char> {
    seq!['x', '1', '0', '^']
}

/// Whether the separator stands in `s` at index `i`.
pub open spec fn separator_at(s: Seq<char>, i: int) -> bool {
    &&& 0 <= i
    &&& i + 4 <= s.len()
    &&& s[i] == 'x'
    &&& s[i + 1] == '1'
    &&& s[i + 2] == '0'
    &&& s[i + 3] == '^'
}

/// The index of the first separator at or after `from`, or the length of `s`
/// where there is none.
pub open spec fn separator_index(s: Seq<char>, from: int) -> int
    decreases s.len() - from,
{
    if from < 0 || from + 4 > s.len() {
        s.len() as int
    } else if separator_at(s, from) {
        from
    } else {
        separator_index(s, from + 1)
    }
}

/// Whether `s` holds the separator anywhere.
pub open spec fn has_separator(s: Seq<char>) -> bool {
    separator_index(s, 0) < s.len()
}

/// The exponential text of a quantity: the mantissa with at most two digits
/// behind the point, cut and not rounded, the separator, and the exponent.
pub open spec fn exponential_text(x: Quantity) -> Seq<char> {
    decimal_text(x.mantissa / 10_000, 2) + separator() + int_digits(x.exponent)
}

/// The quantity that the exponential text shows: the mantissa cut to three
/// digits.
pub open spec fn exponential_shown(x: Quantity) -> Quantity {
    Quantity { mantissa: x.mantissa / 10_000 * 10_000, exponent: x.exponent }
}

/// What a text in exponential form stands for. What stands before the first
/// separator must be a decimal; a separator must be there, and what follows
/// it must be an integer; and the exponent of the value, once the mantissa is
/// brought between one and ten, must be one that can be held.
pub open spec fn parse_exponential(s: Seq<char>) -> Result<Quantity, NumberError> {
    let at: int = separator_index(s, 0);
    let mantissa: Seq<char> = s.take(at);
    if !is_decimal(mantissa) {
        Err(NumberError::InvalidMantissa)
    } else if at >= s.len() || !is_integer(s.skip(at + 4)) {
        Err(NumberError::InvalidExponent)
    } else {
        let value: Quantity = decimal_quantity(mantissa, integer_value(s.skip(at + 4)));
        if value.normalized() && value.representable() {
            Ok(value)
        } else {
            Err(NumberError::InvalidExponent)
        }
    }
}

/// The first separator stands where one stands and no `x` stands before it.
pub proof fn lemma_separator_index(s: Seq<char>, from: int, at: int)
    requires
        0 <= from <= at,
        separator_at(s, at),
        forall|i: int| from <= i < at ==> s[i] != 'x',
    ensures
        separator_index(s, from) == at,
    decreases at - from,
{
    if from < at {
        lemma_separator_index(s, from + 1, at);
    }
}

/// A text without an `x` holds no separator.
pub proof fn lemma_no_separator(s: Seq<char>, from: int)
    requires
        0 <= from,
        forall|i: int| from <= i < s.len() ==> s[i] != 'x',
    ensures
        separator_index(s, from) == s.len(),
    decreases s.len() - from,
{
    if from + 4 <= s.len() {
        lemma_no_separator(s, from + 1);
    }
}

/// Reading back the exponential text of a quantity gives the quantity that
/// the text shows.
pub proof fn lemma_exponential_round_trip(x: Quantity)
    requires
        x.normalized(),
        x.representable(),
        !x.is_zero(),
    ensures
        parse_exponential(exponential_text(x)) == Ok::<Quantity, NumberError>(
            exponential_shown(x),
        ),
        exponential_shown(x).normalized(),
        has_separator(exponential_text(x)),
{
    let units: nat = x.mantissa / 10_000;
    let number: Seq<char> = decimal_text(units, 2);
    let power: Seq<char> = int_digits(x.exponent);
    let text: Seq<char> = exponential_text(x);
    let at: int = number.len() as int;
    lemma_pow10_small();
    lemma_decimal_text(units, 2);
    lemma_int_digits(x.exponent);
    assert(text =~= number + separator() + power);
    assert forall|i: int| 0 <= i < at implies text[i] != 'x' by {
        assert(text[i] == number[i]);
    }
    assert(separator_at(text, at)) by {
        assert(text[at] == separator()[0]);
        assert(text[at + 1] == separator()[1]);
        assert(text[at + 2] == separator()[2]);
        assert(text[at + 3] == separator()[3]);
    }
    lemma_separator_index(text, 0, at);
    assert(text.take(at) =~= number);
    assert(text.skip(at + 4) =~= power);
    let behind: nat = decimal_places(number);
    let value: nat = digits_value(decimal_digits(number));
    lemma_scaled_trailing_zeros(value, (2 - behind) as nat, x.exponent - behind);
    assert(decimal_quantity(number, x.exponent) == scaled(units, x.exponent - 2));
    lemma_count_digits_from_bounds(units, 2);
    lemma_leading_mantissa_bounds(units);
}

/// Writes a number in exponential form.
pub fn render(x: &BigNumber) -> (text: String)
    ensures
        text@ == exponential_text(x@),
{
    let mut text: String = String::new();
    push_decimal(&mut text, (x.mantissa() / 10_000) as u64, 2);
    proof {
        reveal_strlit("x10^");
        assert("x10^".view() =~= separator());
    }
    text.append("x10^");
    push_int(&mut text, x.exponent());
    text
}

/// Finds the first separator in `s`.
pub fn find_separator(s: &[char]) -> (at: usize)
    ensures
        at == separator_index(s@, 0),
        at <= s.len(),
        at < s.len() ==> at + 4 <= s.len(),
{
    let len: usize = s.len();
    if len < 4 {
        return len;
    }
    let last: usize = len - 4;
    let mut i: usize = 0;
    while i <= last
        invariant
            len == s.len(),
            last == len - 4,
            i <= last + 1,
            separator_index(s@, 0) == separator_index(s@, i as int),
        decreases last + 1 - i,
    {
        if s[i] == 'x' && s[i + 1] == '1' && s[i + 2] == '0' && s[i + 3] == '^' {
            return i;
        }
        i = i + 1;
    }
    len
}

/// Reads a text in exponential form.
pub fn parse(s: &[char]) -> (result: Result<BigNumber, NumberError>)
    ensures
        match parse_exponential(s@) {
            Ok(value) => result matches Ok(number) && number@ == value,
            Err(error) => result == Err::<BigNumber, NumberError>(error),
        },
        result matches Ok(number) ==> number.well_formed(),
{
    let len: usize = s.len();
    let at: usize = find_separator(s);
    let mantissa: &[char] = slice_subrange(s, 0, at);
    proof {
        assert(s@.take(at as int) =~= mantissa@);
    }
    let reading = match read_decimal(mantissa) {
        Some(reading) => reading,
        None => {
            return Err(NumberError::InvalidMantissa);
        },
    };
    if at >= len {
        return Err(NumberError::InvalidExponent);
    }
    let power: &[char] = slice_subrange(s, at + 4, len);
    proof {
        assert(s@.skip(at + 4) =~= power@);
    }
    match read_integer(power) {
        Some(shift) => {
            proof {
                let exact: int = integer_value(power@);
                assert(reading.quantity(exact) == decimal_quantity(mantissa@, exact));
                assert(reading.quantity(shift as int) == decimal_quantity(mantissa@, shift as int));
            }
            BigNumber::from_reading(reading, shift, NumberError::InvalidExponent)
        },
        None => Err(NumberError::InvalidExponent),
    }
}

} // verus!
