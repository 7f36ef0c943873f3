//! A number as text: which of the two formats writes it, and how a text is
//! read back.

use crate::compact::{compact_shown, compact_text, parse_compact};
use crate::error::NumberError;
use crate::exponential::{exponential_shown, exponential_text, has_separator, parse_exponential};
use crate::format::Format;
use crate::quantity::Quantity;
use vstd::prelude::*;

verus! {

/// The text of a quantity, in the format of its exponent.
pub open spec fn render(x: Quantity) -> Seq<char> {
    match x.format() {
        Format::Compact => compact_text(x),
        Format::Exponential => exponential_text(x),
    }
}

/// The quantity that the text of `x` shows: `x` with its mantissa cut to the
/// digits that are written.
pub open spec fn shown(x: Quantity) -> Quantity {
    match x.format() {
        Format::Compact => compact_shown(x),
        Format::Exponential => exponential_shown(x),
    }
}

/// What a text stands for when it is read in the given format.
pub open spec fn parse_as(s: Seq<char>, format: Format) -> Result<Quantity, NumberError> {
    match format {
        Format::Compact => parse_compact(s),
        Format::Exponential => parse_exponential(s),
    }
}

/// The format in which a text is read when none is given: exponential where
/// the text holds the separator `x10^`, and compact where it does not.
pub open spec fn detect_format(s: Seq<char>) -> Format {
    if has_separator(s) {
        Format::Exponential
    } else {
        Format::Compact
    }
}

/// What a text stands for, in the format that the text itself shows.
pub open spec fn parse_text(s: Seq<char>) -> Result<Quantity, NumberError> {
    parse_as(s, detect_format(s))
}

/// The characters of a text.
pub fn to_chars(text: &str) -> (chars: Vec<char>)
    ensures
        chars@ == text@,
{
    let mut chars: Vec<char> = Vec::new();
    for c in it: text.chars()
        invariant
            it.seq() == text@,
            chars.len() == it.index(),
            forall|j: int| 0 <= j < chars.len() ==> chars@[j] == it.seq()[j],
    {
        chars.push(c);
    }
    chars
}

} // verus!
