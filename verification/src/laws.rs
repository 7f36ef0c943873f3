//! What holds of every quantity, whatever operations produced it.

use crate::compact::lemma_compact_round_trip;
use crate::error::NumberError;
use crate::exponential::{lemma_exponential_round_trip, lemma_no_separator};
use crate::format::{format_of, Format};
use crate::power::lemma_pow10_small;
use crate::quantity::{lemma_mantissa_product, Quantity, MANTISSA_ONE, MANTISSA_TEN, MIN_EXPONENT};
use crate::text::{parse_as, parse_text, render, shown};
use vstd::prelude::*;

verus! {

/// An exponent is shown in compact form exactly when it is at least zero and
/// below the compact limit of twenty-seven. So twenty-six is compact,
/// twenty-seven is exponential, and every negative exponent is exponential.
pub proof fn law_format_boundary(exponent: int)
    ensures
        format_of(exponent) == Format::Compact <==> 0 <= exponent < 27,
        format_of(exponent) == Format::Exponential <==> (exponent < 0 || exponent >= 27),
        format_of(26) == Format::Compact,
        format_of(27) == Format::Exponential,
{
}

/// Shifting the power of a normalized quantity gives a normalized quantity.
pub proof fn law_shift_normalized(x: Quantity, delta: int)
    requires
        x.normalized(),
    ensures
        x.shifted(delta).normalized(),
{
}

/// The product of two normalized quantities is normalized.
pub proof fn law_product_normalized(a: Quantity, b: Quantity)
    requires
        a.normalized(),
        b.normalized(),
    ensures
        a.times(b).normalized(),
{
    if !a.is_zero() && !b.is_zero() {
        lemma_mantissa_product(a.mantissa, b.mantissa);
    }
}

/// Multiplying by one changes nothing.
pub proof fn law_multiply_identity(x: Quantity)
    requires
        x.normalized(),
    ensures
        x.times(Quantity::one()) == x,
        Quantity::one().times(x) == x,
{
    if !x.is_zero() {
        let m: nat = x.mantissa;
        assert(m * 1_000_000 / 1_000_000 == m) by (nonlinear_arith);
        assert(1_000_000 * m / 1_000_000 == m) by (nonlinear_arith);
        assert(m * 1_000_000 < 10_000_000 * 1_000_000) by (nonlinear_arith)
            requires
                m < 10_000_000,
        ;
        assert(1_000_000 * m < 10_000_000 * 1_000_000) by (nonlinear_arith)
            requires
                m < 10_000_000,
        ;
    }
}

/// The exponent that a product has before it is held to the floor: the sum
/// of the exponents, and one more where the mantissas' product reaches ten.
pub open spec fn product_exponent(a: Quantity, b: Quantity) -> int {
    a.exponent + b.exponent + if a.carries(b) {
        1int
    } else {
        0int
    }
}

/// The product of two nonzero quantities, wherever its exponent is one that
/// can be held from below. It is not zero. Its exponent is the sum of the
/// exponents, or one more, and it is one more exactly when the product of the
/// mantissas reaches ten. Its mantissa is the product of the mantissas, or a
/// tenth of it after the carry, cut to millionths, and lies between one and
/// ten. Its format is the one of its exponent. Only a product whose exponent
/// would lie below the floor is left out: that product is zero.
pub proof fn law_multiply_exponent(a: Quantity, b: Quantity)
    requires
        a.normalized(),
        b.normalized(),
        !a.is_zero(),
        !b.is_zero(),
        product_exponent(a, b) >= MIN_EXPONENT,
    ensures
        !a.times(b).is_zero(),
        a.times(b).exponent == a.exponent + b.exponent || a.times(b).exponent == a.exponent
            + b.exponent + 1,
        a.times(b).exponent == a.exponent + b.exponent + 1 <==> a.carries(b),
        a.carries(b) <==> a.mantissa * b.mantissa >= 10_000_000_000_000,
        a.carries(b) ==> a.times(b).mantissa == a.mantissa * b.mantissa / 10_000_000,
        !a.carries(b) ==> a.times(b).mantissa == a.mantissa * b.mantissa / 1_000_000,
        MANTISSA_ONE <= a.times(b).mantissa < MANTISSA_TEN,
        a.times(b).format() == format_of(a.times(b).exponent),
{
    lemma_mantissa_product(a.mantissa, b.mantissa);
}

/// A product whose exponent would lie below the floor is zero.
pub proof fn law_multiply_below_floor(a: Quantity, b: Quantity)
    requires
        a.normalized(),
        b.normalized(),
        !a.is_zero(),
        !b.is_zero(),
        product_exponent(a, b) < MIN_EXPONENT,
    ensures
        a.times(b).is_zero(),
{
}

/// Shifting by `m` and then by `n` gives the same mantissa and exponent as
/// shifting once by `m + n`. Only the case in which the first shift alone
/// passes below the floor of the exponent, and both together do not, is left
/// out: there the first shift has made the quantity zero.
pub proof fn law_shift_additive(x: Quantity, m: int, n: int)
    requires
        x.normalized(),
        x.is_zero() || x.exponent + m >= MIN_EXPONENT || x.exponent + m + n < MIN_EXPONENT,
    ensures
        x.shifted(m).shifted(n) == x.shifted(m + n),
{
}

/// A shift that stays at or above the floor adds to the exponent, keeps the
/// mantissa, and gives the format of the new exponent.
pub proof fn law_shift_exponent(x: Quantity, delta: int)
    requires
        x.normalized(),
        !x.is_zero(),
        x.exponent + delta >= MIN_EXPONENT,
    ensures
        x.shifted(delta).exponent == x.exponent + delta,
        x.shifted(delta).mantissa == x.mantissa,
        x.shifted(delta).format() == format_of(x.exponent + delta),
{
}

/// Whatever a text is read as is normalized and has an exponent that can be
/// held.
pub proof fn law_parse_normalized(text: Seq<char>, format: Format)
    ensures
        parse_as(text, format) matches Ok(x) ==> x.normalized() && x.representable(),
        parse_text(text) matches Ok(x) ==> x.normalized() && x.representable(),
{
}

/// Cutting a mantissa to its leading digits takes away less than the place
/// value of the last digit kept, and cutting twice is cutting once.
proof fn lemma_cut(m: nat, place: int)
    requires
        0 <= place <= 2,
    ensures
        ({
            let cut: nat = crate::power::pow10((5 - place) as nat);
            let scale: nat = crate::power::pow10(place as nat);
            &&& m / cut * cut <= m < m / cut * cut + 100_000
            &&& m / cut * cut / cut == m / cut
            &&& m / cut * cut * scale / 100_000 == m * scale / 100_000
            &&& m % 100_000 == 0 ==> m / cut * cut == m
        }),
{
    lemma_pow10_small();
    if place == 0 {
        assert(m / 100_000 * 100_000 * 1 / 100_000 == m * 1 / 100_000);
    } else if place == 1 {
        assert(m / 10_000 * 10_000 * 10 / 100_000 == m * 10 / 100_000);
    } else {
        assert(m / 1_000 * 1_000 * 100 / 100_000 == m * 100 / 100_000);
    }
}

/// Reading back the text of a number gives the number that the text shows:
/// the same exponent, the same format, and the mantissa cut to the digits
/// that are written, which is less than a tenth of one below the mantissa
/// itself. The text names its own format, so reading it with or without the
/// format gives the same. A mantissa that has no digits past the first two
/// comes back exactly.
pub proof fn law_round_trip(x: Quantity)
    requires
        x.normalized(),
        x.representable(),
    ensures
        parse_text(render(x)) == Ok::<Quantity, NumberError>(shown(x)),
        parse_as(render(x), x.format()) == Ok::<Quantity, NumberError>(shown(x)),
        shown(x).normalized(),
        shown(x).exponent == x.exponent,
        shown(x).format() == x.format(),
        shown(x).mantissa <= x.mantissa < shown(x).mantissa + 100_000,
        x.mantissa % 100_000 == 0 ==> shown(x) == x,
{
    lemma_pow10_small();
    match x.format() {
        Format::Compact => {
            lemma_compact_round_trip(x);
            lemma_no_separator(render(x), 0);
            lemma_cut(x.mantissa, x.exponent % 3);
        },
        Format::Exponential => {
            lemma_exponential_round_trip(x);
        },
    }
}

/// Writing the number that a text shows gives that text again.
pub proof fn law_shown_is_stable(x: Quantity)
    requires
        x.normalized(),
        x.representable(),
    ensures
        render(shown(x)) == render(x),
        shown(shown(x)) == shown(x),
{
    lemma_pow10_small();
    match x.format() {
        Format::Compact => {
            lemma_cut(x.mantissa, x.exponent % 3);
        },
        Format::Exponential => {},
    }
}

} // verus!
