//! Decimal text: digits with an optional point and more digits. How such a
//! text is read into a normalized quantity, and how a short one is written.

use crate::digits::{
    count_digits, digit_of, digits_value, fixed_digits, is_digit,
    is_digit_char, lemma_count_digits_bounds, lemma_count_digits_times_ten, lemma_digits_value_concat, lemma_digits_value_push,
    lemma_first_digit, lemma_fixed_digits, lemma_nat_digits, nat_digits, push_fixed, push_nat,
};
use crate::power::{
    lemma_pow10_adds, lemma_pow10_increases, lemma_pow10_small, lemma_pow10_unfold, pow10,
    power_of_ten,
};
use crate::quantity::Quantity;
use vstd::arithmetic::div_mod::*;
use vstd::arithmetic::mul::*;
use vstd::prelude::*;

verus! {

/// Where the run of digits that starts at `from` ends: the index of the first
/// character at or after `from` that is no digit, or the length of `s`.
pub open spec fn digit_run(s: Seq<char>, from: int) -> int
    decreases s.len() - from,
{
    if 0 <= from < s.len() && is_digit(s[from]) {
        digit_run(s, from + 1)
    } else {
        from
    }
}

/// Whether `s` is a decimal: one or more digits, optionally followed by a
/// point and one or more digits. No sign, no exponent, nothing else.
pub open spec fn is_decimal(s: Seq<char>) -> bool {
    let point: int = digit_run(s, 0);
    point > 0 && (point == s.len() || (s[point] == '.' && point + 1 < s.len() && digit_run(
        s,
        point + 1,
    ) == s.len()))
}

/// The digits of a decimal, with the point taken out.
pub open spec fn decimal_digits(s: Seq<char>) -> Seq<char> {
    let point: int = digit_run(s, 0);
    if point >= s.len() {
        s
    } else {
        s.take(point) + s.skip(point + 1)
    }
}

/// How many digits of a decimal stand behind the point.
pub open spec fn decimal_places(s: Seq<char>) -> nat {
    let point: int = digit_run(s, 0);
    if point >= s.len() {
        0
    } else {
        (s.len() - point - 1) as nat
    }
}

/// The seven leading digits of a positive number as a mantissa: the number
/// scaled by a power of ten into the range from one to ten, with what does not
/// fit in the millionths cut off.
pub open spec fn leading_mantissa(n: nat) -> nat {
    let count: nat = count_digits(n);
    if count <= 7 {
        n * pow10((7 - count) as nat)
    } else {
        n / pow10((count - 7) as nat)
    }
}

/// The normalized quantity that stands for `n * 10^shift`, with its mantissa
/// cut to seven digits. Its exponent is not held to any limit here.
pub open spec fn scaled(n: nat, shift: int) -> Quantity {
    if n == 0 {
        Quantity::zero()
    } else {
        Quantity { mantissa: leading_mantissa(n), exponent: count_digits(n) - 1 + shift }
    }
}

/// The quantity that the decimal `s` times `10^shift` stands for.
pub open spec fn decimal_quantity(s: Seq<char>, shift: int) -> Quantity {
    scaled(digits_value(decimal_digits(s)), shift - decimal_places(s))
}

/// The shortest text of `units / 10^places`: the whole part, then, unless the
/// fraction is zero, a point and the fraction without trailing zeros.
pub open spec fn decimal_text(units: nat, places: nat) -> Seq<char>
    decreases places,
{
    if places == 0 {
        nat_digits(units)
    } else if units % 10 == 0 {
        decimal_text(units / 10, (places - 1) as nat)
    } else {
        nat_digits(units / pow10(places)) + seq!['.'] + fixed_digits(units, places)
    }
}

/// A run of digits that is followed by no digit ends where it ends.
pub proof fn lemma_digit_run(s: Seq<char>, from: int, to: int)
    requires
        0 <= from <= to <= s.len(),
        forall|i: int| from <= i < to ==> is_digit(#[trigger] s[i]),
        to == s.len() || !is_digit(s[to]),
    ensures
        digit_run(s, from) == to,
    decreases to - from,
{
    if from < to {
        lemma_digit_run(s, from + 1, to);
    }
}

/// A run of digits holds digits only, and stops at the end or before a
/// character that is no digit.
pub proof fn lemma_digit_run_holds_digits(s: Seq<char>, from: int)
    requires
        0 <= from <= s.len(),
    ensures
        from <= digit_run(s, from) <= s.len(),
        forall|i: int| from <= i < digit_run(s, from) ==> is_digit(#[trigger] s[i]),
        digit_run(s, from) == s.len() || !is_digit(s[digit_run(s, from)]),
    decreases s.len() - from,
{
    if from < s.len() && is_digit(s[from]) {
        lemma_digit_run_holds_digits(s, from + 1);
    }
}

/// The mantissa of a positive number lies between one and ten.
pub proof fn lemma_leading_mantissa_bounds(n: nat)
    requires
        n > 0,
    ensures
        1_000_000 <= leading_mantissa(n) < 10_000_000,
{
    let count: nat = count_digits(n);
    lemma_count_digits_bounds(n);
    lemma_pow10_small();
    if count <= 7 {
        let up: nat = (7 - count) as nat;
        lemma_pow10_adds((count - 1) as nat, up);
        lemma_pow10_adds(count, up);
        lemma_pow10_unfold(up);
        lemma_mul_inequality(pow10((count - 1) as nat) as int, n as int, pow10(up) as int);
        lemma_mul_strict_inequality(n as int, pow10(count) as int, pow10(up) as int);
    } else {
        let down: nat = (count - 7) as nat;
        lemma_pow10_adds(6, down);
        lemma_pow10_adds(7, down);
        lemma_pow10_unfold(down);
        let d: int = pow10(down) as int;
        assert(pow10((count - 1) as nat) == 1_000_000 * d);
        assert(pow10(count) == 10_000_000 * d);
        lemma_div_is_ordered(1_000_000 * d, n as int, d);
        lemma_div_multiples_vanish(1_000_000, d);
        lemma_multiply_divide_lt(n as int, d, 10_000_000);
    }
}

/// Zeros written behind a number and taken off the shift again change nothing
/// of the quantity.
pub proof fn lemma_scaled_trailing_zeros(n: nat, zeros: nat, shift: int)
    ensures
        scaled(n * pow10(zeros), shift - zeros) == scaled(n, shift),
    decreases zeros,
{
    lemma_pow10_unfold(0);
    if zeros == 0 {
        assert(n * pow10(0) == n) by (nonlinear_arith)
            requires
                pow10(0) == 1,
        ;
    } else if n == 0 {
        assert(0 * pow10(zeros) == 0) by (nonlinear_arith);
    } else {
        let fewer: nat = (zeros - 1) as nat;
        let m: nat = n * pow10(fewer);
        lemma_pow10_unfold(fewer);
        assert(n * pow10(zeros) == 10 * m) by (nonlinear_arith)
            requires
                pow10(zeros) == 10 * pow10(fewer),
                m == n * pow10(fewer),
        ;
        assert(m > 0) by (nonlinear_arith)
            requires
                n > 0,
                pow10(fewer) > 0,
                m == n * pow10(fewer),
        ;
        lemma_scaled_trailing_zeros(n, fewer, shift - 1);
        lemma_scaled_times_ten(m, shift - zeros);
    }
}

/// Ten times a positive number, one power of ten lower, is the same quantity.
pub proof fn lemma_scaled_times_ten(m: nat, shift: int)
    requires
        m > 0,
    ensures
        scaled(10 * m, shift) == scaled(m, shift + 1),
{
    let count: nat = count_digits(m);
    lemma_count_digits_times_ten(m, 0);
    lemma_count_digits_bounds(m);
    assert(count_digits(10 * m) == count + 1);
    if count + 1 <= 7 {
        let up: nat = (7 - count - 1) as nat;
        lemma_pow10_unfold(up);
        assert(10 * m * pow10(up) == m * pow10(up + 1)) by (nonlinear_arith)
            requires
                pow10(up + 1) == 10 * pow10(up),
        ;
    } else if count == 7 {
        lemma_pow10_small();
        assert(10 * m / 10 == m);
        assert(m * pow10(0) == m) by (nonlinear_arith)
            requires
                pow10(0) == 1,
        ;
    } else {
        let down: nat = (count - 7) as nat;
        lemma_pow10_unfold(down);
        lemma_div_denominator(10 * m as int, 10, pow10(down) as int);
        assert(10 * m / 10 == m);
        assert(10 * pow10(down) == pow10(down + 1));
    }
}

/// What reading back a written decimal gives: the text is a decimal with at
/// most `places` digits behind the point, it denotes `units / 10^places`, and
/// it holds nothing but digits and at most one point.
pub proof fn lemma_decimal_text(units: nat, places: nat)
    ensures
        is_decimal(decimal_text(units, places)),
        decimal_places(decimal_text(units, places)) <= places,
        digits_value(decimal_digits(decimal_text(units, places))) * pow10(
            (places - decimal_places(decimal_text(units, places))) as nat,
        ) == units,
        forall|i: int|
            0 <= i < decimal_text(units, places).len() ==> is_digit(
                #[trigger] decimal_text(units, places)[i],
            ) || decimal_text(units, places)[i] == '.',
    decreases places,
{
    let text: Seq<char> = decimal_text(units, places);
    lemma_pow10_unfold(0);
    if places == 0 {
        lemma_nat_digits(units);
        lemma_first_digit(units);
        lemma_digit_run(text, 0, text.len() as int);
        assert(units * pow10(0) == units) by (nonlinear_arith)
            requires
                pow10(0) == 1,
        ;
    } else if units % 10 == 0 {
        let fewer: nat = (places - 1) as nat;
        lemma_decimal_text(units / 10, fewer);
        let behind: nat = decimal_places(text);
        let value: nat = digits_value(decimal_digits(text));
        let up: nat = (fewer - behind) as nat;
        lemma_pow10_unfold(up);
        assert(value * pow10(up + 1) == 10 * (value * pow10(up))) by (nonlinear_arith)
            requires
                pow10(up + 1) == 10 * pow10(up),
        ;
    } else {
        let whole: Seq<char> = nat_digits(units / pow10(places));
        let fraction: Seq<char> = fixed_digits(units, places);
        lemma_nat_digits(units / pow10(places));
        lemma_first_digit(units / pow10(places));
        lemma_fixed_digits(units, places);
        let point: int = whole.len() as int;
        assert(text =~= whole + seq!['.'] + fraction);
        assert(text[point] == '.');
        assert forall|i: int| 0 <= i < point implies is_digit(#[trigger] text[i]) by {
            assert(text[i] == whole[i]);
        }
        assert forall|i: int| point + 1 <= i < text.len() implies is_digit(#[trigger] text[i]) by {
            assert(text[i] == fraction[i - point - 1]);
        }
        lemma_digit_run(text, 0, point);
        lemma_digit_run(text, point + 1, text.len() as int);
        assert(text.take(point) =~= whole);
        assert(text.skip(point + 1) =~= fraction);
        lemma_digits_value_concat(whole, fraction);
        lemma_pow10_unfold(places);
        lemma_fundamental_div_mod(units as int, pow10(places) as int);
        lemma_mul_is_commutative(pow10(places) as int, (units / pow10(places)) as int);
        let value: nat = digits_value(whole + fraction);
        assert(value == units);
        assert(value * pow10(0) == value) by (nonlinear_arith)
            requires
                pow10(0) == 1,
        ;
    }
}

/// A decimal ends in a digit.
pub proof fn lemma_decimal_ends_in_digit(s: Seq<char>)
    requires
        is_decimal(s),
    ensures
        s.len() > 0,
        is_digit(s.last()),
{
    let point: int = digit_run(s, 0);
    lemma_digit_run_holds_digits(s, 0);
    if point < s.len() {
        lemma_digit_run_holds_digits(s, point + 1);
    }
}

/// Appends the shortest text of `units / 10^places` to `out`.
pub fn push_decimal(out: &mut String, units: u64, places: u32)
    requires
        places <= 19,
    ensures
        final(out)@ == old(out)@ + decimal_text(units as nat, places as nat),
{
    let mut left: u64 = units;
    let mut behind: u32 = places;
    while behind > 0 && left % 10 == 0
        invariant
            behind <= places,
            decimal_text(units as nat, places as nat) == decimal_text(left as nat, behind as nat),
        decreases behind,
    {
        left = left / 10;
        behind = behind - 1;
    }
    if behind == 0 {
        push_nat(out, left);
    } else {
        proof {
            crate::power::lemma_pow10_38();
            lemma_pow10_increases(behind as nat, 19);
            lemma_pow10_unfold(behind as nat);
            reveal_strlit(".");
        }
        let scale: u64 = power_of_ten(behind) as u64;
        push_nat(out, left / scale);
        out.append(".");
        push_fixed(out, left, behind);
        proof {
            assert(".".view() =~= seq!['.']);
            assert(final(out)@ =~= old(out)@ + decimal_text(left as nat, behind as nat));
        }
    }
}

/// What has been read of a number so far: the leading digits that a mantissa
/// keeps, and how many digits have followed the first one that is not zero.
pub open spec fn reads_as(value: nat, lead: nat, count: nat) -> bool {
    if value == 0 {
        lead == 0 && count == 0
    } else {
        &&& count == count_digits(value)
        &&& count <= 7 ==> lead == value
        &&& count > 7 ==> lead == value / pow10((count - 7) as nat)
    }
}

/// Reading one more digit.
pub proof fn lemma_reads_as_step(value: nat, lead: nat, count: nat, digit: nat)
    requires
        reads_as(value, lead, count),
        digit < 10,
    ensures
        count == 0 ==> reads_as(
            10 * value + digit,
            digit,
            if digit == 0 {
                0nat
            } else {
                1nat
            },
        ),
        0 < count < 7 ==> reads_as(10 * value + digit, 10 * lead + digit, count + 1),
        count >= 7 ==> reads_as(10 * value + digit, lead, count + 1),
        count <= 7 ==> lead < pow10(count),
        lead < 10_000_000,
{
    lemma_pow10_small();
    if value > 0 {
        lemma_count_digits_times_ten(value, digit);
        lemma_count_digits_bounds(value);
        assert((10 * value + digit) / 10 == value);
        if count <= 7 {
            lemma_pow10_increases(count, 7);
        }
        if count >= 7 {
            let down: nat = (count - 7) as nat;
            lemma_pow10_unfold(down);
            lemma_div_denominator((10 * value + digit) as int, 10, pow10(down) as int);
            assert(10 * pow10(down) == pow10(down + 1));
            if count > 7 {
                lemma_pow10_adds(7, down);
                lemma_multiply_divide_lt(value as int, pow10(down) as int, 10_000_000);
            }
        }
    }
}

/// A decimal as it was read: the mantissa of its value, zero for the value
/// zero, and the power of ten of its leading digit.
pub struct Reading {
    pub mantissa: u32,
    pub magnitude: i128,
}

impl Reading {
    /// The quantity that was read, times `10^shift`.
    pub open spec fn quantity(self, shift: int) -> Quantity {
        if self.mantissa == 0 {
            Quantity::zero()
        } else {
            Quantity { mantissa: self.mantissa as nat, exponent: self.magnitude + shift }
        }
    }
}

/// Reads the digits of `s` from `from` up to `to` on top of what was read
/// before them.
fn read_digits(
    s: &[char],
    from: usize,
    to: usize,
    lead: u32,
    count: usize,
    Ghost(seen): Ghost<Seq<char>>,
) -> (r: (u32, usize))
    requires
        from <= to <= s.len(),
        forall|i: int| from <= i < to ==> is_digit(#[trigger] s@[i]),
        reads_as(digits_value(seen), lead as nat, count as nat),
        count + (to - from) <= usize::MAX,
    ensures
        reads_as(digits_value(seen + s@.subrange(from as int, to as int)), r.0 as nat, r.1 as nat),
        r.1 <= count + (to - from),
{
    let mut lead: u32 = lead;
    let mut count: usize = count;
    let mut i: usize = from;
    let ghost start_count: usize = count;
    assert(seen + s@.subrange(from as int, from as int) =~= seen);
    while i < to
        invariant
            from <= i <= to <= s.len(),
            forall|j: int| from <= j < to ==> is_digit(#[trigger] s@[j]),
            reads_as(
                digits_value(seen + s@.subrange(from as int, i as int)),
                lead as nat,
                count as nat,
            ),
            count <= start_count + (i - from),
            start_count + (to - from) <= usize::MAX,
        decreases to - i,
    {
        let digit: u8 = digit_of(s[i]);
        proof {
            let before: Seq<char> = seen + s@.subrange(from as int, i as int);
            lemma_reads_as_step(digits_value(before), lead as nat, count as nat, digit as nat);
            lemma_digits_value_push(before, s@[i as int]);
            assert(seen + s@.subrange(from as int, i + 1) =~= before.push(s@[i as int]));
            lemma_pow10_small();
            if count < 7 {
                lemma_pow10_increases(count as nat, 6);
            }
        }
        if count == 0 {
            if digit != 0 {
                lead = digit as u32;
                count = 1;
            }
        } else if count < 7 {
            lead = 10 * lead + digit as u32;
            count = count + 1;
        } else {
            count = count + 1;
        }
        i = i + 1;
    }
    (lead, count)
}

/// Reads a decimal. Gives nothing unless `s` is a decimal.
pub fn read_decimal(s: &[char]) -> (r: Option<Reading>)
    ensures
        r is Some <==> is_decimal(s@),
        r matches Some(reading) ==> {
            &&& forall|shift: int| reading.quantity(shift) == decimal_quantity(s@, shift)
            &&& reading.mantissa == 0 || 1_000_000 <= reading.mantissa < 10_000_000
            &&& -s@.len() <= reading.magnitude <= s@.len()
        },
{
    let len: usize = s.len();
    let point: usize = skip_digits(s, 0);
    proof {
        lemma_digit_run_holds_digits(s@, 0);
    }
    if point == 0 {
        return None;
    }
    let mut places: usize = 0;
    if point < len {
        if s[point] != '.' || point + 1 >= len {
            return None;
        }
        let end: usize = skip_digits(s, point + 1);
        proof {
            lemma_digit_run_holds_digits(s@, point + 1);
        }
        if end < len {
            return None;
        }
        places = len - point - 1;
    }
    let whole: (u32, usize) = read_digits(s, 0, point, 0, 0, Ghost(Seq::empty()));
    let ghost first: Seq<char> = s@.subrange(0, point as int);
    assert(Seq::<char>::empty() + first =~= first);
    let (lead, count): (u32, usize) = if point < len {
        read_digits(s, point + 1, len, whole.0, whole.1, Ghost(first))
    } else {
        assert(s@.subrange(0, point as int) =~= s@);
        whole
    };
    proof {
        assert(s@.take(point as int) =~= first);
        if point < len {
            assert(s@.skip(point + 1) =~= s@.subrange(point + 1, len as int));
        }
        let value: nat = digits_value(decimal_digits(s@));
        assert(reads_as(value, lead as nat, count as nat));
        lemma_reads_as_step(value, lead as nat, count as nat, 0);
        lemma_pow10_small();
        if value > 0 {
            lemma_leading_mantissa_bounds(value);
        }
    }
    if count == 0 {
        return Some(Reading { mantissa: 0, magnitude: 0 });
    }
    let mantissa: u32 = if count < 7 {
        proof {
            lemma_pow10_increases((7 - count) as nat, 6);
        }
        let scale: u32 = power_of_ten((7 - count) as u32) as u32;
        assert(lead as nat * scale as nat == leading_mantissa(digits_value(decimal_digits(s@))));
        lead * scale
    } else {
        proof {
            if count == 7 {
                assert(lead as nat * pow10(0) == lead) by (nonlinear_arith)
                    requires
                        pow10(0) == 1,
                ;
            }
        }
        lead
    };
    let magnitude: i128 = count as i128 - 1 - places as i128;
    Some(Reading { mantissa, magnitude })
}

/// Finds where the run of digits that starts at `from` ends.
pub fn skip_digits(s: &[char], from: usize) -> (end: usize)
    requires
        from <= s.len(),
    ensures
        end == digit_run(s@, from as int),
        from <= end <= s.len(),
{
    let mut i: usize = from;
    while i < s.len() && is_digit_char(s[i])
        invariant
            from <= i <= s.len(),
            digit_run(s@, from as int) == digit_run(s@, i as int),
        decreases s.len() - i,
    {
        i = i + 1;
    }
    i
}

} // verus!
