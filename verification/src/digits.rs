//! Decimal digit strings: what they denote and how they are written.

use crate::power::{lemma_pow10_increases, lemma_pow10_small, lemma_pow10_unfold, pow10};
use vstd::arithmetic::div_mod::*;
use vstd::prelude::*;

verus! {

/// Whether `c` is one of the ten ASCII digits.
pub open spec fn is_digit(c: char) -> bool {
    48 <= c as u32 && c as u32 <= 57
}

/// The number that a digit stands for; zero for any other character.
pub open spec fn digit_value(c: char) -> nat {
    if is_digit(c) {
        (c as u32 - 48) as nat
    } else {
        0
    }
}

/// The digit that stands for `d`, for `d` below ten.
pub open spec fn digit_char(d: nat) -> char {
    if d == 0 {
        '0'
    } else if d == 1 {
        '1'
    } else if d == 2 {
        '2'
    } else if d == 3 {
        '3'
    } else if d == 4 {
        '4'
    } else if d == 5 {
        '5'
    } else if d == 6 {
        '6'
    } else if d == 7 {
        '7'
    } else if d == 8 {
        '8'
    } else {
        '9'
    }
}

/// Whether every character of `s` is a digit.
pub open spec fn all_digits(s: Seq<char>) -> bool {
    forall|i: int| 0 <= i < s.len() ==> is_digit(#[trigger] s[i])
}

/// The number that a string of digits denotes, most significant digit first.
/// The empty string denotes zero.
pub open spec fn digits_value(s: Seq<char>) -> nat
    decreases s.len(),
{
    if s.len() == 0 {
        0
    } else {
        10 * digits_value(s.drop_last()) + digit_value(s.last())
    }
}

/// How many decimal digits `n` has; zero has one.
pub open spec fn count_digits(n: nat) -> nat
    decreases n,
{
    if n < 10 {
        1
    } else {
        1 + count_digits(n / 10)
    }
}

/// The digits of `n`, without leading zeros; zero is written `0`.
pub open spec fn nat_digits(n: nat) -> Seq<char>
    decreases n,
{
    if n < 10 {
        seq![digit_char(n)]
    } else {
        nat_digits(n / 10).push(digit_char(n % 10))
    }
}

/// The last `width` digits of `n`, with leading zeros where `n` has fewer.
pub open spec fn fixed_digits(n: nat, width: nat) -> Seq<char>
    decreases width,
{
    if width == 0 {
        Seq::empty()
    } else {
        fixed_digits(n / 10, (width - 1) as nat).push(digit_char(n % 10))
    }
}

/// The text of an integer: a minus sign for a negative one, then its digits.
pub open spec fn int_digits(n: int) -> Seq<char> {
    if n < 0 {
        seq!['-'] + nat_digits((-n) as nat)
    } else {
        nat_digits(n as nat)
    }
}

/// Whether `s` is an integer in text form: an optional minus sign and at
/// least one digit.
pub open spec fn is_integer(s: Seq<char>) -> bool {
    if s.len() > 0 && s[0] == '-' {
        s.len() > 1 && all_digits(s.skip(1))
    } else {
        s.len() > 0 && all_digits(s)
    }
}

/// The integer that a text accepted by `is_integer` denotes.
pub open spec fn integer_value(s: Seq<char>) -> int {
    if s.len() > 0 && s[0] == '-' {
        -(digits_value(s.skip(1)) as int)
    } else {
        digits_value(s) as int
    }
}

/// The largest magnitude that reading an integer keeps apart. An integer
/// beyond it, on either side, is read as this limit with its sign.
pub const EXPONENT_TEXT_LIMIT: i128 = 1_000_000_000_000_000_000_000_000_000_000;

/// `n` held between the limits of reading.
pub open spec fn within_text_limit(n: int) -> int {
    if n > EXPONENT_TEXT_LIMIT {
        EXPONENT_TEXT_LIMIT as int
    } else if n < -EXPONENT_TEXT_LIMIT {
        -EXPONENT_TEXT_LIMIT
    } else {
        n
    }
}

/// A digit character and its value determine each other.
pub proof fn lemma_digit_char(d: nat)
    requires
        d < 10,
    ensures
        is_digit(digit_char(d)),
        digit_value(digit_char(d)) == d,
        digit_char(d) != '.',
        digit_char(d) != '-',
{
}

/// Appending one digit multiplies the value by ten and adds the digit.
pub proof fn lemma_digits_value_push(s: Seq<char>, c: char)
    ensures
        digits_value(s.push(c)) == 10 * digits_value(s) + digit_value(c),
{
    assert(s.push(c).drop_last() =~= s);
}

/// The value of two digit strings written one after the other.
pub proof fn lemma_digits_value_concat(a: Seq<char>, b: Seq<char>)
    ensures
        digits_value(a + b) == digits_value(a) * pow10(b.len()) + digits_value(b),
    decreases b.len(),
{
    let value: nat = digits_value(a);
    if b.len() == 0 {
        assert(a + b =~= a);
        lemma_pow10_unfold(0);
        assert(value * pow10(0) == value) by (nonlinear_arith)
            requires
                pow10(0) == 1,
        ;
    } else {
        let front: Seq<char> = b.drop_last();
        assert(a + b =~= (a + front).push(b.last()));
        lemma_digits_value_push(a + front, b.last());
        lemma_digits_value_concat(a, front);
        lemma_pow10_unfold(front.len());
        let step: nat = pow10(front.len());
        assert(b.len() == front.len() + 1);
        assert(value * pow10(b.len()) == 10 * (value * step)) by (nonlinear_arith)
            requires
                pow10(b.len()) == 10 * step,
        ;
    }
}

/// A number with `c` digits lies between `10^(c-1)` and `10^c`.
pub proof fn lemma_count_digits_bounds(n: nat)
    ensures
        count_digits(n) >= 1,
        n < pow10(count_digits(n)),
        n > 0 ==> pow10((count_digits(n) - 1) as nat) <= n,
    decreases n,
{
    lemma_pow10_small();
    if n >= 10 {
        lemma_count_digits_bounds(n / 10);
        lemma_pow10_unfold(count_digits(n / 10));
        lemma_pow10_unfold((count_digits(n / 10) - 1) as nat);
    }
}

/// A number between `10^k` and `10^(k+1)` has `k + 1` digits.
pub proof fn lemma_count_digits_from_bounds(n: nat, k: nat)
    requires
        pow10(k) <= n < pow10(k + 1),
    ensures
        count_digits(n) == k + 1,
{
    lemma_count_digits_bounds(n);
    let c: nat = count_digits(n);
    lemma_pow10_unfold(k);
    if c < k + 1 {
        lemma_pow10_increases(c, k);
    } else if c > k + 1 {
        lemma_pow10_increases(k + 1, (c - 1) as nat);
    }
}

/// Ten times a positive number has one digit more.
pub proof fn lemma_count_digits_times_ten(n: nat, d: nat)
    requires
        n > 0,
        d < 10,
    ensures
        count_digits(10 * n + d) == count_digits(n) + 1,
{
    assert((10 * n + d) / 10 == n);
}

/// The digits of a number are digits, as many as it has, and denote it.
pub proof fn lemma_nat_digits(n: nat)
    ensures
        all_digits(nat_digits(n)),
        nat_digits(n).len() == count_digits(n),
        digits_value(nat_digits(n)) == n,
    decreases n,
{
    if n < 10 {
        lemma_digit_char(n);
        let s: Seq<char> = seq![digit_char(n)];
        assert(s.drop_last() =~= Seq::<char>::empty());
        assert(digits_value(s.drop_last()) == 0);
    } else {
        lemma_nat_digits(n / 10);
        lemma_digit_char(n % 10);
        lemma_digits_value_push(nat_digits(n / 10), digit_char(n % 10));
    }
}

/// The fixed-width digits of a number are digits, `width` of them, and denote
/// the number modulo `10^width`.
pub proof fn lemma_fixed_digits(n: nat, width: nat)
    ensures
        all_digits(fixed_digits(n, width)),
        fixed_digits(n, width).len() == width,
        digits_value(fixed_digits(n, width)) == n % pow10(width),
    decreases width,
{
    lemma_pow10_unfold(0);
    if width > 0 {
        let rest: nat = (width - 1) as nat;
        lemma_fixed_digits(n / 10, rest);
        lemma_digit_char(n % 10);
        lemma_digits_value_push(fixed_digits(n / 10, rest), digit_char(n % 10));
        lemma_pow10_unfold(rest);
        lemma_breakdown(n as int, 10, pow10(rest) as int);
        assert(10 * pow10(rest) == pow10(width));
        assert(pow10(rest) * 10 == pow10(width));
    }
}

/// Reading back the text of an integer gives the integer.
pub proof fn lemma_int_digits(n: int)
    ensures
        is_integer(int_digits(n)),
        integer_value(int_digits(n)) == n,
{
    if n < 0 {
        let m: nat = (-n) as nat;
        lemma_nat_digits(m);
        assert(int_digits(n).skip(1) =~= nat_digits(m));
    } else {
        lemma_nat_digits(n as nat);
        lemma_count_digits_bounds(n as nat);
        lemma_first_digit(n as nat);
    }
}

/// The text of a number starts with a digit.
pub proof fn lemma_first_digit(n: nat)
    ensures
        nat_digits(n).len() > 0,
        is_digit(nat_digits(n)[0]),
    decreases n,
{
    lemma_nat_digits(n);
    lemma_count_digits_bounds(n);
}

/// Tells whether a character is a digit.
pub fn is_digit_char(c: char) -> (b: bool)
    ensures
        b == is_digit(c),
{
    let code: u32 = c as u32;
    48 <= code && code <= 57
}

/// The value of a digit character.
pub fn digit_of(c: char) -> (d: u8)
    requires
        is_digit(c),
    ensures
        d == digit_value(c),
        d < 10,
{
    let code: u32 = c as u32;
    (code - 48) as u8
}

/// The one-character text of a digit.
pub fn digit_text(d: u8) -> (text: &'static str)
    requires
        d < 10,
    ensures
        text@ == seq![digit_char(d as nat)],
{
    proof {
        reveal_strlit("0");
        reveal_strlit("1");
        reveal_strlit("2");
        reveal_strlit("3");
        reveal_strlit("4");
        reveal_strlit("5");
        reveal_strlit("6");
        reveal_strlit("7");
        reveal_strlit("8");
        reveal_strlit("9");
    }
    let text: &'static str = if d == 0 {
        "0"
    } else if d == 1 {
        "1"
    } else if d == 2 {
        "2"
    } else if d == 3 {
        "3"
    } else if d == 4 {
        "4"
    } else if d == 5 {
        "5"
    } else if d == 6 {
        "6"
    } else if d == 7 {
        "7"
    } else if d == 8 {
        "8"
    } else {
        "9"
    };
    assert(text@ =~= seq![digit_char(d as nat)]);
    text
}

/// Reads an integer in text form. Gives nothing unless `s` is one. A value
/// beyond `EXPONENT_TEXT_LIMIT` comes back as the limit with its sign.
pub fn read_integer(s: &[char]) -> (r: Option<i128>)
    ensures
        r is Some <==> is_integer(s@),
        r matches Some(n) ==> n == within_text_limit(integer_value(s@)),
{
    let len: usize = s.len();
    if len == 0 {
        return None;
    }
    let negative: bool = s[0] == '-';
    let start: usize = if negative {
        1
    } else {
        0
    };
    if start >= len {
        return None;
    }
    let ghost body: Seq<char> = s@.subrange(start as int, len as int);
    proof {
        if negative {
            assert(s@.skip(1) =~= body);
        } else {
            assert(s@ =~= body);
        }
    }
    let mut value: i128 = 0;
    let mut i: usize = start;
    while i < len
        invariant
            start <= i <= len == s.len(),
            body == s@.subrange(start as int, len as int),
            negative == (s@[0] == '-'),
            negative ==> s@.skip(1) == body,
            !negative ==> s@ == body,
            forall|j: int| start <= j < i ==> is_digit(#[trigger] s@[j]),
            0 <= value <= EXPONENT_TEXT_LIMIT,
            value == within_text_limit(digits_value(s@.subrange(start as int, i as int)) as int),
        decreases len - i,
    {
        if !is_digit_char(s[i]) {
            proof {
                assert(!is_digit(body[i - start]));
            }
            return None;
        }
        let digit: u8 = digit_of(s[i]);
        proof {
            let before: Seq<char> = s@.subrange(start as int, i as int);
            lemma_digits_value_push(before, s@[i as int]);
            assert(s@.subrange(start as int, i + 1) =~= before.push(s@[i as int]));
        }
        if value >= EXPONENT_TEXT_LIMIT / 10 {
            value = EXPONENT_TEXT_LIMIT;
        } else {
            value = value * 10 + digit as i128;
        }
        i = i + 1;
    }
    proof {
        assert(s@.subrange(start as int, len as int) =~= body);
        assert forall|j: int| 0 <= j < body.len() implies is_digit(#[trigger] body[j]) by {
            assert(body[j] == s@[j + start]);
        }
    }
    if negative {
        Some(-value)
    } else {
        Some(value)
    }
}

/// Appends the digits of `n` to `out`.
pub fn push_nat(out: &mut String, n: u64)
    ensures
        final(out)@ == old(out)@ + nat_digits(n as nat),
    decreases n,
{
    if n >= 10 {
        push_nat(out, n / 10);
    }
    out.append(digit_text((n % 10) as u8));
    proof {
        if n >= 10 {
            assert(final(out)@ =~= old(out)@ + nat_digits(n as nat));
        }
    }
}

/// Appends the last `width` digits of `n` to `out`, with leading zeros.
pub fn push_fixed(out: &mut String, n: u64, width: u32)
    ensures
        final(out)@ == old(out)@ + fixed_digits(n as nat, width as nat),
    decreases width,
{
    if width > 0 {
        push_fixed(out, n / 10, width - 1);
        out.append(digit_text((n % 10) as u8));
        proof {
            assert(final(out)@ =~= old(out)@ + fixed_digits(n as nat, width as nat));
        }
    } else {
        assert(final(out)@ =~= old(out)@ + fixed_digits(n as nat, width as nat));
    }
}

/// Appends the text of the integer `n` to `out`.
pub fn push_int(out: &mut String, n: i32)
    ensures
        final(out)@ == old(out)@ + int_digits(n as int),
{
    if n < 0 {
        proof {
            reveal_strlit("-");
        }
        out.append("-");
        let magnitude: u64 = (-(n as i64)) as u64;
        push_nat(out, magnitude);
        assert(final(out)@ =~= old(out)@ + int_digits(n as int));
    } else {
        push_nat(out, n as u64);
    }
}

} // verus!
