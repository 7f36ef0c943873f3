use graphing_calculator::big_number::{BigNumber, BigVec2};
use graphing_calculator::error::NumberError;
use graphing_calculator::format::Format;
use graphing_calculator::quantity::{MANTISSA_ONE, MAX_EXPONENT, MIN_EXPONENT};

fn from_float(value: f32) -> BigNumber {
    assert!(value.is_finite());
    BigNumber::new_d(value.to_bits())
}

fn parts(number: &BigNumber) -> (u32, i32, Format) {
    (number.mantissa(), number.exponent(), number.display_format())
}

#[test]
fn from_float_five() {
    let five = from_float(5.0);
    assert_eq!(parts(&five), (5_000_000, 0, Format::Compact));
    assert_eq!(five.get_value(), "5");
}

#[test]
fn from_float_twelve_thousand() {
    let number = from_float(12345.0);
    assert_eq!(parts(&number), (1_234_500, 4, Format::Compact));
    assert_eq!(number.get_value(), "12.3K");
}

#[test]
fn multiply_five_by_four_hundred_thousand() {
    let product = from_float(5.0).multiply(from_float(400000.0));
    assert_eq!(parts(&product), (2_000_000, 6, Format::Compact));
    assert_eq!(product.get_value(), "2M");
    let scaled = from_float(5.0).multiply_scalar(400000.0f32.to_bits());
    assert_eq!(scaled, product);
}

#[test]
fn parse_exponential_text() {
    let number = BigNumber::parse("1.5x10^30").unwrap();
    assert_eq!(parts(&number), (1_500_000, 30, Format::Exponential));
    assert_eq!(BigNumber::new("1.5x10^30", Format::Exponential), Ok(number));
}

#[test]
fn parse_unknown_suffix() {
    assert_eq!(BigNumber::parse("1.5ZZ"), Err(NumberError::UnknownSuffix));
    assert_eq!(BigNumber::parse("1.5k"), Err(NumberError::UnknownSuffix));
    assert_eq!(BigNumber::parse("abc"), Err(NumberError::UnknownSuffix));
    assert_eq!(BigNumber::parse("x5KM"), Err(NumberError::UnknownSuffix));
}

#[test]
fn shift_five_by_twenty_nine() {
    let mut number = from_float(5.0);
    assert_eq!(number.increase_power(29), Some(true));
    assert_eq!(parts(&number), (5_000_000, 29, Format::Exponential));
    assert_eq!(number.get_value(), "5x10^29");
}

#[test]
fn from_float_zero_is_the_sentinel() {
    let zero = from_float(0.0);
    assert_eq!(parts(&zero), (0, 0, Format::Compact));
    assert_eq!(zero, BigNumber::zero());
    assert_eq!(zero.get_value(), "0");
    assert_eq!(from_float(-0.0), zero);
}

#[test]
fn from_float_below_ten_keeps_exponent_zero() {
    assert_eq!(parts(&from_float(1.0)), (MANTISSA_ONE, 0, Format::Compact));
    assert_eq!(parts(&from_float(9.5)), (9_500_000, 0, Format::Compact));
    assert_eq!(parts(&from_float(4.7)), (4_700_000, 0, Format::Compact));
    assert_eq!(from_float(4.7).get_value(), "4.7");
}

#[test]
fn from_float_below_one_is_normalized() {
    assert_eq!(parts(&from_float(0.5)), (5_000_000, -1, Format::Exponential));
    assert_eq!(from_float(0.5).get_value(), "5x10^-1");
    assert_eq!(parts(&from_float(0.1)), (1_000_000, -1, Format::Exponential));
    assert_eq!(parts(&from_float(0.00123)), (1_230_000, -3, Format::Exponential));
}

#[test]
fn from_float_takes_the_absolute_value() {
    assert_eq!(from_float(-12345.0), from_float(12345.0));
}

#[test]
fn from_float_at_the_ends_of_the_range() {
    assert_eq!(parts(&from_float(f32::MAX)), (3_402_823, 38, Format::Exponential));
    assert_eq!(parts(&from_float(f32::MIN_POSITIVE)), (1_175_494, -38, Format::Exponential));
    assert_eq!(parts(&from_float(f32::from_bits(1))), (1_401_298, -45, Format::Exponential));
    assert_eq!(parts(&from_float(16_777_216.0)), (1_677_722, 7, Format::Compact));
    assert_eq!(parts(&from_float(1.0e10)), (1_000_000, 10, Format::Compact));
    assert_eq!(parts(&from_float(1.0e-10)), (1_000_000, -10, Format::Exponential));
    assert_eq!(parts(&from_float(8_388_607.5)), (8_388_608, 6, Format::Compact));
}

#[test]
fn from_float_rounding_can_reach_the_next_decade() {
    // 9999999.5 is a float; rounded to seven digits it is ten million.
    assert_eq!(parts(&from_float(9_999_999.5)), (1_000_000, 7, Format::Compact));
    assert_eq!(parts(&from_float(99_999_992.0)), (9_999_999, 7, Format::Compact));
    assert_eq!(parts(&from_float(99_999_999.0)), (1_000_000, 8, Format::Compact));
}

#[test]
fn format_boundary() {
    assert_eq!(BigNumber::parse("1x10^26").unwrap().display_format(), Format::Compact);
    assert_eq!(BigNumber::parse("1x10^27").unwrap().display_format(), Format::Exponential);
    assert_eq!(BigNumber::parse("1x10^0").unwrap().display_format(), Format::Compact);
    assert_eq!(BigNumber::parse("1x10^-1").unwrap().display_format(), Format::Exponential);
    assert_eq!(BigNumber::parse("999SP").unwrap().display_format(), Format::Compact);
    assert_eq!(BigNumber::parse("1000SP").unwrap().display_format(), Format::Exponential);
    let mut number = BigNumber::parse("1x10^26").unwrap();
    assert_eq!(number.get_value(), "100SP");
    number.increase_power(1);
    assert_eq!(number.display_format(), Format::Exponential);
    assert_eq!(number.get_value(), "1x10^27");
    number.decrease_power(28);
    assert_eq!(number.display_format(), Format::Exponential);
    assert_eq!(number.get_value(), "1x10^-1");
}

#[test]
fn compact_text_of_each_tier() {
    let suffixes = ["", "K", "M", "B", "T", "QD", "QN", "SX", "SP"];
    for (tier, suffix) in suffixes.iter().enumerate() {
        let mut number = from_float(1.5);
        number.increase_power(3 * tier as i32);
        assert_eq!(number.get_value(), format!("1.5{}", suffix));
        number.increase_power(1);
        assert_eq!(number.get_value(), format!("15{}", suffix));
        number.increase_power(1);
        assert_eq!(number.get_value(), format!("150{}", suffix));
    }
}

#[test]
fn text_is_cut_and_not_rounded() {
    assert_eq!(BigNumber::parse("9.99").unwrap().get_value(), "9.9");
    assert_eq!(BigNumber::parse("999.99K").unwrap().get_value(), "999.9K");
    assert_eq!(BigNumber::parse("1.999x10^40").unwrap().get_value(), "1.99x10^40");
    assert_eq!(BigNumber::parse("1.05x10^40").unwrap().get_value(), "1.05x10^40");
    assert_eq!(BigNumber::parse("1.50x10^40").unwrap().get_value(), "1.5x10^40");
    assert_eq!(BigNumber::parse("1.009x10^40").unwrap().get_value(), "1x10^40");
    assert_eq!(BigNumber::parse("10.04").unwrap().get_value(), "10");
}

#[test]
fn round_trip() {
    let texts = [
        "0", "5", "9.9", "12.3K", "999.9K", "2M", "1.5B", "100T", "7QD", "33.3QN", "1SX", "100SP",
        "5x10^29", "1.5x10^30", "1.05x10^-7", "9.99x10^2147483647", "1x10^-1500000000",
        "1x10^-2147483648",
    ];
    for text in texts {
        let number = BigNumber::parse(text).unwrap();
        assert_eq!(number.get_value(), text);
        assert_eq!(BigNumber::parse(&number.get_value()), Ok(number));
        assert_eq!(BigNumber::new(&number.get_value(), number.display_format()), Ok(number));
    }
    let long = from_float(12345.678);
    let back = BigNumber::parse(&long.get_value()).unwrap();
    assert_eq!(parts(&long), (1_234_568, 4, Format::Compact));
    assert_eq!(parts(&back), (1_230_000, 4, Format::Compact));
    assert!(long.mantissa() - back.mantissa() < 100_000);
    assert_eq!(back.get_value(), long.get_value());
}

#[test]
fn parse_compact_texts() {
    assert_eq!(parts(&BigNumber::parse("12.3K").unwrap()), (1_230_000, 4, Format::Compact));
    assert_eq!(parts(&BigNumber::parse("0.5").unwrap()), (5_000_000, -1, Format::Exponential));
    assert_eq!(parts(&BigNumber::parse("0.05K").unwrap()), (5_000_000, 1, Format::Compact));
    assert_eq!(parts(&BigNumber::parse("0012").unwrap()), (1_200_000, 1, Format::Compact));
    assert_eq!(parts(&BigNumber::parse("1234567891").unwrap()), (1_234_567, 9, Format::Compact));
    assert_eq!(parts(&BigNumber::parse("0.000").unwrap()), (0, 0, Format::Compact));
    assert_eq!(parts(&BigNumber::parse("0K").unwrap()), (0, 0, Format::Compact));
    assert_eq!(parts(&BigNumber::parse("1SP").unwrap()), (1_000_000, 24, Format::Compact));
    assert_eq!(
        parts(&BigNumber::new("2QD", Format::Compact).unwrap()),
        (2_000_000, 15, Format::Compact)
    );
}

#[test]
fn parse_exponential_texts() {
    assert_eq!(parts(&BigNumber::parse("15x10^3").unwrap()), (1_500_000, 4, Format::Compact));
    assert_eq!(parts(&BigNumber::parse("0.015x10^3").unwrap()), (1_500_000, 1, Format::Compact));
    assert_eq!(parts(&BigNumber::parse("0x10^5").unwrap()), (0, 0, Format::Compact));
    assert_eq!(
        parts(&BigNumber::parse("0x10^99999999999999999999999999999999999999999").unwrap()),
        (0, 0, Format::Compact)
    );
    assert_eq!(
        parts(&BigNumber::parse("1x10^-0005").unwrap()),
        (1_000_000, -5, Format::Exponential)
    );
    assert_eq!(
        parts(&BigNumber::parse("10x10^2147483646").unwrap()),
        (1_000_000, MAX_EXPONENT, Format::Exponential)
    );
    assert_eq!(
        parts(&BigNumber::parse("0.1x10^-2147483647").unwrap()),
        (1_000_000, MIN_EXPONENT, Format::Exponential)
    );
}

#[test]
fn parse_invalid_mantissa() {
    for text in ["", ".5", "5.", "-5", "+5", "1.2.3", "1e5", "1 K", "K", " 5", "5 ", "1,5", "٣"] {
        assert_eq!(BigNumber::parse(text), Err(NumberError::InvalidMantissa), "{:?}", text);
    }
    for text in ["x10^5", ".5x10^5", "-1x10^5", "1.x10^5", "ax10^b"] {
        assert_eq!(BigNumber::parse(text), Err(NumberError::InvalidMantissa), "{:?}", text);
    }
    assert_eq!(BigNumber::new("5K", Format::Exponential), Err(NumberError::InvalidMantissa));
}

#[test]
fn parse_invalid_exponent() {
    for text in [
        "1x10^", "1x10^a", "1x10^+5", "1x10^-", "1x10^5.0", "1x10^2x10^3", "1x10^ 5",
        "1x10^2147483648", "10x10^2147483647", "1x10^-2147483649", "0.1x10^-2147483648",
        "1x10^99999999999999999999999999999999999999999",
        "1x10^-99999999999999999999999999999999999999999",
    ] {
        assert_eq!(BigNumber::parse(text), Err(NumberError::InvalidExponent), "{:?}", text);
    }
    assert_eq!(BigNumber::new("5", Format::Exponential), Err(NumberError::InvalidExponent));
}

#[test]
fn format_is_detected_by_the_separator() {
    assert_eq!(BigNumber::new("1x10^3", Format::Compact), Err(NumberError::InvalidMantissa));
    assert_eq!(BigNumber::parse("1x10^3").unwrap().get_value(), "1K");
    assert_eq!(BigNumber::parse("1X10^3"), Err(NumberError::InvalidMantissa));
}

#[test]
fn shift_keeps_the_mantissa() {
    let mut number = from_float(12345.0);
    assert_eq!(number.increase_power(0), Some(true));
    assert_eq!(parts(&number), (1_234_500, 4, Format::Compact));
    assert_eq!(number.increase_power(100), Some(true));
    assert_eq!(parts(&number), (1_234_500, 104, Format::Exponential));
    assert_eq!(number.decrease_power(104), Some(true));
    assert_eq!(parts(&number), (1_234_500, 0, Format::Compact));
    assert_eq!(number.decrease_power(1), Some(true));
    assert_eq!(number.decrease_power(i32::MIN), Some(true));
    assert_eq!(number.exponent(), MAX_EXPONENT);
    assert_eq!(number.decrease_power(i32::MAX), Some(true));
    assert_eq!(parts(&number), (1_234_500, 0, Format::Compact));
}

#[test]
fn shift_is_additive() {
    for (m, n) in [(3, 4), (-3, 4), (30, -30), (0, 7), (-1000, 999), (i32::MAX, i32::MIN)] {
        let mut twice = from_float(2.5);
        twice.increase_power(m);
        twice.increase_power(n);
        let mut once = from_float(2.5);
        once.increase_power((m as i64 + n as i64) as i32);
        assert_eq!(twice, once);
    }
}

#[test]
fn shift_of_zero_stays_zero() {
    let mut zero = BigNumber::zero();
    assert_eq!(zero.increase_power(1000), Some(true));
    assert_eq!(zero, BigNumber::zero());
    assert_eq!(zero.decrease_power(i32::MAX), Some(true));
    assert_eq!(zero, BigNumber::zero());
}

#[test]
fn shift_below_the_floor_gives_zero() {
    let mut number = from_float(5.0);
    assert_eq!(number.increase_power(MIN_EXPONENT), Some(true));
    assert_eq!(number.exponent(), MIN_EXPONENT);
    assert_eq!(number.decrease_power(1), Some(true));
    assert_eq!(number, BigNumber::zero());
}

#[test]
fn shift_past_the_ceiling_changes_nothing() {
    let mut number = from_float(5.0);
    assert_eq!(number.increase_power(MAX_EXPONENT), Some(true));
    assert_eq!(number.exponent(), MAX_EXPONENT);
    let before = number;
    assert_eq!(number.increase_power(1), None);
    assert_eq!(number, before);
    assert_eq!(number.decrease_power(-1), None);
    assert_eq!(number, before);
}

#[test]
fn multiply_by_one_changes_nothing() {
    let one = from_float(1.0);
    for text in ["0", "5", "12.3K", "9.99x10^40", "1.05x10^-7"] {
        let number = BigNumber::parse(text).unwrap();
        assert_eq!(number.multiply(one), number);
        assert_eq!(one.multiply(number), number);
        assert_eq!(number.multiply_scalar(1.0f32.to_bits()), number);
    }
}

#[test]
fn multiply_adds_exponents_and_carries_once() {
    let product = from_float(3.0).multiply(from_float(3.0));
    assert_eq!(parts(&product), (9_000_000, 0, Format::Compact));
    let product = from_float(2.0).multiply(from_float(5.0));
    assert_eq!(parts(&product), (1_000_000, 1, Format::Compact));
    let product = from_float(9.5).multiply(from_float(9.5));
    assert_eq!(parts(&product), (9_025_000, 1, Format::Compact));
    let a = BigNumber::parse("3.3x10^20").unwrap();
    let b = BigNumber::parse("3.3x10^-50").unwrap();
    assert_eq!(parts(&a.multiply(b)), (1_089_000, -29, Format::Exponential));
    let c = BigNumber::parse("3.162277").unwrap();
    assert_eq!(parts(&c.multiply(c)), (9_999_995, 0, Format::Compact));
    let d = BigNumber::parse("3.162278").unwrap();
    assert_eq!(parts(&d.multiply(d)), (1_000_000, 1, Format::Compact));
}

#[test]
fn multiply_by_zero_gives_zero() {
    let zero = BigNumber::zero();
    let big = BigNumber::parse("9x10^2147483647").unwrap();
    assert_eq!(zero.multiply(big), zero);
    assert_eq!(big.multiply(zero), zero);
    assert_eq!(big.multiply_scalar(0.0f32.to_bits()), zero);
}

#[test]
fn multiply_far_below_one() {
    let small = BigNumber::parse("1x10^-600000000").unwrap();
    assert_eq!(
        parts(&small.multiply(small)),
        (1_000_000, -1_200_000_000, Format::Exponential)
    );
    let edge = BigNumber::parse("2x10^-1073741824").unwrap();
    assert_eq!(parts(&edge.multiply(edge)), (4_000_000, MIN_EXPONENT, Format::Exponential));
    let a = BigNumber::parse("5x10^-1073741825").unwrap();
    let b = BigNumber::parse("5x10^-1073741824").unwrap();
    assert_eq!(parts(&a.multiply(b)), (2_500_000, MIN_EXPONENT, Format::Exponential));
}

#[test]
fn multiply_below_the_floor_gives_zero() {
    let small = BigNumber::parse("2x10^-1500000000").unwrap();
    assert_eq!(small.multiply(small), BigNumber::zero());
    let a = BigNumber::parse("2x10^-1073741825").unwrap();
    let b = BigNumber::parse("2x10^-1073741824").unwrap();
    assert_eq!(a.multiply(b), BigNumber::zero());
}

#[test]
fn the_floor_is_the_lowest_exponent() {
    assert_eq!(MIN_EXPONENT, i32::MIN);
    assert_eq!(MAX_EXPONENT, i32::MAX);
    let lowest = BigNumber::parse("1x10^-2147483648").unwrap();
    assert_eq!(parts(&lowest), (1_000_000, i32::MIN, Format::Exponential));
    assert_eq!(lowest.get_value(), "1x10^-2147483648");
}

#[test]
fn multiply_scalar_scales() {
    let number = BigNumber::parse("12K").unwrap();
    assert_eq!(number.multiply_scalar(0.5f32.to_bits()).get_value(), "6K");
    assert_eq!(number.multiply_scalar(1000.0f32.to_bits()).get_value(), "12M");
    assert_eq!(number.multiply_scalar(2.5f32.to_bits()).get_value(), "30K");
}

#[test]
fn coordinates_hold_two_numbers() {
    let point = BigVec2 { x: from_float(0.0), y: from_float(12345.0) };
    let copy = point;
    assert_eq!(copy.x, BigNumber::zero());
    assert_eq!(copy.y.get_value(), "12.3K");
    assert_eq!(copy, point);
}
