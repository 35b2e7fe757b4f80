use r_int::{ParseError, RInt};

#[test]
fn round_trip_positive() {
    let r = RInt::from_str("2147483647").unwrap();

    assert_eq!(r.bits, 0x7FFF_FFFF);
    assert_eq!(r.to_string(), "2147483647");
}

#[test]
fn round_trip_negative() {
    let r = RInt::from_str("-2147483648").unwrap();

    assert_eq!(r.bits, 0x8000_0000);
    assert_eq!(r.to_string(), "-2147483648");
}

#[test]
fn plus_sign_is_dropped_on_render() {
    let r = RInt::from_str("+42").unwrap();

    assert_eq!(r.bits, 42);
    assert_eq!(r.to_string(), "42");
}

#[test]
fn fraction_is_truncated() {
    let a = RInt::from_str("5.999").unwrap();
    let b = RInt::from_str("5").unwrap();

    assert_eq!(a.bits, b.bits);
}

#[test]
fn fraction_digits_may_be_absent() {
    let r = RInt::from_str("5.").unwrap();

    assert_eq!(r.bits, 5);
}

#[test]
fn empty_string_is_zero() {
    let r = RInt::from_str("").unwrap();

    assert_eq!(r.bits, 0);
}

#[test]
fn minus_zero_is_zero() {
    let r = RInt::from_str("-0").unwrap();

    assert_eq!(r.bits, 0);
    assert_eq!(r.to_string(), "0");
}

#[test]
fn letters_are_invalid() {
    let r = RInt::from_str("abc");

    assert!(matches!(r, Err(ParseError::InvalidDigit)));
}

#[test]
fn sign_after_digits_is_invalid() {
    let r = RInt::from_str("12-3");

    assert!(matches!(r, Err(ParseError::InvalidDigit)));
}

#[test]
fn leading_dot_is_invalid() {
    let r = RInt::from_str(".5");

    assert!(matches!(r, Err(ParseError::InvalidDigit)));
}

#[test]
fn second_dot_is_invalid() {
    let r = RInt::from_str("1.2.3");

    assert!(matches!(r, Err(ParseError::InvalidDigit)));
}

#[test]
fn second_sign_is_invalid() {
    let r = RInt::from_str("--5");

    assert!(matches!(r, Err(ParseError::InvalidDigit)));
}

#[test]
fn non_ascii_is_invalid() {
    let r = RInt::from_str("٥");

    assert!(matches!(r, Err(ParseError::InvalidDigit)));
}

#[test]
fn magnitude_above_unsigned_range_overflows() {
    let r = RInt::from_str("4294967296");

    assert!(matches!(r, Err(ParseError::Overflow)));
}

#[test]
fn magnitude_at_unsigned_top_parses() {
    let r = RInt::from_str("4294967295").unwrap();

    assert_eq!(r.bits, 0xFFFF_FFFF);
}

#[test]
fn unsigned_magnitude_acquires_signed_reading() {
    // The magnitude bound is the unsigned range, so this parses and then
    // renders under the signed reading of the stored pattern.
    let r = RInt::from_str("3000000000").unwrap();

    assert_eq!(r.bits, 3_000_000_000);
    assert_eq!(r.to_string(), "-1294967296");
}

#[test]
fn add_wraps_to_zero() {
    let r1 = RInt::from_u32(0xFFFF_FFFF);
    let r2 = RInt::from_str("1").unwrap();

    let r3 = r1 + r2;

    assert_eq!(r3.bits, 0x0000_0000);
}

#[test]
fn add_crosses_signed_boundary() {
    let r1 = RInt::from_u32(0x7FFF_FFFF);
    let r2 = RInt::from_str("1").unwrap();

    let r3 = r1 + r2;

    assert_eq!(r3.bits, 0x8000_0000);
}

#[test]
fn sub_renders_negative() {
    let r = RInt::from_str("5").unwrap() - RInt::from_str("13").unwrap();

    assert_eq!(r.bits, 0xFFFF_FFF8);
    assert_eq!(r.to_string(), "-8");
}

#[test]
fn mul_concrete() {
    let r = RInt::from_str("5").unwrap() * RInt::from_str("13").unwrap();

    assert_eq!(r.bits, 0x0000_0041);
    assert_eq!(r.to_string(), "65");
}

#[test]
fn mul_wraps() {
    let r = RInt::from_u32(0x0001_0000) * RInt::from_u32(0x0001_0000);

    assert_eq!(r.bits, 0);
}

#[test]
fn div_concrete() {
    let r = RInt::from_str("13").unwrap() / RInt::from_str("5").unwrap();

    assert_eq!(r.bits, 0x0000_0002);
}

#[test]
fn div_reads_dividend_as_unsigned() {
    // A negative pattern divides as its large unsigned magnitude: the sign
    // bit is not reinterpreted.
    let r = RInt::from_str("-8").unwrap() / RInt::from_str("8").unwrap();

    assert_eq!(r.bits, 0x1FFF_FFFF);
}

#[test]
fn most_negative_pattern_renders() {
    // Complement-plus-one maps this pattern to itself; the renderer still
    // reports its signed magnitude.
    let r = RInt::from_u32(0x8000_0000);

    assert_eq!(r.to_string(), "-2147483648");
}

#[test]
fn error_messages() {
    let invalid = RInt::from_str("x").unwrap_err();
    let overflow = RInt::from_str("99999999999").unwrap_err();

    assert_eq!(invalid.message(), "Invalid digit found");
    assert_eq!(overflow.message(), "Overflow occurred");
}

#[test]
fn overflow_is_reported_before_a_later_bad_byte() {
    // Accumulation fails at the digit that leaves the range, before the
    // machine ever reaches the letter.
    let r = RInt::from_str("99999999999x");

    assert!(matches!(r, Err(ParseError::Overflow)));
}

#[test]
fn zero_renders() {
    let r = RInt::from_str("0").unwrap();

    assert_eq!(r.to_string(), "0");
}
