use r_int::RInt;

#[test]
fn test_new() {
    let r = RInt::from_str("5");

    assert_eq!(r.unwrap().bits, 0b0000_0000_0000_0000_0000_0000_0000_0101);
}

#[test]
fn test_new_minus() {
    let r = RInt::from_str("-5");

    assert_eq!(r.unwrap().bits, 0b1111_1111_1111_1111_1111_1111_1111_1011);
}

#[test]
fn test_add_1() {
    let r1 = RInt::from_str("5").unwrap(); // 5 ->101
    let r2 = RInt::from_str("13").unwrap(); // 13 -> 1101

    let r3 = r1 + r2;

    assert_eq!(r3.bits, 0b0000_0000_0000_0000_0000_0000_0001_0010); // 18 -> 10010
}

#[test]
fn test_add_2() {
    let r1 = RInt::from_str("-5").unwrap(); // -5 -> two-complement pattern
    let r2 = RInt::from_str("13").unwrap(); // 13 -> 1101

    let r3 = r1 + r2;

    assert_eq!(r3.bits, 0b0000_0000_0000_0000_0000_0000_0000_1000); // 8 -> 1000
}

#[test]
fn test_add_overflow1() {
    let r1 = RInt::from_u32(0b1111_1111_1111_1111_1111_1111_1111_1111);
    let r2 = RInt::from_str("1").unwrap();

    let r3 = r1 + r2;

    assert_eq!(r3.bits, 0b0000_0000_0000_0000_0000_0000_0000_0000);
}

#[test]
fn test_add_overflow2() {
    let r1 = RInt::from_u32(0b0111_1111_1111_1111_1111_1111_1111_1111);
    let r2 = RInt::from_str("1").unwrap();

    let r3 = r1 + r2;

    assert_eq!(r3.bits, 0b1000_0000_0000_0000_0000_0000_0000_0000);
}

#[test]
fn test_sub() {
    let r1 = RInt::from_str("5").unwrap(); // 5 ->101
    let r2 = RInt::from_str("13").unwrap(); // 13 -> 1101

    let r3 = r1 - r2;

    assert_eq!(r3.bits, 0b1111_1111_1111_1111_1111_1111_1111_1000); // -8 -> 11111000
}

#[test]
fn test_mul() {
    let r1 = RInt::from_str("5").unwrap(); // 5 ->101
    let r2 = RInt::from_str("13").unwrap(); // 13 -> 1101

    let r3 = r1 * r2;

    assert_eq!(r3.bits, 0b0000_0000_0000_0000_0000_0000_0100_0001); // 65 -> 1000001
}

#[test]
fn test_div() {
    let r1 = RInt::from_str("13").unwrap(); // 13 -> 1101
    let r2 = RInt::from_str("5").unwrap(); // 5 -> 101

    let r3 = r1 / r2;

    assert_eq!(r3.bits, 0b0000_0000_0000_0000_0000_0000_0010); // 2 -> 10
}

#[test]
fn test_to_string() {
    let r = RInt::from_str("5").unwrap(); // 5 ->101

    assert_eq!(r.to_string(), "5");
}

#[test]
fn test_to_string_negative() {
    let r = RInt::from_str("-25").unwrap();

    assert_eq!(r.to_string(), "-25");
}
