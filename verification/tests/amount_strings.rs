use epoch_stake::amount::{i32_to_dec, parse_u128, u128_to_dec};

#[test]
fn parse_plain_numerals() {
    assert_eq!(parse_u128("0"), Some(0));
    assert_eq!(parse_u128("7"), Some(7));
    assert_eq!(parse_u128("123456789012345678901234567890"), Some(123456789012345678901234567890));
    assert_eq!(parse_u128("007"), Some(7));
}

#[test]
fn parse_maximum_value() {
    assert_eq!(
        parse_u128("340282366920938463463374607431768211455"),
        Some(u128::MAX),
    );
}

#[test]
fn parse_rejects_overflow() {
    assert_eq!(parse_u128("340282366920938463463374607431768211456"), None);
    assert_eq!(parse_u128("9999999999999999999999999999999999999999"), None);
}

#[test]
fn parse_rejects_non_numerals() {
    assert_eq!(parse_u128(""), None);
    assert_eq!(parse_u128("abc"), None);
    assert_eq!(parse_u128("12a"), None);
    assert_eq!(parse_u128("-5"), None);
    assert_eq!(parse_u128("+5"), None);
    assert_eq!(parse_u128("1 2"), None);
    assert_eq!(parse_u128("1.0"), None);
}

#[test]
fn format_u128() {
    assert_eq!(u128_to_dec(0), "0");
    assert_eq!(u128_to_dec(10), "10");
    assert_eq!(u128_to_dec(125), "125");
    assert_eq!(u128_to_dec(u128::MAX), "340282366920938463463374607431768211455");
}

#[test]
fn format_epoch_numbers() {
    assert_eq!(i32_to_dec(0), "0");
    assert_eq!(i32_to_dec(212), "212");
    assert_eq!(i32_to_dec(-1), "-1");
    assert_eq!(i32_to_dec(i32::MIN), "-2147483648");
    assert_eq!(i32_to_dec(i32::MAX), "2147483647");
}

#[test]
fn format_then_parse_is_identity() {
    for v in [0u128, 1, 9, 10, 999, 1000, u128::MAX] {
        assert_eq!(parse_u128(&u128_to_dec(v)), Some(v));
    }
}
