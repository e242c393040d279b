use exa_substreams::bigint::BigInt;
use exa_substreams::encoding::{from_hex, to_hex};

#[test]
fn hex_of_bytes_is_lower_case_without_prefix() {
    assert_eq!(to_hex(&[0xab, 0xcd, 0xef]), "abcdef");
    assert_eq!(to_hex(&[0x00, 0x01, 0x0a, 0xf0]), "00010af0");
    assert_eq!(to_hex(&[]), "");
}

#[test]
fn hex_of_an_address_has_forty_digits() {
    let address = [0x5au8; 20];
    let text = to_hex(&address);
    assert_eq!(text.len(), 40);
    assert_eq!(text, "5a".repeat(20));
}

#[test]
fn hex_text_is_read_with_and_without_prefix() {
    assert_eq!(from_hex("0x6e8b"), Some(vec![110, 139]));
    assert_eq!(from_hex("6e8b"), Some(vec![110, 139]));
    assert_eq!(from_hex("6E8B"), Some(vec![110, 139]));
    assert_eq!(from_hex("0x"), Some(vec![]));
}

#[test]
fn hex_text_with_an_odd_number_of_digits_is_refused() {
    assert_eq!(from_hex("abc"), None);
    assert_eq!(from_hex("0xabc"), None);
}

#[test]
fn hex_text_with_a_foreign_character_is_refused() {
    assert_eq!(from_hex("zz"), None);
    assert_eq!(from_hex("0xg0"), None);
    assert_eq!(from_hex("12 4"), None);
    assert_eq!(from_hex("\u{e9}\u{e9}"), None);
}

#[test]
fn hex_text_shorter_than_two_characters_is_refused() {
    assert_eq!(from_hex(""), None);
    assert_eq!(from_hex("a"), None);
    assert_eq!(from_hex("\u{e9}"), None);
}

#[test]
fn hex_round_trip() {
    let bytes: Vec<u8> = (0..=255).collect();
    assert_eq!(from_hex(&to_hex(&bytes)), Some(bytes));
}

#[test]
fn integers_are_read_from_decimal_text() {
    assert_eq!(BigInt::parse("0").unwrap().to_decimal(), "0");
    assert_eq!(BigInt::parse("500").unwrap().to_decimal(), "500");
    assert_eq!(BigInt::parse("-60").unwrap().to_decimal(), "-60");
    assert_eq!(BigInt::parse("007").unwrap().to_decimal(), "7");
    assert_eq!(BigInt::parse("-0").unwrap().to_decimal(), "0");
    assert_eq!(BigInt::parse("000").unwrap().to_decimal(), "0");
}

#[test]
fn what_is_no_decimal_text_is_refused() {
    assert!(BigInt::parse("").is_none());
    assert!(BigInt::parse("-").is_none());
    assert!(BigInt::parse("+5").is_none());
    assert!(BigInt::parse("12a").is_none());
    assert!(BigInt::parse("1.5").is_none());
    assert!(BigInt::parse(" 1").is_none());
    assert!(BigInt::parse("--1").is_none());
    assert!(BigInt::parse("1-").is_none());
    assert!(BigInt::parse("\u{663}").is_none());
}

#[test]
fn integers_beyond_machine_words_keep_every_digit() {
    let max = "115792089237316195423570985008687907853269984665640564039457584007913129639935";
    let value = BigInt::parse(max).unwrap();
    assert_eq!(value.to_decimal(), max);
    let one = BigInt::from_u64(1);
    assert_eq!(
        value.plus(&one).to_decimal(),
        "115792089237316195423570985008687907853269984665640564039457584007913129639936"
    );
    assert_eq!(value.plus(&value.negated()).to_decimal(), "0");
}

#[test]
fn sums_carry_and_borrow() {
    let sum = |a: &str, b: &str| BigInt::parse(a).unwrap().plus(&BigInt::parse(b).unwrap()).to_decimal();
    assert_eq!(sum("999", "1"), "1000");
    assert_eq!(sum("1000", "-1"), "999");
    assert_eq!(sum("-1000", "1"), "-999");
    assert_eq!(sum("5", "-7"), "-2");
    assert_eq!(sum("-5", "7"), "2");
    assert_eq!(sum("-5", "-7"), "-12");
    assert_eq!(sum("100", "-100"), "0");
    assert_eq!(sum("0", "0"), "0");
    assert_eq!(sum("18446744073709551615", "18446744073709551615"), "36893488147419103230");
}

#[test]
fn machine_words_become_integers() {
    assert_eq!(BigInt::from_u64(0).to_decimal(), "0");
    assert_eq!(BigInt::from_u64(u64::MAX).to_decimal(), "18446744073709551615");
    assert_eq!(BigInt::from_i64(-1).to_decimal(), "-1");
    assert_eq!(BigInt::from_i64(i64::MIN).to_decimal(), "-9223372036854775808");
    assert_eq!(BigInt::from_i64(i64::MAX).to_decimal(), "9223372036854775807");
}

#[test]
fn integers_compare_by_value() {
    let seven = BigInt::parse("7").unwrap();
    assert!(seven.equals(&BigInt::parse("007").unwrap()));
    assert!(!seven.equals(&BigInt::parse("-7").unwrap()));
    assert!(BigInt::zero().equals(&BigInt::parse("-0").unwrap()));
    assert!(BigInt::zero().is_zero());
    assert!(!seven.is_zero());
    assert!(seven.negated().is_negative());
    assert!(!seven.is_negative());
    assert!(!BigInt::zero().negated().is_negative());
    assert!(seven.clone().equals(&seven));
}

#[test]
fn rendering_and_reading_agree() {
    for text in ["0", "1", "-1", "10", "-10", "123456789012345678901234567890"] {
        assert_eq!(BigInt::parse(text).unwrap().to_decimal(), text);
    }
}
