use acs2::text::{append_decimal, append_hex_byte, parse_radix, parse_unsigned, same_text};

#[test]
fn unsigned_numbers_parse_like_the_standard_parse() {
    for text in ["0", "1", "42", "+42", "0042", "18446744073709551615", "", "+", "-1", "1a", " 1", "18446744073709551616", "٣"] {
        assert_eq!(parse_unsigned(text, u64::MAX), text.parse::<u64>().ok(), "{text:?}");
        assert_eq!(parse_unsigned(text, u32::MAX as u64), text.parse::<u32>().ok().map(u64::from), "{text:?}");
    }
}

#[test]
fn a_number_above_the_limit_is_refused() {
    assert_eq!(parse_unsigned("256", 255), None);
    assert_eq!(parse_unsigned("255", 255), Some(255));
    assert_eq!(parse_unsigned("0", 0), Some(0));
    assert_eq!(parse_unsigned("1", 0), None);
}

#[test]
fn decimals_are_appended_without_leading_zeros() {
    for value in [0u64, 7, 10, 99, 1000, 123456789, u64::MAX] {
        let mut text = String::from("n=");
        append_decimal(&mut text, value as u128);
        assert_eq!(text, format!("n={value}"));
        assert_eq!(parse_unsigned(&text[2..], u64::MAX), Some(value));
    }
}

#[test]
fn texts_compare_by_their_characters() {
    assert!(same_text("pyalcs", "pyalcs"));
    assert!(!same_text("pyalcs", "butz"));
    assert!(!same_text("acs2", "acs2er"));
    assert!(same_text("", ""));
    assert!(!same_text("é", "e"));
}

#[test]
fn hexadecimal_numbers_parse_in_either_case() {
    assert_eq!(parse_radix("ff", 16, 255), Some(255));
    assert_eq!(parse_radix("FF", 16, 255), Some(255));
    assert_eq!(parse_radix("100", 16, 255), None);
    assert_eq!(parse_radix("g", 16, 255), None);
    assert_eq!(parse_radix("340282366920938463463374607431768211455", 10, u128::MAX), Some(u128::MAX));
    for byte in [0u8, 9, 10, 15, 16, 171, 255] {
        let mut text = String::new();
        append_hex_byte(&mut text, byte);
        assert_eq!(text, format!("{byte:02x}"));
        assert_eq!(parse_radix(&text, 16, 255), Some(byte as u128));
        assert_eq!(u8::from_str_radix(&text, 16).unwrap(), byte);
    }
}
