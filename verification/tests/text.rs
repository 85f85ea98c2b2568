use zkas_payment_gateway::format_units;
use zkas_payment_gateway::service::{authorized, viewing_key_from_hex};
use zkas_payment_gateway::text::{decimal_string, hex_decode_chars, hex_encode, parse_decimal_u64, trim_end_char};

#[test]
fn units_are_decimal_coins() {
    assert_eq!(format_units(10_000_000), "0.1");
    assert_eq!(format_units(100_000_000), "1");
    assert_eq!(format_units(150_000_000), "1.5");
    assert_eq!(format_units(0), "0");
    assert_eq!(format_units(1), "0.00000001");
    assert_eq!(format_units(u64::MAX), "184467440737.09551615");
}

#[test]
fn decimal_parsing_matches_std() {
    for text in ["0", "42", "+7", "18446744073709551615", "18446744073709551616", "", "+", "-1", "1a", " 1", "007"] {
        assert_eq!(parse_decimal_u64(text), text.parse::<u64>().ok(), "{text}");
    }
    assert_eq!(decimal_string(0), "0");
    assert_eq!(decimal_string(u64::MAX), u64::MAX.to_string());
}

#[test]
fn hex_round_trip() {
    assert_eq!(hex_encode(&[0x00, 0xab, 0xff]), "00abff");
    let chars: Vec<char> = "00ABff".chars().collect();
    assert_eq!(hex_decode_chars(&chars), Some(vec![0x00, 0xab, 0xff]));
    let odd: Vec<char> = "abc".chars().collect();
    assert_eq!(hex_decode_chars(&odd), None);
    let bad: Vec<char> = "zz".chars().collect();
    assert_eq!(hex_decode_chars(&bad), None);
}

#[test]
fn trailing_characters_are_trimmed() {
    assert_eq!(trim_end_char("https://x///", '/'), "https://x");
    assert_eq!(trim_end_char("///", '/'), "");
    assert_eq!(trim_end_char("a/b", '/'), "a/b");
}

#[test]
fn bearer_authorization() {
    assert!(authorized(Some("Bearer key"), "key"));
    assert!(!authorized(Some("Bearer key2"), "key"));
    assert!(!authorized(Some("bearer key"), "key"));
    assert!(!authorized(Some("key"), "key"));
    assert!(!authorized(None, "key"));
    assert!(authorized(Some("Bearer "), ""));
}

#[test]
fn viewing_key_configuration() {
    assert_eq!(viewing_key_from_hex("zz").unwrap_err(), "ZKAS_GATEWAY_FVK is not hex");
    assert_eq!(viewing_key_from_hex("abcd").unwrap_err(), "ZKAS_GATEWAY_FVK must be 96 bytes");
    let text = "11".repeat(96);
    assert_eq!(viewing_key_from_hex(&text).unwrap(), [0x11; 96]);
}
