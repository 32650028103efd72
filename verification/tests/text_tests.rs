use wl_scanner::text::{decimal_string, parse_u32, split_chars, str_equal, trim_ascii_bytes, trimmed};

#[test]
fn decimal_numbers() {
    assert_eq!(decimal_string(0), "0");
    assert_eq!(decimal_string(7), "7");
    assert_eq!(decimal_string(10), "10");
    assert_eq!(decimal_string(4294967295), "4294967295");
    assert_eq!(decimal_string(u64::MAX), u64::MAX.to_string());
}

#[test]
fn parse_u32_accepts_decimal_numerals() {
    assert_eq!(parse_u32("0"), Some(0));
    assert_eq!(parse_u32("6"), Some(6));
    assert_eq!(parse_u32("+42"), Some(42));
    assert_eq!(parse_u32("007"), Some(7));
    assert_eq!(parse_u32("4294967295"), Some(u32::MAX));
}

#[test]
fn parse_u32_rejects_other_text() {
    assert_eq!(parse_u32(""), None);
    assert_eq!(parse_u32("+"), None);
    assert_eq!(parse_u32("-1"), None);
    assert_eq!(parse_u32(" 1"), None);
    assert_eq!(parse_u32("1_000"), None);
    assert_eq!(parse_u32("12a"), None);
    assert_eq!(parse_u32("4294967296"), None);
    assert_eq!(parse_u32("99999999999999999999"), None);
}

#[test]
fn parse_u32_agrees_with_std() {
    for s in ["0", "+5", "-0", "", "+", "4294967295", "4294967296", "1 ", "٣"] {
        assert_eq!(parse_u32(s), u32::from_str_radix(s, 10).ok());
    }
}

#[test]
fn written_numbers_read_back() {
    for v in [0u32, 1, 9, 10, 99, 100, 65535, u32::MAX] {
        assert_eq!(parse_u32(&decimal_string(v as u64)), Some(v));
    }
}

#[test]
fn trimming_unicode_whitespace() {
    assert_eq!(trimmed("  text \t"), "text");
    assert_eq!(trimmed("\u{3000}wide\u{a0}"), "wide");
    assert_eq!(trimmed("   "), "");
    assert_eq!(trimmed("a b"), "a b");
    for s in ["\u{85}x\u{2029}", " y\r\n", "\u{200b}z"] {
        assert_eq!(trimmed(s), s.trim());
    }
}

#[test]
fn trimming_ascii_whitespace_bytes() {
    assert_eq!(trim_ascii_bytes(&b" \n\tabc \r\x0c".to_vec()), b"abc".to_vec());
    assert_eq!(trim_ascii_bytes(&b"   ".to_vec()), Vec::<u8>::new());
    assert_eq!(trim_ascii_bytes(&b"\x0bv\x0b".to_vec()), b"\x0bv\x0b".to_vec());
}

#[test]
fn splitting_keeps_empty_pieces() {
    assert_eq!(split_chars("a.b", '.'), vec!["a", "b"]);
    assert_eq!(split_chars("", '.'), vec![""]);
    assert_eq!(split_chars("x\n", '\n'), vec!["x", ""]);
    assert_eq!(split_chars("..", '.'), vec!["", "", ""]);
    let s = "one\ntwo\n\nthree";
    assert_eq!(split_chars(s, '\n'), s.split('\n').collect::<Vec<_>>());
}

#[test]
fn string_equality() {
    assert!(str_equal("abc", "abc"));
    assert!(!str_equal("abc", "abd"));
    assert!(!str_equal("ab", "abc"));
    assert!(str_equal("", ""));
}
