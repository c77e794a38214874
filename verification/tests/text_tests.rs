use map_iced::tile_cache::text::{parse_hex_u64, push_decimal, push_hex, trim};

#[test]
fn decimal_test() {
    let mut s = String::new();
    push_decimal(&mut s, 0);
    push_decimal(&mut s, 1234567890);
    push_decimal(&mut s, u64::MAX);
    assert_eq!(s, format!("0{}{}", 1234567890u64, u64::MAX));
}

#[test]
fn hex_test() {
    let mut s = String::new();
    push_hex(&mut s, 0xabc, 5);
    push_hex(&mut s, 0x12345, 2);
    assert_eq!(s, "00abc45");
}

#[test]
fn parse_hex_test() {
    assert_eq!(parse_hex_u64("1aF"), Some(0x1af));
    assert_eq!(parse_hex_u64(""), None);
    assert_eq!(parse_hex_u64("+"), None);
    assert_eq!(parse_hex_u64("g"), None);
    assert_eq!(parse_hex_u64(" 1"), None);
    for text in ["0", "7f", "+10", "ffffffffffffffff", "10000000000000000", "x", "1_0"] {
        assert_eq!(parse_hex_u64(text), u64::from_str_radix(text, 16).ok(), "{}", text);
    }
}

#[test]
fn trim_test() {
    for text in ["", "   ", " a b ", "\tline\n", "x", "\u{3000}wide\u{2003}", "a\n"] {
        assert_eq!(trim(text), text.trim());
    }
}
