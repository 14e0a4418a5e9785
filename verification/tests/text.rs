use coconet::text::{decimal_text, ipv4_text, ipv6_text, lowered_is, parse_unsigned, push_number, same_text, trim};

#[test]
fn numbers_in_decimal_and_hexadecimal() {
    assert_eq!(decimal_text(0), "0");
    assert_eq!(decimal_text(65535), "65535");
    assert_eq!(decimal_text(u64::MAX), "18446744073709551615");
    let mut s = String::from("x");
    push_number(&mut s, 0xfe01, 16);
    assert_eq!(s, "xfe01");
}

#[test]
fn ipv4_in_dotted_decimal() {
    assert_eq!(ipv4_text(10, 99, 0, 255), "10.99.0.255");
}

#[test]
fn ipv6_in_its_canonical_form() {
    let cases: [([u16; 8], &str); 14] = [
        ([0, 0, 0, 0, 0, 0, 0, 0], "::"),
        ([0, 0, 0, 0, 0, 0, 0, 1], "::1"),
        ([1, 0, 0, 0, 0, 0, 0, 0], "1::"),
        ([0xfd00, 0xc0c0, 0, 0, 0, 0, 0, 0x42], "fd00:c0c0::42"),
        ([0x2001, 0xdb8, 0, 0, 1, 0, 0, 1], "2001:db8::1:0:0:1"),
        ([0x2001, 0xdb8, 0, 1, 0, 0, 0, 1], "2001:db8:0:1::1"),
        ([0x2001, 0, 1, 0, 2, 0, 3, 0], "2001:0:1:0:2:0:3:0"),
        ([1, 2, 3, 4, 5, 6, 7, 8], "1:2:3:4:5:6:7:8"),
        ([0, 2, 3, 4, 5, 6, 7, 8], "0:2:3:4:5:6:7:8"),
        ([0, 0, 3, 4, 5, 6, 0, 0], "::3:4:5:6:0:0"),
        ([0, 0, 0, 0, 0, 0xffff, 0x0a63, 0x0102], "::ffff:10.99.1.2"),
        ([0, 0, 0, 0, 0, 0, 0x0a63, 0x0102], "::a63:102"),
        ([0, 0, 0, 0, 0xffff, 0, 0x0a63, 0x0102], "::ffff:0:a63:102"),
        ([0xfe80, 0, 0, 0, 0xabcd, 0, 0, 0], "fe80::abcd:0:0:0"),
    ];
    for (groups, text) in cases {
        let mut bytes = Vec::new();
        for g in groups {
            bytes.extend_from_slice(&g.to_be_bytes());
        }
        assert_eq!(ipv6_text(&bytes), text);
    }
}

#[test]
fn unsigned_numbers_like_the_standard_library() {
    for text in [
        "", "0", "00", "7", "+7", "++7", "-7", "-0", "+", "-", " 7", "7 ", "7a", "0x7", "1_000", "65535", "4294967295",
        "4294967296", "18446744073709551615", "18446744073709551616", "99999999999999999999999", "\u{0661}", "007",
    ] {
        assert_eq!(parse_unsigned(text, u64::MAX), text.parse::<u64>().ok(), "{text}");
        assert_eq!(parse_unsigned(text, u32::MAX as u64), text.parse::<u32>().ok().map(|n| n as u64), "{text}");
        assert_eq!(parse_unsigned(text, 7), text.parse::<u64>().ok().filter(|n| *n <= 7), "{text}");
    }
    assert_eq!(parse_unsigned("3", 2), None);
    assert_eq!(parse_unsigned("0", 0), Some(0));
}

#[test]
fn words_without_regard_to_case() {
    assert!(lowered_is("True", "true"));
    assert!(lowered_is("OFF", "off"));
    assert!(!lowered_is("tru", "true"));
    assert!(!lowered_is("truE!", "true"));
    assert!(!lowered_is("\u{212a}", "k"));
    assert!(!lowered_is("true", "TRUE"));
    assert!(same_text("ipv4", "ipv4"));
    assert!(!same_text("ipv4", "ipv6"));
    assert!(!same_text("ipv4", "ipv"));
}

#[test]
fn trimming_like_the_standard_library() {
    for text in [
        "", " ", "7", " 7\r\n", "\t a b \u{a0}", "\u{3000}\u{2003}x\u{85}", "\u{200b}x", "\n\n", "\u{1680}\u{e9}\u{2028}",
    ] {
        assert_eq!(trim(text), text.trim());
    }
}

#[test]
fn numbers_read_back() {
    for n in [0u64, 9, 10, 1234567, u64::MAX] {
        assert_eq!(parse_unsigned(&decimal_text(n), u64::MAX), Some(n));
    }
}
