use whim_dav_proxy::text::{
    bytes_eq, decimal_of, ends_with_char, has_prefix, join2, join3, parsed_u64, starts_with_char,
    str_eq, trimmed, trimmed_end, trimmed_start, white_space, without_suffix,
};

#[test]
fn white_space_is_that_of_unicode() {
    for c in (0..0x11_0000u32).filter_map(char::from_u32) {
        assert_eq!(white_space(c), c.is_whitespace());
    }
}

#[test]
fn texts_are_trimmed() {
    for s in ["", " ", " a ", "\t\u{3000}a b\n", "a", "\u{a0}"] {
        assert_eq!(trimmed(s), s.trim());
    }
    for s in ["", "/", "a//", "//a/", "a"] {
        assert_eq!(trimmed_end(s, '/'), s.trim_end_matches('/'));
        assert_eq!(trimmed_start(s, '/'), s.trim_start_matches('/'));
    }
}

#[test]
fn numbers_are_read_and_written() {
    for s in [
        "", "+", "-1", "0", "007", "+12", "++1", "12a", " 1", "1_0", "18446744073709551615",
        "18446744073709551616", "99999999999999999999", "000000000000000000000000000001", "٣",
    ] {
        assert_eq!(parsed_u64(s), s.parse::<u64>().ok());
    }
    for n in [0, 9, 10, 99, 100, 65535, u64::MAX] {
        assert_eq!(decimal_of(n), n.to_string());
    }
}

#[test]
fn texts_are_compared_and_joined() {
    assert!(str_eq("日本", "日本") && !str_eq("a", "b") && !str_eq("a", "ab"));
    assert!(bytes_eq(b"ab", b"ab") && !bytes_eq(b"ab", b"ac") && !bytes_eq(b"a", b""));
    assert_eq!(join2("a", "日"), "a日");
    assert_eq!(join3("a", "", "c"), "ac");
    assert!(has_prefix("abc", "ab") && has_prefix("a", "") && !has_prefix("a", "ab"));
    assert!(starts_with_char("ab", 'a') && !starts_with_char("", 'a'));
    assert!(ends_with_char("ab", 'b') && !ends_with_char("", 'b'));
    assert_eq!(without_suffix("a.enc", ".enc"), Some("a".to_string()));
    assert_eq!(without_suffix("a.enc", ".end"), None);
    assert_eq!(without_suffix("nc", ".enc"), None);
}
