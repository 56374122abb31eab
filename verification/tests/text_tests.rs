use snapshot_fuse::text::{
    bytes_eq, parse_u32, parse_u64, starts_with, str_eq, str_lt, u64_to_decimal,
};

#[test]
fn decimal_writes_numbers() {
    assert_eq!(u64_to_decimal(0), "0");
    assert_eq!(u64_to_decimal(7), "7");
    assert_eq!(u64_to_decimal(10), "10");
    assert_eq!(u64_to_decimal(12345), "12345");
    assert_eq!(u64_to_decimal(1000), "1000");
    assert_eq!(u64_to_decimal(u64::MAX), "18446744073709551615");
}

#[test]
fn unsigned_numbers_parse() {
    assert_eq!(parse_u64("0"), Some(0));
    assert_eq!(parse_u64("42"), Some(42));
    assert_eq!(parse_u64("+5"), Some(5));
    assert_eq!(parse_u64("007"), Some(7));
    assert_eq!(parse_u64("18446744073709551615"), Some(u64::MAX));
    assert_eq!(parse_u64("18446744073709551616"), None);
    assert_eq!(parse_u64("99999999999999999999999"), None);
    assert_eq!(parse_u64(""), None);
    assert_eq!(parse_u64("+"), None);
    assert_eq!(parse_u64("-1"), None);
    assert_eq!(parse_u64("++1"), None);
    assert_eq!(parse_u64("1a"), None);
    assert_eq!(parse_u64(" 1"), None);
    assert_eq!(parse_u64("1_000"), None);
    assert_eq!(parse_u64("\u{663}"), None);
}

#[test]
fn unsigned_numbers_parse_as_std_does() {
    for s in ["0", "+0", "12", "+", "", "-0", "4294967295", "4294967296", "00012", "1 ", "x"] {
        assert_eq!(parse_u32(s), s.parse::<u32>().ok());
        assert_eq!(parse_u64(s), s.parse::<u64>().ok());
    }
}

#[test]
fn prefixes_are_found() {
    assert!(starts_with("v__abc", "v__"));
    assert!(starts_with("v__", "v__"));
    assert!(!starts_with("v_", "v__"));
    assert!(!starts_with("__v__", "v__"));
    assert!(starts_with("anything", ""));
    assert!(starts_with("\u{e9}t\u{e9}", "\u{e9}t"));
    assert!(!starts_with("\u{e9}", "\u{e8}"));
}

#[test]
fn equality_compares_all_characters() {
    assert!(str_eq("", ""));
    assert!(str_eq("abc", "abc"));
    assert!(!str_eq("abc", "abd"));
    assert!(!str_eq("abc", "ab"));
    assert!(bytes_eq(&[1, 2], &[1, 2]));
    assert!(!bytes_eq(&[1, 2], &[1]));
}

#[test]
fn order_is_that_of_the_bytes() {
    let names = ["", "a", "ab", "b", "B", "\u{e9}", "z", "10", "9", "index"];
    for a in names {
        for b in names {
            assert_eq!(str_lt(a, b), a < b);
        }
    }
}
