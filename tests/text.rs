use cluster_inspect::text::{is_float_literal, parse_i32, parse_i64, split_text};

#[test]
fn i32_parsing_follows_from_str() {
    assert_eq!(parse_i32("+5"), Some(5));
    assert_eq!(parse_i32("-0"), Some(0));
    assert_eq!(parse_i32("007"), Some(7));
    assert_eq!(parse_i32("2147483647"), Some(i32::MAX));
    assert_eq!(parse_i32("-2147483648"), Some(i32::MIN));
    assert_eq!(parse_i32("2147483648"), None);
    assert_eq!(parse_i32(""), None);
    assert_eq!(parse_i32("+"), None);
    assert_eq!(parse_i32("-"), None);
    assert_eq!(parse_i32(" 1"), None);
    assert_eq!(parse_i32("1x"), None);
    assert_eq!(parse_i32("99999999999999999999999999"), None);
}

#[test]
fn i64_parsing_follows_from_str() {
    assert_eq!(parse_i64("-9223372036854775808"), Some(i64::MIN));
    assert_eq!(parse_i64("9223372036854775807"), Some(i64::MAX));
    assert_eq!(parse_i64("9223372036854775808"), None);
    assert_eq!(parse_i64("1694000000000"), Some(1694000000000));
}

#[test]
fn float_literals() {
    for s in ["1", "1.5", "-1e-5", "+.5E3", "5.", "inf", "-INF", "infinity", "NaN"] {
        assert!(is_float_literal(s), "{}", s);
    }
    for s in ["", "+", ".", "e1", "1e", "1.2.3", "1,5", "nan1", " 1"] {
        assert!(!is_float_literal(s), "{}", s);
    }
}

#[test]
fn split_keeps_empty_pieces() {
    assert_eq!(split_text("a,,b,", ','), vec!["a", "", "b", ""]);
    assert_eq!(split_text("", ','), vec![""]);
    assert_eq!(split_text("myself,master", ','), vec!["myself", "master"]);
}
