use yang_atom::validators::{
    chk_date_rs, chk_enum_arg_rs, chk_fraction_digits_arg_rs, chk_identifier_rs, chk_if_feature_expr_rs,
    chk_integer_rs, chk_max_value_rs, chk_non_negative_integer_rs, chk_xsd_regexp, ends_with_ws, parse_i64_str,
    parse_u64_str, starts_with_ws, write_err,
};

#[test]
fn white_space_at_the_ends() {
    assert!(starts_with_ws(b" a"));
    assert!(starts_with_ws(b"\ta"));
    assert!(starts_with_ws("\u{a0}a".as_bytes()));
    assert!(starts_with_ws("\u{3000}a".as_bytes()));
    assert!(!starts_with_ws(b"a "));
    assert!(!starts_with_ws(b""));
    assert!(ends_with_ws(b"a\n"));
    assert!(ends_with_ws("a\u{2028}".as_bytes()));
    assert!(!ends_with_ws(b"a"));
}

#[test]
fn parse_signed_integers() {
    assert_eq!(parse_i64_str(b"42"), Some(42));
    assert_eq!(parse_i64_str(b"-42"), Some(-42));
    assert_eq!(parse_i64_str(b"+7"), Some(7));
    assert_eq!(parse_i64_str(b"-9223372036854775808"), Some(i64::MIN));
    assert_eq!(parse_i64_str(b"9223372036854775807"), Some(i64::MAX));
    assert_eq!(parse_i64_str(b"9223372036854775808"), None);
    assert_eq!(parse_i64_str(b" 1"), None);
    assert_eq!(parse_i64_str(b"1 "), None);
    assert_eq!(parse_i64_str(b""), None);
    assert_eq!(parse_i64_str(b"-"), None);
}

#[test]
fn parse_unsigned_integers() {
    assert_eq!(parse_u64_str(b"18446744073709551615"), Some(u64::MAX));
    assert_eq!(parse_u64_str(b"18446744073709551616"), None);
    assert_eq!(parse_u64_str(b"+3"), Some(3));
    assert_eq!(parse_u64_str(b"-0"), None);
    assert_eq!(parse_u64_str(b" 3"), None);
}

#[test]
fn enum_arg() {
    assert!(chk_enum_arg_rs(Some(b"up")));
    assert!(chk_enum_arg_rs(Some(b"a b")));
    assert!(!chk_enum_arg_rs(Some(b"")));
    assert!(!chk_enum_arg_rs(Some(b" up")));
    assert!(!chk_enum_arg_rs(Some(b"up ")));
    assert!(!chk_enum_arg_rs(None));
}

#[test]
fn integer_kinds() {
    assert!(chk_integer_rs(Some(b"-5")));
    assert!(!chk_integer_rs(Some(b"five")));
    assert!(!chk_integer_rs(None));
    assert!(chk_non_negative_integer_rs(Some(b"0")));
    assert!(!chk_non_negative_integer_rs(Some(b"-1")));
    assert!(chk_max_value_rs(Some(b"unbounded")));
    assert!(chk_max_value_rs(Some(b"10")));
    assert!(!chk_max_value_rs(Some(b"-10")));
    assert!(!chk_max_value_rs(Some(b"many")));
    assert!(chk_fraction_digits_arg_rs(Some(b"1")));
    assert!(chk_fraction_digits_arg_rs(Some(b"18")));
    assert!(!chk_fraction_digits_arg_rs(Some(b"0")));
    assert!(!chk_fraction_digits_arg_rs(Some(b"19")));
}

#[test]
fn identifier_and_the_xml_prefix() {
    assert_eq!(chk_identifier_rs(Some(b"foo"), true, 1), (true, None));
    assert_eq!(chk_identifier_rs(Some(b"foo"), false, 1), (false, None));
    assert_eq!(chk_identifier_rs(Some(b"xmlfoo"), true, 2), (true, None));
    let (ok, msg) = chk_identifier_rs(Some(b"XmLfoo"), true, 1);
    assert!(!ok);
    assert_eq!(
        msg.unwrap(),
        b"bad argument value \"XmLfoo\", an identifier must not start with [xX][mM][lL] in YANG version 1".to_vec()
    );
    assert_eq!(chk_identifier_rs(None, true, 1), (false, None));
}

#[test]
fn identifier_message_shows_invalid_utf8_replaced() {
    let (ok, msg) = chk_identifier_rs(Some(b"xml\xff"), true, 1);
    assert!(!ok);
    let m = msg.unwrap();
    let expected = "bad argument value \"xml\u{fffd}\", an identifier must not start with [xX][mM][lL] in YANG version 1";
    assert_eq!(m, expected.as_bytes().to_vec());
}

#[test]
fn dates() {
    assert!(chk_date_rs(Some(b"2024-02-29"), true));
    assert!(!chk_date_rs(Some(b"2023-02-29"), true));
    assert!(chk_date_rs(Some(b"2000-02-29"), true));
    assert!(!chk_date_rs(Some(b"1900-02-29"), true));
    assert!(!chk_date_rs(Some(b"2023-04-31"), true));
    assert!(chk_date_rs(Some(b"2023-12-31"), true));
    assert!(!chk_date_rs(Some(b"2023-12-31"), false));
    assert!(!chk_date_rs(None, true));
}

#[test]
fn if_feature_expressions_by_version() {
    assert_eq!(chk_if_feature_expr_rs(Some(b"a and b"), false, 2), (true, None));
    assert_eq!(chk_if_feature_expr_rs(Some(b"a and"), false, 2), (false, None));
    assert_eq!(chk_if_feature_expr_rs(Some(b"p:a"), true, 1), (true, None));
    let (ok, msg) = chk_if_feature_expr_rs(Some(b"a or b"), false, 1);
    assert!(!ok);
    assert_eq!(
        msg.unwrap(),
        b"bad argument value \"a or b\", should be of type identifier-ref in YANG version 1".to_vec()
    );
}

#[test]
fn pattern_types() {
    assert!(chk_xsd_regexp(Some(b"x"), true));
    assert!(!chk_xsd_regexp(Some(b"x"), false));
    assert!(!chk_xsd_regexp(None, true));
}

#[test]
fn error_buffer() {
    assert_eq!(write_err(b"abc", 10), Some(b"abc\0".to_vec()));
    assert_eq!(write_err(b"abc", 4), Some(b"abc\0".to_vec()));
    assert_eq!(write_err(b"abc", 3), Some(b"ab\0".to_vec()));
    assert_eq!(write_err(b"abc", 1), Some(b"\0".to_vec()));
    assert_eq!(write_err(b"a\0c", 10), Some(b"\0".to_vec()));
    assert_eq!(write_err(b"abc", 0), None);
}

#[test]
fn white_space_is_tested_on_the_first_character() {
    for s in ["", " x", "\tx", "x ", "\u{3000}x", "\u{a0}", "\u{85}y", "\u{e9}", "\u{2009}", "\u{feff}"] {
        let first_ws = s.chars().next().map(|c| c.is_whitespace()).unwrap_or(false);
        assert_eq!(starts_with_ws(s.as_bytes()), first_ws, "{:?}", s);
    }
}
