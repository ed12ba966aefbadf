use tool_bridge::text::{
    contains_ci, i64_to_string, parse_dec_u16, parse_dec_u32, split_lines, split_ws, str_eq, trim,
    u64_to_string,
};

#[test]
fn parse_u16_accepts_plain_decimals() {
    assert_eq!(parse_dec_u16("0"), Some(0));
    assert_eq!(parse_dec_u16("80"), Some(80));
    assert_eq!(parse_dec_u16("65535"), Some(65535));
    assert_eq!(parse_dec_u16("007"), Some(7));
}

#[test]
fn parse_u16_rejects_everything_else() {
    assert_eq!(parse_dec_u16(""), None);
    assert_eq!(parse_dec_u16("65536"), None);
    assert_eq!(parse_dec_u16("99999"), None);
    assert_eq!(parse_dec_u16("+5"), None);
    assert_eq!(parse_dec_u16("12a"), None);
    assert_eq!(parse_dec_u16(" 5"), None);
}

#[test]
fn parse_u32_handles_the_limits() {
    assert_eq!(parse_dec_u32("4294967295"), Some(4294967295));
    assert_eq!(parse_dec_u32("4294967296"), None);
    assert_eq!(parse_dec_u32("1234"), Some(1234));
}

#[test]
fn trim_strips_ascii_whitespace() {
    assert_eq!(trim("  a b\t \r\n"), "a b");
    assert_eq!(trim("x"), "x");
    assert_eq!(trim("   \t "), "");
    assert_eq!(trim(""), "");
}

#[test]
fn split_ws_yields_nonempty_tokens() {
    let t = split_ws("  one  two\tthree \n");
    assert_eq!(t, vec!["one".to_string(), "two".to_string(), "three".to_string()]);
    assert!(split_ws("   ").is_empty());
    assert!(split_ws("").is_empty());
}

#[test]
fn split_lines_matches_command_output_shape() {
    assert_eq!(split_lines("a\nb"), vec!["a".to_string(), "b".to_string()]);
    assert_eq!(split_lines("a\r\nb\r\n"), vec!["a".to_string(), "b".to_string()]);
    assert_eq!(split_lines("a\n\nb"), vec!["a".to_string(), "".to_string(), "b".to_string()]);
    assert_eq!(split_lines("a\n"), vec!["a".to_string()]);
    assert!(split_lines("").is_empty());
}

#[test]
fn contains_ci_ignores_ascii_case() {
    assert!(contains_ci("kill: No Such Process", "no such process"));
    assert!(contains_ci("ABCdef", "cDe"));
    assert!(contains_ci("x", ""));
    assert!(!contains_ci("something else", "no such process"));
    assert!(!contains_ci("", "x"));
}

#[test]
fn decimal_rendering_is_exact() {
    assert_eq!(u64_to_string(0), "0");
    assert_eq!(u64_to_string(7), "7");
    assert_eq!(u64_to_string(1234), "1234");
    assert_eq!(u64_to_string(18446744073709551615), "18446744073709551615");
    assert_eq!(i64_to_string(-1), "-1");
    assert_eq!(i64_to_string(-9223372036854775808), "-9223372036854775808");
    assert_eq!(i64_to_string(42), "42");
}

#[test]
fn str_eq_compares_characters() {
    assert!(str_eq("abc", "abc"));
    assert!(!str_eq("abc", "abd"));
    assert!(!str_eq("abc", "ab"));
    assert!(str_eq("", ""));
}
