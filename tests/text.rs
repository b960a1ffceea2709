use mahardhika::text::{decimal_string, signed_decimal_string, split_str, trim_str};

#[test]
fn trims_unicode_whitespace() {
    assert_eq!(trim_str(" \t a b \r\n"), "a b");
    assert_eq!(trim_str("\u{3000}x\u{a0}"), "x");
    assert_eq!(trim_str("   "), "");
}

#[test]
fn splits_like_str_split() {
    assert_eq!(split_str("a,,b,", ','), vec!["a", "", "b", ""]);
    assert_eq!(split_str("", ','), vec![""]);
}

#[test]
fn decimals() {
    assert_eq!(decimal_string(0), "0");
    assert_eq!(decimal_string(18446744073709551615), "18446744073709551615");
    assert_eq!(signed_decimal_string(-2147483648), "-2147483648");
    assert_eq!(signed_decimal_string(404), "404");
}
