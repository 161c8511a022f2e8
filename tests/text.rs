use unsaferust::models::{CodeLines, Provider, ProjectStats, UnsafeLines};
use unsaferust::text::{contains_text, decimal_string, parse_i32, signed_decimal_string, text_less};
use unsaferust::utils::getTimestamp;

#[test]
fn decimal_forms() {
    assert_eq!(decimal_string(0), "0");
    assert_eq!(decimal_string(1234567890), "1234567890");
    assert_eq!(decimal_string(u64::MAX), "18446744073709551615");
    assert_eq!(signed_decimal_string(-42), "-42");
    assert_eq!(signed_decimal_string(i64::MIN), "-9223372036854775808");
    assert_eq!(signed_decimal_string(7), "7");
}

#[test]
fn parse_i32_as_str_parse_does() {
    for s in ["", "-", "+", " 7", "7 ", "1_0", "2147483648", "-2147483649", "99999999999", "0x10"] {
        assert_eq!(parse_i32(s), None, "{s}");
        assert!(s.parse::<i32>().is_err());
    }
    for s in ["0", "+7", "007", "-0", "2147483647", "-2147483648", "-15"] {
        assert_eq!(parse_i32(s), Some(s.parse::<i32>().unwrap()), "{s}");
    }
}

#[test]
fn substring_search() {
    assert!(contains_text("Hello", "ell"));
    assert!(contains_text("abc", ""));
    assert!(contains_text("abc", "abc"));
    assert!(!contains_text("ab", "abc"));
    assert!(!contains_text("foo_1", "bar"));
}

#[test]
fn name_order() {
    assert!(text_less("name_1", "name_2"));
    assert!(!text_less("b", "a"));
    assert!(!text_less("a", "a"));
    assert!(text_less("a", "ab"));
    assert!(text_less("", "a"));
    assert!(text_less("B", "a"));
}

#[test]
fn constructors_keep_their_values() {
    assert_eq!(CodeLines::new(12).0, 12);
    assert_eq!(UnsafeLines::new(-1).0, -1);
    assert_eq!(CodeLines::from(3), CodeLines(3));
    assert_eq!(UnsafeLines::from(4), UnsafeLines(4));
    let p = Provider::new(3, "https://github.com");
    assert_eq!(p.id, 3);
    assert_eq!(p.url, "https://github.com");
    let s = ProjectStats::new(1, 2, 3, "x".to_string(), "y".to_string());
    assert_eq!((s.project_id, s.code_lines, s.unsafe_lines), (1, 2, 3));
    assert_eq!((s.created_at.as_str(), s.updated_at.as_str()), ("x", "y"));
}

#[test]
fn timestamp_is_after_2020() {
    assert!(getTimestamp() > 1577836800);
}
