use ostore::text::contains_ci;
use ostore::text::get_is_empty_text;
use ostore::text::parse_usize;
use ostore::text::usize_to_string;

#[test]
fn parses_plain_numbers() {
    assert_eq!(parse_usize("0"), Some(0));
    assert_eq!(parse_usize("42"), Some(42));
    assert_eq!(parse_usize("007"), Some(7));
}

#[test]
fn rejects_non_numeric_tokens() {
    assert_eq!(parse_usize(""), None);
    assert_eq!(parse_usize("12a"), None);
    assert_eq!(parse_usize("-3"), None);
    assert_eq!(parse_usize("4 2"), None);
}

#[test]
fn rejects_overflowing_numbers() {
    assert_eq!(parse_usize("99999999999999999999999999999999"), None);
}

#[test]
fn renders_decimal_numbers() {
    assert_eq!(usize_to_string(0), "0");
    assert_eq!(usize_to_string(9), "9");
    assert_eq!(usize_to_string(907), "907");
    assert_eq!(usize_to_string(1234567890), "1234567890");
}

#[test]
fn parse_inverts_render() {
    for n in [0usize, 1, 10, 99, 1000, 65535] {
        assert_eq!(parse_usize(&usize_to_string(n)), Some(n));
    }
}

#[test]
fn empty_field_tokens() {
    assert!(get_is_empty_text(""));
    assert!(get_is_empty_text("_"));
    assert!(!get_is_empty_text("x"));
    assert!(!get_is_empty_text("__"));
}

#[test]
fn case_insensitive_containment() {
    assert!(contains_ci("Hello World", "WORLD"));
    assert!(contains_ci("Hello World", "lo wo"));
    assert!(contains_ci("laptop", ""));
    assert!(!contains_ci("laptop", "desk"));
    assert!(!contains_ci("", "a"));
}
