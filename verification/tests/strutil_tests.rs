use zaohelper::error::LibError;
use zaohelper::strutil::{
    parse_u64_digits, rfind_char, str_contains, str_ends_with, str_eq, u64_to_padded_string,
    u64_to_string,
};

#[test]
fn parses_decimal_digits() {
    assert_eq!(parse_u64_digits("0"), Some(0));
    assert_eq!(parse_u64_digits("00123"), Some(123));
    assert_eq!(parse_u64_digits("18446744073709551615"), Some(u64::MAX));
    assert_eq!(parse_u64_digits("18446744073709551616"), None);
    assert_eq!(parse_u64_digits(""), None);
    assert_eq!(parse_u64_digits("12a"), None);
    assert_eq!(parse_u64_digits("+1"), None);
}

#[test]
fn prints_decimal_digits() {
    assert_eq!(u64_to_string(0), "0");
    assert_eq!(u64_to_string(7), "7");
    assert_eq!(u64_to_string(1204), "1204");
    assert_eq!(u64_to_string(u64::MAX), "18446744073709551615");
}

#[test]
fn printing_then_parsing_gives_the_number_back() {
    for v in [0u64, 1, 9, 10, 99, 1000, 123456789, u64::MAX] {
        assert_eq!(parse_u64_digits(&u64_to_string(v)), Some(v));
    }
}

#[test]
fn pads_to_width() {
    assert_eq!(u64_to_padded_string(7, 3), "007");
    assert_eq!(u64_to_padded_string(42, 3), "042");
    assert_eq!(u64_to_padded_string(999, 3), "999");
    assert_eq!(u64_to_padded_string(1234, 3), "1234");
    assert_eq!(u64_to_padded_string(5, 9), "000000005");
}

#[test]
fn substring_search() {
    assert!(str_contains("opening theme", "op"));
    assert!(str_contains("stop", "op"));
    assert!(str_contains("anything", ""));
    assert!(!str_contains("credits", "op"));
    assert!(!str_contains("o", "op"));
}

#[test]
fn prefix_suffix_and_equality() {
    assert!(str_ends_with("catalog_001.json", ".json"));
    assert!(!str_ends_with("catalog_001.jso", ".json"));
    assert!(str_eq("abc", "abc"));
    assert!(!str_eq("abc", "abd"));
    assert!(!str_eq("abc", "ab"));
}

#[test]
fn error_messages_name_each_failure() {
    let variants = [
        LibError::ToolInvocation,
        LibError::Parse,
        LibError::Path,
        LibError::Io,
        LibError::Exhaustion,
        LibError::Serialization,
        LibError::Precondition,
    ];
    for v in variants {
        assert!(!v.message().is_empty());
    }
    assert_eq!(LibError::Exhaustion.message(), "catalog numbering space exhausted");
}

#[test]
fn char_search_from_the_end() {
    assert_eq!(rfind_char("a/b/c", '/'), Some(3));
    assert_eq!(rfind_char("abc", '/'), None);
}
