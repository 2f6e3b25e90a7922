use virtree::grammar::{is_path_separator, segment_valid};
use virtree::order::str_lt;

#[test]
fn separators_are_slash_and_backslash() {
    assert!(is_path_separator('/'));
    assert!(is_path_separator('\\'));
    assert!(!is_path_separator(','));
    assert!(!is_path_separator('a'));
}

#[test]
fn segment_validity() {
    assert!(segment_valid("foo"));
    assert!(segment_valid("a.b"));
    assert!(segment_valid("..."));
    assert!(segment_valid(" spaced "));
    assert!(!segment_valid(""));
    assert!(!segment_valid("."));
    assert!(!segment_valid(".."));
    assert!(!segment_valid("a/b"));
    assert!(!segment_valid("a\\b"));
    assert!(!segment_valid("a\0b"));
}

#[test]
fn lexicographic_order_is_by_code_point() {
    assert!(str_lt("a", "b"));
    assert!(str_lt("a", "ab"));
    assert!(str_lt("", "a"));
    assert!(!str_lt("b", "a"));
    assert!(!str_lt("a", "a"));
    // case-sensitive ordinal comparison: upper case sorts first
    assert!(str_lt("Z", "a"));
}
