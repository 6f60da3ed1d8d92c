use disk_census::text::decimal_text;
use disk_census::text::str_contains;
use disk_census::text::str_ends_with;
use disk_census::text::str_equals;
use disk_census::text::str_less;
use disk_census::text::str_starts_with;

#[test]
fn equal_strings_hold_the_same_characters() {
    assert!(str_equals("", ""));
    assert!(str_equals("héllo", "héllo"));
    assert!(!str_equals("a", "A"));
    assert!(!str_equals("ab", "abc"));
}

#[test]
fn strings_are_ordered_by_their_bytes() {
    assert!(str_less("", "a"));
    assert!(str_less("a", "b"));
    assert!(str_less("a", "ab"));
    assert!(str_less("Z", "a"));
    assert!(str_less("z", "é"));
    assert!(!str_less("b", "a"));
    assert!(!str_less("a", "a"));
    assert_eq!(str_less("abc", "abd"), "abc" < "abd");
}

#[test]
fn prefixes_suffixes_and_parts_are_found() {
    assert!(str_starts_with("/home/me", "/home"));
    assert!(str_starts_with("x", ""));
    assert!(!str_starts_with("/ho", "/home"));
    assert!(str_ends_with("file.old", ".old"));
    assert!(!str_ends_with("old", ".old"));
    assert!(str_contains("my backup copy", "backup"));
    assert!(str_contains("abc", ""));
    assert!(str_contains("abc", "abc"));
    assert!(str_contains("aab", "ab"));
    assert!(!str_contains("abc", "abcd"));
    assert!(!str_contains("abc", "ca"));
}

#[test]
fn numbers_are_written_in_decimal() {
    assert_eq!(decimal_text(0), "0");
    assert_eq!(decimal_text(7), "7");
    assert_eq!(decimal_text(10), "10");
    assert_eq!(decimal_text(907), "907");
    assert_eq!(decimal_text(u32::MAX), "4294967295");
}
