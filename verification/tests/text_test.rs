use json_to_class::generators::class_namer::decimal_text;
use json_to_class::generators::dart_source::escape_dollars;
use json_to_class::text::{keep_alphanumeric, strip_leading_non_alphabetic};

#[test]
fn leading_run_of_non_alphabetic_characters_goes() {
    assert_eq!(strip_leading_non_alphabetic("123-$ab1-c"), "ab1-c");
    assert_eq!(strip_leading_non_alphabetic("abc"), "abc");
    assert_eq!(strip_leading_non_alphabetic("  \u{e9}t\u{e9} 1"), "\u{e9}t\u{e9} 1");
    assert_eq!(strip_leading_non_alphabetic("123"), "");
    assert_eq!(strip_leading_non_alphabetic(""), "");
}

#[test]
fn only_alphanumeric_characters_stay() {
    assert_eq!(keep_alphanumeric("a_b-c d$1?"), "abcd1");
    assert_eq!(keep_alphanumeric("\u{e9}-\u{0663}"), "\u{e9}\u{0663}");
    assert_eq!(keep_alphanumeric("-_-"), "");
    assert_eq!(keep_alphanumeric(""), "");
}

#[test]
fn dollars_are_escaped() {
    assert_eq!(escape_dollars("$a$b"), "\\$a\\$b");
    assert_eq!(escape_dollars("plain"), "plain");
    assert_eq!(escape_dollars("$$"), "\\$\\$");
    assert_eq!(escape_dollars(""), "");
}

#[test]
fn decimal_numerals() {
    assert_eq!(decimal_text(0), "0");
    assert_eq!(decimal_text(7), "7");
    assert_eq!(decimal_text(10), "10");
    assert_eq!(decimal_text(409), "409");
    assert_eq!(decimal_text(1234567890), "1234567890");
}
