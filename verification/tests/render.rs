// Decoding units of possibly ill-formed UTF-8, and the quoted debug rendering.

use bstr::decode::decode_unit;
use bstr::equality::{bstr_eq_cow, bytes_eq, cow_eq_bstr};
use bstr::render::{debug_string, escape_ascii_chars};
use bstr::runner::{quickcheck_status, FrameworkStatus};
use bstr::text::{bool_chars, chars_of, decimal_chars};
use std::borrow::Cow;

#[test]
fn decode_well_formed_units() {
    assert_eq!(decode_unit(b"a", 0), (Some('a'), 1));
    assert_eq!(decode_unit("é".as_bytes(), 0), (Some('é'), 2));
    assert_eq!(decode_unit("☃x".as_bytes(), 0), (Some('☃'), 3));
    assert_eq!(decode_unit("😀".as_bytes(), 0), (Some('😀'), 4));
    assert_eq!(decode_unit(b"ab\xEF\xBF\xBD", 2), (Some('\u{FFFD}'), 3));
}

#[test]
fn decode_ill_formed_units_as_maximal_subparts() {
    assert_eq!(decode_unit(b"\x80", 0), (None, 1));
    assert_eq!(decode_unit(b"\xC0\x80", 0), (None, 1));
    assert_eq!(decode_unit(b"\xE0\x80\x80", 0), (None, 1));
    assert_eq!(decode_unit(b"\xED\xA0\x80", 0), (None, 1));
    assert_eq!(decode_unit(b"\xF4\x90\x80\x80", 0), (None, 1));
    assert_eq!(decode_unit(b"\xF5", 0), (None, 1));
    assert_eq!(decode_unit(b"\xE2\x98", 0), (None, 2));
    assert_eq!(decode_unit(b"\xE2\x98A", 0), (None, 2));
    assert_eq!(decode_unit(b"\xF0\x9F\x98", 0), (None, 3));
    assert_eq!(decode_unit(b"\xF0\x9F\x98z", 0), (None, 3));
}

#[test]
fn render_ascii() {
    assert_eq!(debug_string(b""), "\"\"");
    assert_eq!(debug_string(b"abc"), "\"abc\"");
    assert_eq!(debug_string(b"a\x00b"), "\"a\\0b\"");
    assert_eq!(debug_string(b"\t\r\n"), "\"\\t\\r\\n\"");
    assert_eq!(debug_string(b"\"'\\"), "\"\\\"\\'\\\\\"");
    assert_eq!(debug_string(b"\x01\x1a\x1f\x7f"), "\"\\x01\\x1a\\x1f\\x7f\"");
}

#[test]
fn render_ill_formed_bytes_in_lowercase_hex() {
    assert_eq!(debug_string(b"\xFF"), "\"\\xff\"");
    assert_eq!(debug_string(b"\xE2\x98"), "\"\\xe2\\x98\"");
    assert_eq!(debug_string(b"a\xED\xA0\x80z"), "\"a\\xed\\xa0\\x80z\"");
}

#[test]
fn render_well_formed_non_ascii() {
    assert_eq!(debug_string("☃é".as_bytes()), "\"☃é\"");
    assert_eq!(debug_string(b"\xEF\xBF\xBD"), "\"\u{FFFD}\"");
    assert_eq!(debug_string(b"\xFF\xEF\xBF\xBD\xFF"), "\"\\xff\u{FFFD}\\xff\"");
    // A combining mark on its own is escaped by `char::escape_debug`.
    assert_eq!(debug_string("\u{301}".as_bytes()), "\"\\u{301}\"");
}

#[test]
fn escape_debug_of_std() {
    // Valid non-ASCII characters go through `char::escape_debug`.
    assert_eq!(debug_string("\u{301}".as_bytes()), "\"\\u{301}\"");
    assert_eq!(debug_string("☃".as_bytes()), "\"☃\"");
    assert_eq!(debug_string("a\u{301}☃".as_bytes()), "\"a\\u{301}☃\"");
}

#[test]
fn escape_ascii_of_bytes() {
    assert_eq!(escape_ascii_chars(b'a'), vec!['a']);
    assert_eq!(escape_ascii_chars(b'\''), vec!['\\', '\'']);
    assert_eq!(escape_ascii_chars(0x9d), vec!['\\', 'x', '9', 'd']);
}

#[test]
fn decimal_and_bool_text() {
    assert_eq!(decimal_chars(0), vec!['0']);
    assert_eq!(decimal_chars(1234), vec!['1', '2', '3', '4']);
    assert_eq!(bool_chars(true), vec!['t', 'r', 'u', 'e']);
    assert_eq!(bool_chars(false), vec!['f', 'a', 'l', 's', 'e']);
}

#[test]
fn equality_with_cow() {
    assert!(bytes_eq(b"ab", b"ab"));
    assert!(!bytes_eq(b"ab", b"abc"));
    assert!(!bytes_eq(b"ab", b"ac"));
    let owned: Cow<'_, [u8]> = Cow::Owned(b"hello".to_vec());
    let borrowed: Cow<'_, [u8]> = Cow::Borrowed(b"goodbye");
    assert!(bstr_eq_cow(b"hello", &owned));
    assert!(!bstr_eq_cow(b"hello", &borrowed));
    assert!(cow_eq_bstr(&borrowed, b"goodbye"));
    assert!(!cow_eq_bstr(&owned, b"goodbye"));
}

#[test]
fn str_debug_of_std() {
    // The quickcheck driver reports an aborted run with std's `{:?}` of the error.
    assert_eq!(
        quickcheck_status(FrameworkStatus::Aborted("a\"b\n".to_string())),
        Err("aborted: \"a\\\"b\\n\"".to_string())
    );
    assert_eq!(chars_of("hé"), vec!['h', 'é']);
    assert_eq!(debug_string("hé".as_bytes()), "\"hé\"");
}
