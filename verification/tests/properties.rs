// The property checks on inputs they discard, and on further inputs they pass.

use bstr::etna::{
    property_cow_partialeq_bstr, property_debug_ascii_control_hex,
    property_debug_hex_lowercase, property_debug_valid_fffd_preserved,
    property_splitn_bounded, PropertyResult,
};

fn is_pass(r: &PropertyResult) -> bool {
    matches!(r, PropertyResult::Pass)
}

fn is_discard(r: &PropertyResult) -> bool {
    matches!(r, PropertyResult::Discard)
}

#[test]
fn splitn_bounded_discards_empty_needle() {
    assert!(is_discard(&property_splitn_bounded(b"abc".to_vec(), Vec::new(), 3)));
}

#[test]
fn splitn_bounded_passes_on_overlapping_needle() {
    // Left-to-right and right-to-left greedy searches pick different matches
    // of "aa" in "aaaaa", but the same number of them.
    for n in 0..8 {
        assert!(is_pass(&property_splitn_bounded(b"aaaaa".to_vec(), b"aa".to_vec(), n)));
        assert!(is_pass(&property_splitn_bounded(b"abababa".to_vec(), b"aba".to_vec(), n)));
    }
}

#[test]
fn splitn_bounded_passes_on_zero_limit_and_long_needle() {
    assert!(is_pass(&property_splitn_bounded(b"a:b".to_vec(), b":".to_vec(), 0)));
    assert!(is_pass(&property_splitn_bounded(b"ab".to_vec(), b"abc".to_vec(), 4)));
    assert!(is_pass(&property_splitn_bounded(Vec::new(), b"x".to_vec(), 1)));
}

#[test]
fn cow_partialeq_passes_on_equal_and_empty() {
    assert!(is_pass(&property_cow_partialeq_bstr(b"same".to_vec(), b"same".to_vec())));
    assert!(is_pass(&property_cow_partialeq_bstr(Vec::new(), Vec::new())));
    assert!(is_pass(&property_cow_partialeq_bstr(Vec::new(), b"x".to_vec())));
}

#[test]
fn fffd_preserved_after_truncated_sequence() {
    // A truncated three-byte sequence before the U+FFFD bytes does not swallow them.
    assert!(is_pass(&property_debug_valid_fffd_preserved(b"\xE2\x82".to_vec(), b"z".to_vec())));
    assert!(is_pass(&property_debug_valid_fffd_preserved(b"\xF0\x9F\x98".to_vec(), Vec::new())));
}

#[test]
fn ascii_control_hex_discards_other_bytes() {
    for b in [0x00u8, b'\t', b'\n', b'\r', b' ', b'A', b'~', 0x80, 0xff] {
        assert!(is_discard(&property_debug_ascii_control_hex(b)));
    }
    for b in (0x01u8..0x20).chain(std::iter::once(0x7f)) {
        if b != b'\t' && b != b'\n' && b != b'\r' {
            assert!(is_pass(&property_debug_ascii_control_hex(b)));
        }
    }
}

#[test]
fn hex_lowercase_discards_ascii_and_passes_high_bytes() {
    assert!(is_discard(&property_debug_hex_lowercase(0x41)));
    assert!(is_discard(&property_debug_hex_lowercase(0x7f)));
    for b in 0x80u8..=0xff {
        assert!(is_pass(&property_debug_hex_lowercase(b)));
    }
}
