// Deterministic witness tests: each calls a property with frozen inputs and
// expects it to pass.

use bstr::etna::{
    property_cow_partialeq_bstr, property_debug_ascii_control_hex,
    property_debug_hex_lowercase, property_debug_valid_fffd_preserved,
    property_splitn_bounded, PropertyResult,
};

fn expect_pass(r: PropertyResult, what: &str) {
    match r {
        PropertyResult::Pass => (),
        PropertyResult::Fail(m) => panic!("{what}: property failed: {m}"),
        PropertyResult::Discard => panic!("{what}: unexpected discard"),
    }
}

#[test]
fn witness_splitn_bounded_case_no_needle_in_haystack() {
    expect_pass(
        property_splitn_bounded(b"ab".to_vec(), b":".to_vec(), 2),
        "splitn_str(2, \":\") on b\"ab\"",
    );
}

#[test]
fn witness_splitn_bounded_case_needle_once_extra_limit() {
    expect_pass(
        property_splitn_bounded(b"a:b".to_vec(), b":".to_vec(), 3),
        "splitn_str(3, \":\") on b\"a:b\"",
    );
}

#[test]
fn witness_cow_partialeq_bstr_case_distinct_bytes() {
    expect_pass(
        property_cow_partialeq_bstr(b"hello".to_vec(), b"goodbye".to_vec()),
        "&BStr(hello) vs Cow(goodbye)",
    );
}

#[test]
fn witness_cow_partialeq_bstr_case_distinct_lengths() {
    expect_pass(
        property_cow_partialeq_bstr(b"abc".to_vec(), b"ab".to_vec()),
        "&BStr(abc) vs Cow(ab)",
    );
}

#[test]
fn witness_debug_valid_fffd_preserved_case_bare() {
    expect_pass(
        property_debug_valid_fffd_preserved(Vec::new(), Vec::new()),
        "Debug of valid FFFD alone",
    );
}

#[test]
fn witness_debug_valid_fffd_preserved_case_sandwiched() {
    expect_pass(
        property_debug_valid_fffd_preserved(b"\xFF".to_vec(), b"\xFF".to_vec()),
        "Debug of 0xFF, FFFD, 0xFF",
    );
}

#[test]
fn witness_debug_ascii_control_hex_case_low_stx() {
    expect_pass(
        property_debug_ascii_control_hex(0x02),
        "Debug of byte 0x02",
    );
}

#[test]
fn witness_debug_ascii_control_hex_case_high_fs() {
    expect_pass(
        property_debug_ascii_control_hex(0x1c),
        "Debug of byte 0x1c",
    );
}

#[test]
fn witness_debug_hex_lowercase_case_ff() {
    expect_pass(
        property_debug_hex_lowercase(0xff),
        "Debug of byte 0xff",
    );
}

#[test]
fn witness_debug_hex_lowercase_case_ed() {
    expect_pass(
        property_debug_hex_lowercase(0xed),
        "Debug of byte 0xed",
    );
}
