//! Property checks over byte strings. Each `property_*` takes concrete, owned
//! inputs and says whether the property held (`Pass`), did not (`Fail`, with a
//! description), or does not apply to the inputs (`Discard`).
use vstd::prelude::*;
use vstd::utf8::encode_utf8;

use std::borrow::Cow;

use crate::equality::{bstr_eq_cow, bytes_eq, cow_eq_bstr};
use crate::render::{
    byte_hex_escape, debug_chars, debug_render, debug_string, fffd_bytes, hex_pair, is_escaped_control,
    lemma_ascii_control_renders_hex, lemma_high_byte_renders_hex,
};
use crate::search::{contains_occurrence, find_first, lemma_first_occurrence, occurs_at, occurs_in};
use crate::split::{
    lemma_rsplitn_count, lemma_splitn_count, rsplitn_str, split_str, splitn_str,
};
use crate::text::{
    bool_chars, bool_text, chars_of, decimal, decimal_chars, push_chars, str_debug, str_debug_of, string_from_chars,
};

verus! {

/// The outcome of a property check.
pub enum PropertyResult {
    Pass,
    Fail(String),
    Discard,
}

/// Appends the characters of `s` to `out`.
fn push_str(out: &mut Vec<char>, s: &str)
    ensures
        final(out)@ == old(out)@ + s@,
{
    let cs = chars_of(s);
    push_chars(out, &cs);
}

/// Appends the decimal numeral of `v` to `out`.
fn push_decimal(out: &mut Vec<char>, v: usize)
    ensures
        final(out)@ == old(out)@ + decimal(v as nat),
{
    let cs = decimal_chars(v as u128);
    push_chars(out, &cs);
}

/// Appends the debug rendering of the byte string `b` to `out`.
fn push_debug(out: &mut Vec<char>, b: &[u8])
    ensures
        final(out)@ == old(out)@ + debug_render(b@),
{
    let cs = debug_chars(b);
    push_chars(out, &cs);
}

/// Appends std's debug rendering of the string `s` to `out`.
fn push_str_debug(out: &mut Vec<char>, s: &String)
    ensures
        final(out)@ == old(out)@ + str_debug_of(s@),
{
    let d = str_debug(s.as_str());
    push_str(out, d.as_str());
}

/// The description of a piece count that differs from the expected one.
pub open spec fn splitn_mismatch_text(
    name: Seq<char>,
    n: nat,
    needle: Seq<u8>,
    haystack: Seq<u8>,
    got: nat,
    expected: nat,
    full: nat,
) -> Seq<char> {
    name + "("@ + decimal(n) + ", "@ + debug_render(needle) + ") on "@ + debug_render(haystack)
        + ": got "@ + decimal(got) + " items, expected "@ + decimal(expected)
        + " (split_str count = "@ + decimal(full) + ")"@
}

/// Describes a piece count that differs from the expected one.
fn splitn_mismatch(
    name: &str,
    n: usize,
    needle: &[u8],
    haystack: &[u8],
    got: usize,
    expected: usize,
    full: usize,
) -> (r: String)
    ensures
        r@ == splitn_mismatch_text(
            name@,
            n as nat,
            needle@,
            haystack@,
            got as nat,
            expected as nat,
            full as nat,
        ),
{
    let mut m: Vec<char> = Vec::new();
    push_str(&mut m, name);
    push_str(&mut m, "(");
    push_decimal(&mut m, n);
    push_str(&mut m, ", ");
    push_debug(&mut m, needle);
    push_str(&mut m, ") on ");
    push_debug(&mut m, haystack);
    push_str(&mut m, ": got ");
    push_decimal(&mut m, got);
    push_str(&mut m, " items, expected ");
    push_decimal(&mut m, expected);
    push_str(&mut m, " (split_str count = ");
    push_decimal(&mut m, full);
    push_str(&mut m, ")");
    assert(m@ =~= splitn_mismatch_text(
        name@,
        n as nat,
        needle@,
        haystack@,
        got as nat,
        expected as nat,
        full as nat,
    ));
    string_from_chars(&m)
}

/// `splitn_str(n, needle).count() == min(n, split_str(needle).count())`, and the
/// same for `rsplitn_str`. An empty needle is discarded.
pub fn property_splitn_bounded(haystack: Vec<u8>, needle: Vec<u8>, n: u32) -> (r: PropertyResult)
    ensures
        needle@.len() == 0 ==> r is Discard,
        needle@.len() > 0 ==> r is Pass,
{
    if needle.len() == 0 {
        return PropertyResult::Discard;
    }
    let n = n as usize;
    let full = split_str(haystack.as_slice(), needle.as_slice()).len();
    let expected = if n < full {
        n
    } else {
        full
    };
    let forward = splitn_str(haystack.as_slice(), n, needle.as_slice()).len();
    proof {
        lemma_splitn_count(haystack@, needle@, n as int);
        lemma_rsplitn_count(haystack@, needle@, n as int);
    }
    if forward != expected {
        return PropertyResult::Fail(
            splitn_mismatch(
                "splitn_str",
                n,
                needle.as_slice(),
                haystack.as_slice(),
                forward,
                expected,
                full,
            ),
        );
    }
    let reverse = rsplitn_str(haystack.as_slice(), n, needle.as_slice()).len();
    if reverse != expected {
        return PropertyResult::Fail(
            splitn_mismatch(
                "rsplitn_str",
                n,
                needle.as_slice(),
                haystack.as_slice(),
                reverse,
                expected,
                full,
            ),
        );
    }
    PropertyResult::Pass
}

/// The description of a comparison between a byte string and a `Cow` whose
/// result differs from the comparison of their bytes.
pub open spec fn cow_mismatch_text(
    cow_on_left: bool,
    a: Seq<u8>,
    b: Seq<u8>,
    got: bool,
    expected: bool,
) -> Seq<char> {
    if cow_on_left {
        "Cow<BStr> == &BStr: Cow::Borrowed("@ + debug_render(a) + ") == "@ + debug_render(b)
            + " returned "@ + bool_text(got) + ", but bytes equal? "@ + bool_text(expected)
    } else {
        "&BStr == Cow<BStr>: "@ + debug_render(a) + " == Cow::Borrowed("@ + debug_render(b)
            + ")"@ + " returned "@ + bool_text(got) + ", but bytes equal? "@ + bool_text(
            expected,
        )
    }
}

/// Describes a comparison between a byte string and a `Cow` whose result differs
/// from the comparison of their bytes.
fn cow_mismatch(cow_on_left: bool, a: &[u8], b: &[u8], got: bool, expected: bool) -> (r: String)
    ensures
        r@ == cow_mismatch_text(cow_on_left, a@, b@, got, expected),
{
    let mut m: Vec<char> = Vec::new();
    if cow_on_left {
        push_str(&mut m, "Cow<BStr> == &BStr: Cow::Borrowed(");
        push_debug(&mut m, a);
        push_str(&mut m, ") == ");
        push_debug(&mut m, b);
    } else {
        push_str(&mut m, "&BStr == Cow<BStr>: ");
        push_debug(&mut m, a);
        push_str(&mut m, " == Cow::Borrowed(");
        push_debug(&mut m, b);
        push_str(&mut m, ")");
    }
    push_str(&mut m, " returned ");
    let g = bool_chars(got);
    push_chars(&mut m, &g);
    push_str(&mut m, ", but bytes equal? ");
    let e = bool_chars(expected);
    push_chars(&mut m, &e);
    assert(m@ =~= cow_mismatch_text(cow_on_left, a@, b@, got, expected));
    string_from_chars(&m)
}

/// `&BStr == Cow<BStr>` and `Cow<BStr> == &BStr` both agree with the equality of
/// the underlying bytes.
pub fn property_cow_partialeq_bstr(a: Vec<u8>, b: Vec<u8>) -> (r: PropertyResult)
    ensures
        r is Pass,
{
    let bs_a = a.as_slice();
    let bs_b = b.as_slice();
    let cow_b: Cow<'_, [u8]> = Cow::Borrowed(bs_b);
    let cow_a: Cow<'_, [u8]> = Cow::Borrowed(bs_a);
    let expected = bytes_eq(a.as_slice(), b.as_slice());
    let forward = bstr_eq_cow(bs_a, &cow_b);
    if forward != expected {
        return PropertyResult::Fail(cow_mismatch(false, bs_a, bs_b, forward, expected));
    }
    let reverse = cow_eq_bstr(&cow_a, bs_b);
    if reverse != expected {
        return PropertyResult::Fail(cow_mismatch(true, bs_a, bs_b, reverse, expected));
    }
    PropertyResult::Pass
}

/// The bytes that `property_debug_valid_fffd_preserved` renders.
pub open spec fn fffd_input(prefix: Seq<u8>, suffix: Seq<u8>) -> Seq<u8> {
    prefix + fffd_bytes() + suffix
}

/// What `property_debug_valid_fffd_preserved` reports when the rendering of
/// `prefix`, U+FFFD and `suffix` lost the three bytes of U+FFFD.
pub open spec fn fffd_failure_text(prefix: Seq<u8>, suffix: Seq<u8>) -> Seq<char> {
    "Debug of "@ + debug_render(fffd_input(prefix, suffix)) + " dropped raw FFFD: "@
        + str_debug_of(debug_render(fffd_input(prefix, suffix)))
}

/// The debug rendering of `prefix`, a well-formed U+FFFD and `suffix` keeps the
/// three bytes of U+FFFD in its UTF-8 encoding.
pub fn property_debug_valid_fffd_preserved(prefix: Vec<u8>, suffix: Vec<u8>) -> (r:
    PropertyResult)
    ensures
        r is Pass <==> contains_occurrence(
            encode_utf8(debug_render(fffd_input(prefix@, suffix@))),
            fffd_bytes(),
        ),
        r is Pass || r is Fail,
        r matches PropertyResult::Fail(m) ==> m@ == fffd_failure_text(prefix@, suffix@),
{
    let mut input = prefix;
    input.push(0xEF);
    input.push(0xBF);
    input.push(0xBD);
    let mut rest = suffix;
    input.append(&mut rest);
    assert(input@ =~= fffd_input(prefix@, suffix@));
    let rendered = debug_string(input.as_slice());
    let mut fffd: Vec<u8> = Vec::new();
    fffd.push(0xEF);
    fffd.push(0xBF);
    fffd.push(0xBD);
    assert(fffd@ =~= fffd_bytes());
    let rendered_bytes = rendered.as_str().as_bytes();
    let found = find_first(rendered_bytes, fffd.as_slice(), 0, rendered_bytes.len());
    proof {
        lemma_first_occurrence(rendered_bytes@, fffd@, 0, rendered_bytes@.len() as int);
        if let Some(i) = found {
            assert(occurs_at(rendered_bytes@, fffd@, i as int));
        } else {
            if contains_occurrence(rendered_bytes@, fffd@) {
                let i = choose|i: int| occurs_at(rendered_bytes@, fffd@, i);
                assert(occurs_in(
                    rendered_bytes@,
                    fffd@,
                    0,
                    rendered_bytes@.len() as int,
                    i,
                ));
            }
        }
    }
    if found.is_some() {
        PropertyResult::Pass
    } else {
        let mut m: Vec<char> = Vec::new();
        push_str(&mut m, "Debug of ");
        push_debug(&mut m, input.as_slice());
        push_str(&mut m, " dropped raw FFFD: ");
        push_str_debug(&mut m, &rendered);
        PropertyResult::Fail(string_from_chars(&m))
    }
}

/// `"\xNN"`: the byte in lowercase hexadecimal between double quotes.
fn quoted_hex_escape(byte: u8) -> (r: String)
    ensures
        r@ == seq!['"'] + byte_hex_escape(byte) + seq!['"'],
{
    let mut cs: Vec<char> = Vec::new();
    cs.push('"');
    let mut e: Vec<char> = Vec::new();
    e.push('\\');
    e.push('x');
    let hex = hex_digits(byte);
    push_chars(&mut e, &hex);
    push_chars(&mut cs, &e);
    cs.push('"');
    assert(cs@ =~= seq!['"'] + byte_hex_escape(byte) + seq!['"']);
    string_from_chars(&cs)
}

/// The two lowercase hexadecimal digits of `byte`.
fn hex_digits(byte: u8) -> (r: Vec<char>)
    ensures
        r@ == hex_pair(byte),
{
    let mut cs: Vec<char> = Vec::new();
    let hi = byte / 16;
    let lo = byte % 16;
    cs.push(if hi < 10 { (48u8 + hi) as char } else { (87u8 + hi) as char });
    cs.push(if lo < 10 { (48u8 + lo) as char } else { (87u8 + lo) as char });
    assert(cs@ =~= hex_pair(byte));
    cs
}

/// The description of a single byte whose rendering differs from the expected
/// one.
pub open spec fn byte_mismatch_text(byte: u8, rendered: Seq<char>, expected: Seq<char>) -> Seq<
    char,
> {
    "Debug of [0x"@ + hex_pair(byte) + "] = "@ + str_debug_of(rendered) + ", expected "@
        + str_debug_of(expected)
}

/// Describes a single byte whose rendering differs from the expected one.
fn byte_mismatch(byte: u8, rendered: &String, expected: &String) -> (r: String)
    ensures
        r@ == byte_mismatch_text(byte, rendered@, expected@),
{
    let mut m: Vec<char> = Vec::new();
    push_str(&mut m, "Debug of [0x");
    let hex = hex_digits(byte);
    push_chars(&mut m, &hex);
    push_str(&mut m, "] = ");
    push_str_debug(&mut m, rendered);
    push_str(&mut m, ", expected ");
    push_str_debug(&mut m, expected);
    assert(m@ =~= byte_mismatch_text(byte, rendered@, expected@));
    string_from_chars(&m)
}

/// The debug rendering of an ASCII control byte (other than NUL, tab, line feed
/// and carriage return) uses `\xNN`; other bytes are discarded.
pub fn property_debug_ascii_control_hex(byte: u8) -> (r: PropertyResult)
    ensures
        is_escaped_control(byte) ==> r is Pass,
        !is_escaped_control(byte) ==> r is Discard,
{
    if byte == 0 || byte == 0x09 || byte == 0x0A || byte == 0x0D {
        return PropertyResult::Discard;
    }
    if byte > 0x7F {
        return PropertyResult::Discard;
    }
    if 0x20 <= byte && byte <= 0x7E {
        return PropertyResult::Discard;
    }
    let mut input: Vec<u8> = Vec::new();
    input.push(byte);
    proof {
        lemma_ascii_control_renders_hex(byte);
        assert(input@ =~= seq![byte]);
    }
    let rendered = debug_string(input.as_slice());
    let expected = quoted_hex_escape(byte);
    if rendered == expected {
        PropertyResult::Pass
    } else {
        PropertyResult::Fail(byte_mismatch(byte, &rendered, &expected))
    }
}

/// The debug rendering of a byte at or above 0x80 on its own, never well-formed
/// UTF-8, is `\xNN` in lowercase hexadecimal; lower bytes are discarded.
pub fn property_debug_hex_lowercase(byte: u8) -> (r: PropertyResult)
    ensures
        byte < 0x80 ==> r is Discard,
        byte >= 0x80 ==> r is Pass,
{
    if byte < 0x80 {
        return PropertyResult::Discard;
    }
    let mut input: Vec<u8> = Vec::new();
    input.push(byte);
    proof {
        lemma_high_byte_renders_hex(byte);
        assert(input@ =~= seq![byte]);
    }
    let rendered = debug_string(input.as_slice());
    let expected = quoted_hex_escape(byte);
    if rendered == expected {
        PropertyResult::Pass
    } else {
        PropertyResult::Fail(byte_mismatch(byte, &rendered, &expected))
    }
}

} // verus!
