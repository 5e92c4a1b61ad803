//! Decoding one UTF-8 unit at a time out of bytes that may not be valid UTF-8.
//! A unit is either one well-formed encoded scalar, or the longest prefix of a
//! well-formed sequence that the bytes start (at least one byte), which stands
//! for U+FFFD: the "substitution of maximal subparts" of the Unicode standard.
use vstd::prelude::*;
use vstd::utf8::{
    char_is_scalar, char_u32_cast, encode_scalar, encode_utf8, has_width_1_encoding,
    has_width_2_encoding, has_width_3_encoding, is_scalar,
};

verus! {


/// The length of the well-formed sequence that a leading byte starts, or 0 for a
/// byte that starts none.
pub open spec fn lead_width(b: u8) -> int {
    if b <= 0x7F {
        1
    } else if 0xC2 <= b <= 0xDF {
        2
    } else if 0xE0 <= b <= 0xEF {
        3
    } else if 0xF0 <= b <= 0xF4 {
        4
    } else {
        0
    }
}

/// A continuation byte, `10xxxxxx`.
pub open spec fn is_continuation(b: u8) -> bool {
    0x80 <= b <= 0xBF
}

/// The byte after the leading byte `b0` of a well-formed sequence.
pub open spec fn second_byte_ok(b0: u8, b1: u8) -> bool {
    if b0 == 0xE0 {
        0xA0 <= b1 <= 0xBF
    } else if b0 == 0xED {
        0x80 <= b1 <= 0x9F
    } else if b0 == 0xF0 {
        0x90 <= b1 <= 0xBF
    } else if b0 == 0xF4 {
        0x80 <= b1 <= 0x8F
    } else {
        is_continuation(b1)
    }
}

/// How many bytes the unit that starts at `i` spans.
pub open spec fn unit_len(s: Seq<u8>, i: int) -> int {
    let w = lead_width(s[i]);
    if w <= 1 {
        1
    } else if !(i + 1 < s.len() && second_byte_ok(s[i], s[i + 1])) {
        1
    } else if w == 2 {
        2
    } else if !(i + 2 < s.len() && is_continuation(s[i + 2])) {
        2
    } else if w == 3 {
        3
    } else if !(i + 3 < s.len() && is_continuation(s[i + 3])) {
        3
    } else {
        4
    }
}

/// The unit at `i` is a well-formed encoded scalar.
pub open spec fn unit_valid(s: Seq<u8>, i: int) -> bool {
    lead_width(s[i]) >= 1 && unit_len(s, i) == lead_width(s[i])
}

/// The scalar that a well-formed unit at `i` encodes.
pub open spec fn unit_scalar(s: Seq<u8>, i: int) -> u32 {
    let w = lead_width(s[i]);
    if w == 1 {
        s[i] as u32
    } else if w == 2 {
        ((s[i] as u32 & 0x1F) << 6u32) | (s[i + 1] as u32 & 0x3F)
    } else if w == 3 {
        ((s[i] as u32 & 0x0F) << 12u32) | ((s[i + 1] as u32 & 0x3F) << 6u32) | (s[i + 2] as u32
            & 0x3F)
    } else {
        ((s[i] as u32 & 0x07) << 18u32) | ((s[i + 1] as u32 & 0x3F) << 12u32) | ((s[i + 2] as u32
            & 0x3F) << 6u32) | (s[i + 3] as u32 & 0x3F)
    }
}

/// The character that the unit at `i` decodes to: its scalar, or U+FFFD for an
/// ill-formed unit.
pub open spec fn unit_char(s: Seq<u8>, i: int) -> char {
    if unit_valid(s, i) {
        unit_scalar(s, i) as char
    } else {
        '\u{FFFD}'
    }
}

/// `char::from_u32` of std: the character whose scalar value is `v`, or `None`
/// when `v` is a surrogate or above U+10FFFF. The contract restates std's
/// documentation of that function.
#[verifier::external_body]
fn char_from_scalar(v: u32) -> (r: Option<char>)
    ensures
        match r {
            Some(c) => is_scalar(v) && c as u32 == v,
            None => !is_scalar(v),
        },
{
    char::from_u32(v)
}

/// The character with scalar value `v`, when there is one.
fn scalar_char(v: u32) -> (r: Option<char>)
    ensures
        r == if is_scalar(v) {
            Some(v as char)
        } else {
            None
        },
{
    let c = char_from_scalar(v);
    proof {
        if let Some(ch) = c {
            vstd::utf8::char_u32_cast(ch, v);
        }
    }
    c
}

proof fn lemma_width2_scalar(b0: u8, b1: u8)
    requires
        0xC2 <= b0 <= 0xDF,
        0x80 <= b1 <= 0xBF,
    ensures
        is_scalar(((b0 as u32 & 0x1F) << 6u32) | (b1 as u32 & 0x3F)),
{
    assert(0xC2 <= b0 <= 0xDF && 0x80 <= b1 <= 0xBF ==> 0x80 <= (((b0 as u32 & 0x1F) << 6u32) | (
    b1 as u32 & 0x3F)) <= 0x7FF) by (bit_vector);
}

proof fn lemma_width3_scalar(b0: u8, b1: u8, b2: u8)
    requires
        0xE0 <= b0 <= 0xEF,
        second_byte_ok(b0, b1),
        0x80 <= b2 <= 0xBF,
    ensures
        is_scalar(
            ((b0 as u32 & 0x0F) << 12u32) | ((b1 as u32 & 0x3F) << 6u32) | (b2 as u32 & 0x3F),
        ),
{
    let v = ((b0 as u32 & 0x0F) << 12u32) | ((b1 as u32 & 0x3F) << 6u32) | (b2 as u32 & 0x3F);
    if b0 == 0xE0 {
        assert(b0 == 0xE0 && 0xA0 <= b1 <= 0xBF && 0x80 <= b2 <= 0xBF ==> 0x800 <= (((b0 as u32
            & 0x0F) << 12u32) | ((b1 as u32 & 0x3F) << 6u32) | (b2 as u32 & 0x3F)) <= 0xFFF)
            by (bit_vector);
    } else if b0 == 0xED {
        assert(b0 == 0xED && 0x80 <= b1 <= 0x9F && 0x80 <= b2 <= 0xBF ==> 0xD000 <= (((b0 as u32
            & 0x0F) << 12u32) | ((b1 as u32 & 0x3F) << 6u32) | (b2 as u32 & 0x3F)) <= 0xD7FF)
            by (bit_vector);
    } else if b0 <= 0xEC {
        assert(0xE1 <= b0 <= 0xEC && 0x80 <= b1 <= 0xBF && 0x80 <= b2 <= 0xBF ==> 0x1000 <= (((b0
            as u32 & 0x0F) << 12u32) | ((b1 as u32 & 0x3F) << 6u32) | (b2 as u32 & 0x3F))
            <= 0xCFFF) by (bit_vector);
    } else {
        assert(0xEE <= b0 <= 0xEF && 0x80 <= b1 <= 0xBF && 0x80 <= b2 <= 0xBF ==> 0xE000 <= (((b0
            as u32 & 0x0F) << 12u32) | ((b1 as u32 & 0x3F) << 6u32) | (b2 as u32 & 0x3F))
            <= 0xFFFF) by (bit_vector);
    }
}

proof fn lemma_width4_scalar(b0: u8, b1: u8, b2: u8, b3: u8)
    requires
        0xF0 <= b0 <= 0xF4,
        second_byte_ok(b0, b1),
        0x80 <= b2 <= 0xBF,
        0x80 <= b3 <= 0xBF,
    ensures
        is_scalar(
            ((b0 as u32 & 0x07) << 18u32) | ((b1 as u32 & 0x3F) << 12u32) | ((b2 as u32 & 0x3F)
                << 6u32) | (b3 as u32 & 0x3F),
        ),
{
    if b0 == 0xF0 {
        assert(b0 == 0xF0 && 0x90 <= b1 <= 0xBF && 0x80 <= b2 <= 0xBF && 0x80 <= b3 <= 0xBF
            ==> 0x10000 <= (((b0 as u32 & 0x07) << 18u32) | ((b1 as u32 & 0x3F) << 12u32) | ((b2
            as u32 & 0x3F) << 6u32) | (b3 as u32 & 0x3F)) <= 0x3FFFF) by (bit_vector);
    } else if b0 == 0xF4 {
        assert(b0 == 0xF4 && 0x80 <= b1 <= 0x8F && 0x80 <= b2 <= 0xBF && 0x80 <= b3 <= 0xBF
            ==> 0x100000 <= (((b0 as u32 & 0x07) << 18u32) | ((b1 as u32 & 0x3F) << 12u32) | ((b2
            as u32 & 0x3F) << 6u32) | (b3 as u32 & 0x3F)) <= 0x10FFFF) by (bit_vector);
    } else {
        assert(0xF1 <= b0 <= 0xF3 && 0x80 <= b1 <= 0xBF && 0x80 <= b2 <= 0xBF && 0x80 <= b3
            <= 0xBF ==> 0x40000 <= (((b0 as u32 & 0x07) << 18u32) | ((b1 as u32 & 0x3F) << 12u32)
            | ((b2 as u32 & 0x3F) << 6u32) | (b3 as u32 & 0x3F)) <= 0xFFFFF) by (bit_vector);
    }
}

/// Decodes the unit that starts at `at`: the character, when the unit is
/// well-formed, and the number of bytes the unit spans.
pub fn decode_unit(bytes: &[u8], at: usize) -> (r: (Option<char>, usize))
    requires
        at < bytes@.len(),
    ensures
        r.1 == unit_len(bytes@, at as int),
        1 <= r.1 <= 4,
        at + r.1 <= bytes@.len(),
        r.0 == if unit_valid(bytes@, at as int) {
            Some(unit_char(bytes@, at as int))
        } else {
            None
        },
{
    let s = bytes;
    let len = s.len();
    let i = at;
    let b0 = s[i];
    if b0 <= 0x7F {
        proof {
            assert(is_scalar(b0 as u32));
        }
        let c = scalar_char(b0 as u32);
        return (c, 1);
    }
    let w: usize = if 0xC2 <= b0 && b0 <= 0xDF {
        2
    } else if 0xE0 <= b0 && b0 <= 0xEF {
        3
    } else if 0xF0 <= b0 && b0 <= 0xF4 {
        4
    } else {
        0
    };
    if w == 0 {
        return (None, 1);
    }
    if !(i + 1 < len && second_ok(b0, s[i + 1])) {
        return (None, 1);
    }
    let b1 = s[i + 1];
    if w == 2 {
        let v = ((b0 as u32 & 0x1F) << 6u32) | (b1 as u32 & 0x3F);
        proof {
            lemma_width2_scalar(b0, b1);
        }
        let c = scalar_char(v);
        return (c, 2);
    }
    if !(i + 2 < len && 0x80 <= s[i + 2] && s[i + 2] <= 0xBF) {
        return (None, 2);
    }
    let b2 = s[i + 2];
    if w == 3 {
        let v = ((b0 as u32 & 0x0F) << 12u32) | ((b1 as u32 & 0x3F) << 6u32) | (b2 as u32 & 0x3F);
        proof {
            lemma_width3_scalar(b0, b1, b2);
        }
        let c = scalar_char(v);
        return (c, 3);
    }
    if !(i + 3 < len && 0x80 <= s[i + 3] && s[i + 3] <= 0xBF) {
        return (None, 3);
    }
    let b3 = s[i + 3];
    let v = ((b0 as u32 & 0x07) << 18u32) | ((b1 as u32 & 0x3F) << 12u32) | ((b2 as u32 & 0x3F)
        << 6u32) | (b3 as u32 & 0x3F);
    proof {
        lemma_width4_scalar(b0, b1, b2, b3);
    }
    let c = scalar_char(v);
    (c, 4)
}

/// Whether `b1` may follow the leading byte `b0` in a well-formed sequence.
fn second_ok(b0: u8, b1: u8) -> (r: bool)
    ensures
        r == second_byte_ok(b0, b1),
{
    if b0 == 0xE0 {
        0xA0 <= b1 && b1 <= 0xBF
    } else if b0 == 0xED {
        0x80 <= b1 && b1 <= 0x9F
    } else if b0 == 0xF0 {
        0x90 <= b1 && b1 <= 0xBF
    } else if b0 == 0xF4 {
        0x80 <= b1 && b1 <= 0x8F
    } else {
        0x80 <= b1 && b1 <= 0xBF
    }
}

/// Decoding agrees with UTF-8: wherever the bytes from `i` on start with the
/// UTF-8 encoding of a character `c`, the unit at `i` is well-formed, spans
/// exactly that encoding and decodes to `c`, whatever bytes follow it.
pub proof fn lemma_decode_encoded_char(s: Seq<u8>, i: int, c: char)
    requires
        0 <= i,
        i + encode_utf8(seq![c]).len() <= s.len(),
        s.subrange(i, i + encode_utf8(seq![c]).len()) == encode_utf8(seq![c]),
    ensures
        unit_valid(s, i),
        unit_len(s, i) == encode_utf8(seq![c]).len(),
        unit_char(s, i) == c,
{
    let v = c as u32;
    let e = encode_scalar(v);
    assert(seq![c].drop_first() =~= Seq::<char>::empty());
    assert(encode_utf8(Seq::<char>::empty()) == Seq::<u8>::empty());
    assert(encode_utf8(seq![c]) == encode_scalar(seq![c][0] as u32) + encode_utf8(
        seq![c].drop_first(),
    ));
    assert(encode_utf8(seq![c]) =~= e);
    char_is_scalar(c);
    let n = e.len() as int;
    assert forall|k: int| 0 <= k < n implies s[i + k] == e[k] by {
        assert(s.subrange(i, i + n)[k] == s[i + k]);
    }
    if has_width_1_encoding(v) {
        let b0 = s[i];
        assert(b0 == e[0]);
        assert(v <= 0x7F ==> ((v & 0x7F) as u8) as u32 == v) by (bit_vector);
        assert(unit_scalar(s, i) == v);
    } else if has_width_2_encoding(v) {
        let b0 = s[i];
        let b1 = s[i + 1];
        assert(b0 == e[0] && b1 == e[1]);
        assert(0x80 <= v <= 0x7FF ==> {
            let x0 = (0xC0u8 | ((v >> 6u32) & 0x1F) as u8);
            let x1 = (0x80u8 | (v & 0x3F) as u8);
            &&& 0xC2 <= x0 <= 0xDF
            &&& 0x80 <= x1 <= 0xBF
            &&& (((x0 as u32 & 0x1F) << 6u32) | (x1 as u32 & 0x3F)) == v
        }) by (bit_vector);
        assert(unit_scalar(s, i) == v);
    } else if has_width_3_encoding(v) {
        let b0 = s[i];
        let b1 = s[i + 1];
        let b2 = s[i + 2];
        assert(b0 == e[0] && b1 == e[1] && b2 == e[2]);
        assert(0x800 <= v <= 0xFFFF && !(0xD800 <= v <= 0xDFFF) ==> {
            let x0 = (0xE0u8 | ((v >> 12u32) & 0x0F) as u8);
            let x1 = (0x80u8 | ((v >> 6u32) & 0x3F) as u8);
            let x2 = (0x80u8 | (v & 0x3F) as u8);
            &&& 0xE0 <= x0 <= 0xEF
            &&& 0x80 <= x1 <= 0xBF
            &&& 0x80 <= x2 <= 0xBF
            &&& (x0 == 0xE0 ==> 0xA0 <= x1)
            &&& (x0 == 0xED ==> x1 <= 0x9F)
            &&& (((x0 as u32 & 0x0F) << 12u32) | ((x1 as u32 & 0x3F) << 6u32) | (x2 as u32
                & 0x3F)) == v
        }) by (bit_vector);
        assert(second_byte_ok(b0, b1));
        assert(unit_scalar(s, i) == v);
    } else {
        let b0 = s[i];
        let b1 = s[i + 1];
        let b2 = s[i + 2];
        let b3 = s[i + 3];
        assert(b0 == e[0] && b1 == e[1] && b2 == e[2] && b3 == e[3]);
        assert(0x10000 <= v <= 0x10FFFF ==> {
            let x0 = (0xF0u8 | ((v >> 18u32) & 0x7) as u8);
            let x1 = (0x80u8 | ((v >> 12u32) & 0x3F) as u8);
            let x2 = (0x80u8 | ((v >> 6u32) & 0x3F) as u8);
            let x3 = (0x80u8 | (v & 0x3F) as u8);
            &&& 0xF0 <= x0 <= 0xF4
            &&& 0x80 <= x1 <= 0xBF
            &&& 0x80 <= x2 <= 0xBF
            &&& 0x80 <= x3 <= 0xBF
            &&& (x0 == 0xF0 ==> 0x90 <= x1)
            &&& (x0 == 0xF4 ==> x1 <= 0x8F)
            &&& (((x0 as u32 & 0x07) << 18u32) | ((x1 as u32 & 0x3F) << 12u32) | ((x2 as u32
                & 0x3F) << 6u32) | (x3 as u32 & 0x3F)) == v
        }) by (bit_vector);
        assert(second_byte_ok(b0, b1));
        assert(unit_scalar(s, i) == v);
    }
    char_u32_cast(c, v);
}

/// A unit is reported ill-formed only where the bytes from `i` on start with
/// the UTF-8 encoding of no character at all.
pub proof fn lemma_ill_formed_unit_encodes_nothing(s: Seq<u8>, i: int)
    requires
        0 <= i < s.len(),
        !unit_valid(s, i),
    ensures
        forall|c: char|
            !(i + encode_utf8(seq![c]).len() <= s.len() && #[trigger] s.subrange(
                i,
                i + encode_utf8(seq![c]).len(),
            ) == encode_utf8(seq![c])),
{
    assert forall|c: char|
        !(i + encode_utf8(seq![c]).len() <= s.len() && #[trigger] s.subrange(
            i,
            i + encode_utf8(seq![c]).len(),
        ) == encode_utf8(seq![c])) by {
        if i + encode_utf8(seq![c]).len() <= s.len() && s.subrange(
            i,
            i + encode_utf8(seq![c]).len(),
        ) == encode_utf8(seq![c]) {
            lemma_decode_encoded_char(s, i, c);
        }
    }
}

} // verus!
