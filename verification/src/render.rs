//! The quoted debug rendering of a byte string: ASCII escaped as `u8::escape_ascii`
//! escapes it, NUL as `\0`, well-formed non-ASCII characters through
//! `char::escape_debug`, and each byte of an ill-formed unit as `\xNN` in
//! lowercase hex, while a well-formed U+FFFD stays a character.
use vstd::prelude::*;
use vstd::utf8::{encode_scalar, encode_utf8};

use crate::decode::{
    decode_unit, is_continuation, second_byte_ok, unit_char, unit_len, unit_scalar, unit_valid,
};
use crate::search::{contains_occurrence, occurs_at};
use crate::text::{escape_debug_chars, escape_debug_of, push_chars, string_from_chars};

verus! {

/// The lowercase hexadecimal digit for `d < 16`.
pub open spec fn hex_digit(d: u8) -> char {
    if d < 10 {
        (48 + d) as char
    } else {
        (87 + d) as char
    }
}

/// The two lowercase hexadecimal digits of a byte (`{:02x}`).
pub open spec fn hex_pair(b: u8) -> Seq<char> {
    seq![hex_digit(b / 16), hex_digit(b % 16)]
}

/// `\xNN`, the byte in lowercase hexadecimal.
pub open spec fn byte_hex_escape(b: u8) -> Seq<char> {
    seq!['\\', 'x'] + hex_pair(b)
}

/// `\xNN` for each byte, in order.
pub open spec fn hex_escapes(bs: Seq<u8>) -> Seq<char>
    decreases bs.len(),
{
    if bs.len() == 0 {
        Seq::empty()
    } else {
        hex_escapes(bs.drop_last()) + byte_hex_escape(bs.last())
    }
}

/// How `u8::escape_ascii` of std renders a byte: tab, carriage return, line
/// feed, backslash and both quotes with a backslash, printable ASCII as itself,
/// every other byte as `\xNN` in lowercase hexadecimal.
pub open spec fn ascii_escape(b: u8) -> Seq<char> {
    if b == 0x09 {
        seq!['\\', 't']
    } else if b == 0x0D {
        seq!['\\', 'r']
    } else if b == 0x0A {
        seq!['\\', 'n']
    } else if b == 0x5C {
        seq!['\\', '\\']
    } else if b == 0x27 {
        seq!['\\', '\'']
    } else if b == 0x22 {
        seq!['\\', '"']
    } else if 0x20 <= b <= 0x7E {
        seq![b as char]
    } else {
        byte_hex_escape(b)
    }
}

/// The encoding of U+FFFD.
pub open spec fn fffd_bytes() -> Seq<u8> {
    seq![0xEFu8, 0xBFu8, 0xBDu8]
}

/// How the unit that starts at `i` is rendered.
pub open spec fn render_unit(s: Seq<u8>, i: int) -> Seq<char> {
    let len = unit_len(s, i);
    let ch = unit_char(s, i);
    if ch == '\0' {
        seq!['\\', '0']
    } else if (ch as u32) <= 0x7F {
        ascii_escape((ch as u32) as u8)
    } else if ch == '\u{FFFD}' {
        if s.subrange(i, i + len) == fffd_bytes() {
            escape_debug_of(ch)
        } else {
            hex_escapes(s.subrange(i, i + len))
        }
    } else {
        escape_debug_of(ch)
    }
}

/// The rendering of the units from index `i` on.
pub open spec fn render_from(s: Seq<u8>, i: int) -> Seq<char>
    decreases s.len() - i,
{
    if i < 0 || i >= s.len() {
        Seq::empty()
    } else {
        render_unit(s, i) + render_from(s, i + unit_len(s, i))
    }
}

/// The debug rendering of a byte string: its units rendered, between double
/// quotes.
pub open spec fn debug_render(s: Seq<u8>) -> Seq<char> {
    seq!['"'] + render_from(s, 0) + seq!['"']
}

/// The lowercase hexadecimal digit for `d`.
fn hex_digit_char(d: u8) -> (c: char)
    requires
        d < 16,
    ensures
        c == hex_digit(d),
{
    if d < 10 {
        (48u8 + d) as char
    } else {
        (87u8 + d) as char
    }
}

/// Appends `\xNN` for the byte `b` to `out`.
fn push_hex_escape(out: &mut Vec<char>, b: u8)
    ensures
        final(out)@ == old(out)@ + byte_hex_escape(b),
{
    out.push('\\');
    out.push('x');
    out.push(hex_digit_char(b / 16));
    out.push(hex_digit_char(b % 16));
    assert(out@ =~= old(out)@ + byte_hex_escape(b));
}

/// `\xNN` for each byte of `s[a..b]`.
fn hex_escape_range(s: &[u8], a: usize, b: usize) -> (r: Vec<char>)
    requires
        a <= b <= s@.len(),
    ensures
        r@ == hex_escapes(s@.subrange(a as int, b as int)),
{
    let mut r: Vec<char> = Vec::new();
    let mut i = a;
    while i < b
        invariant
            a <= i <= b <= s@.len(),
            r@ == hex_escapes(s@.subrange(a as int, i as int)),
        decreases b - i,
    {
        push_hex_escape(&mut r, s[i]);
        i += 1;
        assert(s@.subrange(a as int, i as int).drop_last() =~= s@.subrange(a as int, i - 1));
    }
    r
}

/// How `u8::escape_ascii` of std renders the byte `b`.
pub fn escape_ascii_chars(b: u8) -> (r: Vec<char>)
    ensures
        r@ == ascii_escape(b),
{
    let mut r: Vec<char> = Vec::new();
    if b == 0x09 {
        r.push('\\');
        r.push('t');
    } else if b == 0x0D {
        r.push('\\');
        r.push('r');
    } else if b == 0x0A {
        r.push('\\');
        r.push('n');
    } else if b == 0x5C {
        r.push('\\');
        r.push('\\');
    } else if b == 0x27 {
        r.push('\\');
        r.push('\'');
    } else if b == 0x22 {
        r.push('\\');
        r.push('"');
    } else if 0x20 <= b && b <= 0x7E {
        r.push(b as char);
    } else {
        push_hex_escape(&mut r, b);
    }
    assert(r@ =~= ascii_escape(b));
    r
}

/// The rendering of the unit that starts at `at`, and how many bytes it spans.
fn render_unit_at(s: &[u8], at: usize) -> (r: (Vec<char>, usize))
    requires
        at < s@.len(),
    ensures
        r.0@ == render_unit(s@, at as int),
        r.1 == unit_len(s@, at as int),
{
    let sl = s.len();
    let (decoded, len) = decode_unit(s, at);
    let ch = match decoded {
        Some(c) => c,
        None => '\u{FFFD}',
    };
    let piece = if ch == '\0' {
        let mut p: Vec<char> = Vec::new();
        p.push('\\');
        p.push('0');
        assert(p@ =~= seq!['\\', '0']);
        p
    } else if (ch as u32) <= 0x7F {
        escape_ascii_chars((ch as u32) as u8)
    } else if ch == '\u{FFFD}' {
        if len == 3 && s[at] == 0xEF && s[at + 1] == 0xBF && s[at + 2] == 0xBD {
            assert(s@.subrange(at as int, at + 3) =~= fffd_bytes());
            escape_debug_chars(ch)
        } else {
            proof {
                let sub = s@.subrange(at as int, at + len);
                if len == 3 {
                    if sub == fffd_bytes() {
                        assert(sub[0] == s@[at as int]);
                        assert(sub[1] == s@[at + 1]);
                        assert(sub[2] == s@[at + 2]);
                    }
                }
            }
            hex_escape_range(s, at, at + len)
        }
    } else {
        escape_debug_chars(ch)
    };
    (piece, len)
}

/// The debug rendering of `bytes`, as characters.
pub fn debug_chars(bytes: &[u8]) -> (r: Vec<char>)
    ensures
        r@ == debug_render(bytes@),
{
    let mut out: Vec<char> = Vec::new();
    out.push('"');
    let mut i: usize = 0;
    while i < bytes.len()
        invariant
            i <= bytes@.len(),
            seq!['"'] + render_from(bytes@, 0) == out@ + render_from(bytes@, i as int),
        decreases bytes@.len() - i,
    {
        let (piece, len) = render_unit_at(bytes, i);
        push_chars(&mut out, &piece);
        i += len;
    }
    out.push('"');
    assert(out@ =~= debug_render(bytes@));
    out
}

/// The debug rendering of `bytes` (what `{:?}` prints for a byte string).
pub fn debug_string(bytes: &[u8]) -> (r: String)
    ensures
        r@ == debug_render(bytes@),
{
    let chars = debug_chars(bytes);
    string_from_chars(&chars)
}

/// The rendering from `i` on reaches, after some characters, the rendering from
/// `k`, when `k` holds no continuation byte: no unit that starts before `k` runs
/// past it.
proof fn lemma_render_reaches(s: Seq<u8>, i: int, k: int) -> (pre: Seq<char>)
    requires
        0 <= i <= k < s.len(),
        !is_continuation(s[k]),
    ensures
        render_from(s, i) == pre + render_from(s, k),
    decreases k - i,
{
    if i == k {
        let pre = Seq::<char>::empty();
        assert(render_from(s, i) =~= pre + render_from(s, k));
        pre
    } else {
        let u = unit_len(s, i);
        if i + u > k {
            assert(is_continuation(s[k]));
        }
        let pre2 = lemma_render_reaches(s, i + u, k);
        let pre = render_unit(s, i) + pre2;
        assert(render_from(s, i) =~= pre + render_from(s, k));
        pre
    }
}

/// A well-formed U+FFFD anywhere in a byte string is rendered through
/// `char::escape_debug` of U+FFFD, whatever bytes stand before and after it.
pub proof fn lemma_valid_fffd_rendered_as_char(prefix: Seq<u8>, suffix: Seq<u8>)
    ensures
        ({
            let s = prefix + fffd_bytes() + suffix;
            exists|pre: Seq<char>|
                debug_render(s) == seq!['"'] + pre + escape_debug_of('\u{FFFD}') + render_from(
                    s,
                    prefix.len() + 3int,
                ) + seq!['"']
        }),
{
    let s = prefix + fffd_bytes() + suffix;
    let k = prefix.len() as int;
    assert(s[k] == 0xEFu8);
    assert(s[k + 1] == 0xBFu8);
    assert(s[k + 2] == 0xBDu8);
    let pre = lemma_render_reaches(s, 0, k);
    assert(second_byte_ok(0xEFu8, 0xBFu8));
    assert(unit_len(s, k) == 3);
    assert(unit_valid(s, k));
    assert(((0xEFu8 as u32 & 0x0F) << 12u32) | ((0xBFu8 as u32 & 0x3F) << 6u32) | (0xBDu8 as u32
        & 0x3F) == 0xFFFDu32) by (bit_vector);
    assert(unit_char(s, k) == '\u{FFFD}');
    assert(s.subrange(k, k + 3) =~= fffd_bytes());
    assert(render_unit(s, k) == escape_debug_of('\u{FFFD}'));
    assert(debug_render(s) =~= seq!['"'] + pre + escape_debug_of('\u{FFFD}') + render_from(
        s,
        k + 3,
    ) + seq!['"']);
}

proof fn lemma_encode_concat(x: Seq<char>, y: Seq<char>)
    ensures
        encode_utf8(x + y) == encode_utf8(x) + encode_utf8(y),
    decreases x.len(),
{
    if x.len() == 0 {
        assert(x + y =~= y);
        assert(encode_utf8(x) + encode_utf8(y) =~= encode_utf8(y));
    } else {
        lemma_encode_concat(x.drop_first(), y);
        assert((x + y).drop_first() =~= x.drop_first() + y);
        assert(encode_utf8(x + y) =~= encode_utf8(x) + encode_utf8(y));
    }
}

/// When std's `char::escape_debug` leaves U+FFFD as it is, the UTF-8 bytes of the
/// rendering of any byte string that holds a well-formed U+FFFD hold its three
/// bytes.
pub proof fn lemma_valid_fffd_survives(prefix: Seq<u8>, suffix: Seq<u8>)
    requires
        escape_debug_of('\u{FFFD}') == seq!['\u{FFFD}'],
    ensures
        contains_occurrence(encode_utf8(debug_render(prefix + fffd_bytes() + suffix)), fffd_bytes()),
{
    let s = prefix + fffd_bytes() + suffix;
    lemma_valid_fffd_rendered_as_char(prefix, suffix);
    let pre = choose|pre: Seq<char>|
        debug_render(s) == seq!['"'] + pre + escape_debug_of('\u{FFFD}') + render_from(
            s,
            prefix.len() + 3int,
        ) + seq!['"'];
    let x = seq!['"'] + pre;
    let y = render_from(s, prefix.len() + 3int) + seq!['"'];
    let f = seq!['\u{FFFD}'];
    assert(debug_render(s) =~= x + (f + y));
    lemma_encode_concat(x, f + y);
    lemma_encode_concat(f, y);
    assert(0xFFFDu32 == ('\u{FFFD}' as u32));
    assert(encode_scalar(0xFFFDu32) =~= fffd_bytes()) by {
        assert(0xE0u8 | ((0xFFFDu32 >> 12u32) & 0x0Fu32) as u8 == 0xEFu8) by (bit_vector);
        assert(0x80u8 | ((0xFFFDu32 >> 6u32) & 0x3Fu32) as u8 == 0xBFu8) by (bit_vector);
        assert(0x80u8 | (0xFFFDu32 & 0x3Fu32) as u8 == 0xBDu8) by (bit_vector);
    }
    assert(encode_utf8(f) =~= fffd_bytes()) by {
        assert(f.drop_first() =~= Seq::<char>::empty());
        assert(encode_utf8(Seq::<char>::empty()) =~= Seq::<u8>::empty());
        assert(f[0] as u32 == 0xFFFDu32);
        assert(encode_utf8(f) == encode_scalar(f[0] as u32) + encode_utf8(f.drop_first()));
    }
    let all = encode_utf8(debug_render(s));
    let at = encode_utf8(x).len() as int;
    assert(all =~= encode_utf8(x) + (fffd_bytes() + encode_utf8(y)));
    assert(all.subrange(at, at + 3) =~= fffd_bytes());
    assert(occurs_at(all, fffd_bytes(), at));
}

/// Whether `b` is an ASCII control byte other than NUL, tab, line feed and
/// carriage return.
pub open spec fn is_escaped_control(b: u8) -> bool {
    &&& 0x01 <= b <= 0x7F
    &&& b != 0x09 && b != 0x0A && b != 0x0D
    &&& !(0x20 <= b <= 0x7E)
}

/// Wherever a unit starts at an ASCII control byte other than NUL, tab, line
/// feed and carriage return, it is rendered as `\xNN` in lowercase
/// hexadecimal.
pub proof fn lemma_ascii_control_unit_renders_hex(s: Seq<u8>, i: int)
    requires
        0 <= i < s.len(),
        is_escaped_control(s[i]),
    ensures
        unit_len(s, i) == 1,
        render_unit(s, i) == byte_hex_escape(s[i]),
{
    assert(unit_valid(s, i));
}

/// Wherever a unit is ill-formed, each of its bytes is rendered as `\xNN` in
/// lowercase hexadecimal: an ill-formed unit never spells U+FFFD.
pub proof fn lemma_ill_formed_unit_renders_hex(s: Seq<u8>, i: int)
    requires
        0 <= i < s.len(),
        !unit_valid(s, i),
    ensures
        render_unit(s, i) == hex_escapes(s.subrange(i, i + unit_len(s, i))),
{
    let len = unit_len(s, i);
    let sub = s.subrange(i, i + len);
    assert(1 <= len && i + len <= s.len());
    assert(sub.len() == len);
    if sub == fffd_bytes() {
        assert(len == 3);
        assert(sub[0] == s[i]);
        assert(sub[1] == s[i + 1]);
        assert(sub[2] == s[i + 2]);
        assert(second_byte_ok(0xEFu8, 0xBFu8));
        assert(unit_valid(s, i));
    }
}

/// An ASCII control byte other than NUL, tab, line feed and carriage return,
/// rendered on its own, is `"\xNN"` in lowercase hexadecimal.
pub proof fn lemma_ascii_control_renders_hex(b: u8)
    requires
        is_escaped_control(b),
    ensures
        debug_render(seq![b]) == seq!['"'] + byte_hex_escape(b) + seq!['"'],
{
    let s = seq![b];
    lemma_ascii_control_unit_renders_hex(s, 0);
    assert(render_from(s, 1) =~= Seq::<char>::empty());
    assert(debug_render(s) =~= seq!['"'] + byte_hex_escape(b) + seq!['"']);
}

/// A byte at or above 0x80, rendered on its own, is `"\xNN"` in lowercase
/// hexadecimal: on its own it is never well-formed UTF-8.
pub proof fn lemma_high_byte_renders_hex(b: u8)
    requires
        b >= 0x80,
    ensures
        debug_render(seq![b]) == seq!['"'] + byte_hex_escape(b) + seq!['"'],
{
    let s = seq![b];
    assert(unit_len(s, 0) == 1);
    assert(!unit_valid(s, 0));
    lemma_ill_formed_unit_renders_hex(s, 0);
    assert(s.subrange(0, 1) =~= seq![b]);
    assert(seq![b].drop_last() =~= Seq::<u8>::empty());
    assert(hex_escapes(Seq::<u8>::empty()) =~= Seq::<char>::empty());
    assert(seq![b].last() == b);
    assert(hex_escapes(seq![b]) == hex_escapes(seq![b].drop_last()) + byte_hex_escape(
        seq![b].last(),
    ));
    assert(hex_escapes(seq![b]) =~= byte_hex_escape(b));
    assert(render_from(s, 1) =~= Seq::<char>::empty());
    assert(debug_render(s) =~= seq!['"'] + byte_hex_escape(b) + seq!['"']);
}

/// A byte that `u8::escape_ascii` keeps as it is: printable ASCII (the space
/// through `~`) other than the backslash and the two quotes.
pub open spec fn is_plain_ascii(b: u8) -> bool {
    0x20 <= b <= 0x7E && b != 0x5C && b != 0x27 && b != 0x22
}

/// How `u8::escape_ascii` treats each class of byte: a plain printable byte
/// stays itself; the backslash and the quotes get a backslash in front; tab,
/// carriage return and line feed become `\t`, `\r`, `\n`; every other byte
/// becomes `\xNN`. Only plain bytes come out as a single character.
pub proof fn lemma_ascii_escape_classes(b: u8)
    ensures
        is_plain_ascii(b) ==> ascii_escape(b) == seq![b as char],
        (b == 0x5C || b == 0x27 || b == 0x22) ==> ascii_escape(b) == seq!['\\', b as char],
        !is_plain_ascii(b) ==> ascii_escape(b).len() >= 2 && ascii_escape(b)[0] == '\\',
        (b < 0x20 || b > 0x7E) && b != 0x09 && b != 0x0A && b != 0x0D ==> ascii_escape(b)
            == byte_hex_escape(b),
{
    if b == 0x5C {
        assert(ascii_escape(b) =~= seq!['\\', b as char]);
    } else if b == 0x27 {
        assert(ascii_escape(b) =~= seq!['\\', b as char]);
    } else if b == 0x22 {
        assert(ascii_escape(b) =~= seq!['\\', b as char]);
    }
}

/// A plain printable ASCII byte is a unit of its own, rendered as its own
/// character.
pub proof fn lemma_plain_ascii_unit(s: Seq<u8>, i: int)
    requires
        0 <= i < s.len(),
        is_plain_ascii(s[i]),
    ensures
        unit_len(s, i) == 1,
        render_unit(s, i) == seq![s[i] as char],
{
    let b = s[i];
    assert(unit_valid(s, i));
    assert(unit_scalar(s, i) == b as u32);
    let ch = unit_char(s, i);
    assert(ch == (b as u32) as char);
    assert((ch as u32) == b as u32);
    assert(((ch as u32) as u8) == b);
    assert(ch != '\0');
    lemma_ascii_escape_classes(b);
}

proof fn lemma_plain_ascii_render_from(s: Seq<u8>, i: int)
    requires
        0 <= i <= s.len(),
        forall|k: int| 0 <= k < s.len() ==> is_plain_ascii(#[trigger] s[k]),
    ensures
        render_from(s, i) == s.subrange(i, s.len() as int).map_values(|b: u8| b as char),
    decreases s.len() - i,
{
    if i == s.len() {
        assert(s.subrange(i, s.len() as int).map_values(|b: u8| b as char) =~= Seq::<char>::empty());
    } else {
        lemma_plain_ascii_unit(s, i);
        lemma_plain_ascii_render_from(s, i + 1);
        assert(s.subrange(i, s.len() as int).map_values(|b: u8| b as char) =~= seq![s[i] as char]
            + s.subrange(i + 1, s.len() as int).map_values(|b: u8| b as char));
    }
}

/// A byte string of plain printable ASCII (the space and every printable
/// character but the backslash and the quotes) renders as itself between
/// double quotes: `b"hello world"` renders as `"hello world"`.
pub proof fn lemma_plain_ascii_renders_verbatim(s: Seq<u8>)
    requires
        forall|k: int| 0 <= k < s.len() ==> is_plain_ascii(#[trigger] s[k]),
    ensures
        debug_render(s) == seq!['"'] + s.map_values(|b: u8| b as char) + seq!['"'],
{
    lemma_plain_ascii_render_from(s, 0);
    assert(s.subrange(0, s.len() as int) =~= s);
}

/// A single plain printable ASCII byte renders as `"b"`.
pub proof fn lemma_plain_ascii_byte_renders_itself(b: u8)
    requires
        is_plain_ascii(b),
    ensures
        debug_render(seq![b]) == seq!['"', b as char, '"'],
{
    lemma_plain_ascii_renders_verbatim(seq![b]);
    assert(seq![b].map_values(|x: u8| x as char) =~= seq![b as char]);
    assert(seq!['"'] + seq![b as char] + seq!['"'] =~= seq!['"', b as char, '"']);
}

} // verus!
