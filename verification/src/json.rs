//! Decoding JSON string literals (RFC 8259), and the law that decoding what
//! `json_str` writes gives back the original string.
use vstd::prelude::*;

use crate::render::{hex_digit, hex_pair};
use crate::runner::{json_body, json_escape_char, json_quoted};

verus! {

/// The value of a hexadecimal digit of either case.
pub open spec fn hex_value(c: char) -> Option<int> {
    let u = c as u32;
    if 0x30 <= u <= 0x39 {
        Some(u - 0x30)
    } else if 0x61 <= u <= 0x66 {
        Some(u - 0x61 + 10)
    } else if 0x41 <= u <= 0x46 {
        Some(u - 0x41 + 10)
    } else {
        None
    }
}

/// The value of the four hexadecimal digits at `i`.
pub open spec fn hex4_value(cs: Seq<char>, i: int) -> Option<int> {
    match (hex_value(cs[i]), hex_value(cs[i + 1]), hex_value(cs[i + 2]), hex_value(cs[i + 3])) {
        (Some(a), Some(b), Some(c), Some(d)) => Some(a * 4096 + b * 256 + c * 16 + d),
        _ => None,
    }
}

/// The character that a two-character escape `\e` stands for.
pub open spec fn simple_escape(e: char) -> Option<char> {
    if e == '"' {
        Some('"')
    } else if e == '\\' {
        Some('\\')
    } else if e == '/' {
        Some('/')
    } else if e == 'b' {
        Some('\u{8}')
    } else if e == 'f' {
        Some('\u{c}')
    } else if e == 'n' {
        Some('\n')
    } else if e == 'r' {
        Some('\r')
    } else if e == 't' {
        Some('\t')
    } else {
        None
    }
}

/// `c` in front of the decoded rest, if the rest decodes.
pub open spec fn prepend(c: char, rest: Option<Seq<char>>) -> Option<Seq<char>> {
    match rest {
        Some(r) => Some(seq![c] + r),
        None => None,
    }
}

/// The characters that the inside of a JSON string literal stands for: plain
/// characters, two-character escapes, `\uXXXX` escapes and surrogate pairs of
/// them. `None` when the text is not the inside of a literal (a raw quote or
/// control character, a bad escape, or a lone surrogate).
pub open spec fn json_unescape(cs: Seq<char>) -> Option<Seq<char>>
    decreases cs.len(),
{
    if cs.len() == 0 {
        Some(Seq::empty())
    } else if cs[0] == '\\' {
        if cs.len() < 2 {
            None
        } else if simple_escape(cs[1]) is Some {
            prepend(simple_escape(cs[1])->0, json_unescape(cs.skip(2)))
        } else if cs[1] == 'u' && cs.len() >= 6 && hex4_value(cs, 2) is Some {
            let v = hex4_value(cs, 2)->0;
            if 0xD800 <= v <= 0xDBFF {
                if cs.len() >= 12 && cs[6] == '\\' && cs[7] == 'u' && hex4_value(cs, 8) is Some
                    && 0xDC00 <= hex4_value(cs, 8)->0 <= 0xDFFF {
                    let w = hex4_value(cs, 8)->0;
                    prepend(
                        (0x10000 + (v - 0xD800) * 0x400 + (w - 0xDC00)) as char,
                        json_unescape(cs.skip(12)),
                    )
                } else {
                    None
                }
            } else if 0xDC00 <= v <= 0xDFFF {
                None
            } else {
                prepend(v as char, json_unescape(cs.skip(6)))
            }
        } else {
            None
        }
    } else if cs[0] == '"' || (cs[0] as u32) < 0x20 {
        None
    } else {
        prepend(cs[0], json_unescape(cs.skip(1)))
    }
}

/// The string that a JSON string literal stands for, or `None` when `cs` is not
/// one literal.
pub open spec fn json_string_value(cs: Seq<char>) -> Option<Seq<char>> {
    if cs.len() >= 2 && cs[0] == '"' && cs[cs.len() - 1] == '"' {
        json_unescape(cs.subrange(1, cs.len() - 1))
    } else {
        None
    }
}

proof fn lemma_json_body_concat(a: Seq<char>, b: Seq<char>)
    ensures
        json_body(a + b) == json_body(a) + json_body(b),
    decreases b.len(),
{
    if b.len() == 0 {
        assert(a + b =~= a);
        assert(json_body(a) + json_body(b) =~= json_body(a));
    } else {
        lemma_json_body_concat(a, b.drop_last());
        assert((a + b).drop_last() =~= a + b.drop_last());
        assert((a + b).last() == b.last());
        assert(json_body(a + b) =~= json_body(a) + json_body(b));
    }
}

proof fn lemma_hex_digit_value(d: u8)
    requires
        d < 16,
    ensures
        hex_value(hex_digit(d)) == Some(d as int),
{
}

/// The two digits that `\xNN` and `\u00NN` escapes write for a byte are
/// lowercase hexadecimal digits (`0`-`9`, `a`-`f`) that read back as the byte.
pub proof fn lemma_hex_pair_reads_back(b: u8)
    ensures
        hex_pair(b).len() == 2,
        forall|k: int|
            0 <= k < 2 ==> ('0' <= #[trigger] hex_pair(b)[k] <= '9' || 'a' <= hex_pair(b)[k]
                <= 'f'),
        hex_value(hex_pair(b)[0]).unwrap() * 16 + hex_value(hex_pair(b)[1]).unwrap() == b,
{
    lemma_hex_digit_value(b / 16);
    lemma_hex_digit_value(b % 16);
}

/// Decoding the escape of one character, followed by anything, gives the
/// character in front of what the rest decodes to.
proof fn lemma_unescape_char(c: char, rest: Seq<char>)
    ensures
        json_unescape(json_escape_char(c) + rest) == prepend(c, json_unescape(rest)),
{
    let esc = json_escape_char(c);
    let cs = esc + rest;
    assert(cs.skip(esc.len() as int) =~= rest);
    if c == '"' || c == '\\' || c == '\n' || c == '\r' || c == '\t' {
        assert(cs[0] == '\\');
        assert(cs[1] == esc[1]);
    } else if (c as u32) < 0x20 {
        let b = (c as u32) as u8;
        lemma_hex_digit_value(b / 16);
        lemma_hex_digit_value(b % 16);
        assert(cs[0] == '\\');
        assert(cs[1] == 'u');
        assert(cs[2] == '0' && cs[3] == '0');
        assert(cs[4] == hex_digit(b / 16));
        assert(cs[5] == hex_digit(b % 16));
        assert(hex4_value(cs, 2) == Some(b as int));
        vstd::utf8::char_u32_cast(c, c as u32);
        assert((b as int) as char == c);
    } else {
        assert(cs[0] == c);
    }
}

proof fn lemma_unescape_body(s: Seq<char>)
    ensures
        json_unescape(json_body(s)) == Some(s),
    decreases s.len(),
{
    if s.len() == 0 {
        assert(json_body(s) =~= Seq::<char>::empty());
    } else {
        let rest = s.drop_first();
        lemma_json_body_concat(seq![s[0]], rest);
        assert(seq![s[0]] + rest =~= s);
        let one = seq![s[0]];
        assert(one.drop_last() =~= Seq::<char>::empty());
        assert(json_body(Seq::<char>::empty()) =~= Seq::<char>::empty());
        assert(one.last() == s[0]);
        assert(json_body(one) == json_body(one.drop_last()) + json_escape_char(one.last()));
        assert(json_body(one) =~= json_escape_char(s[0]));
        lemma_unescape_char(s[0], json_body(rest));
        lemma_unescape_body(rest);
        assert(seq![s[0]] + rest =~= s);
    }
}

proof fn lemma_json_body_printable(s: Seq<char>)
    ensures
        forall|i: int| 0 <= i < json_body(s).len() ==> (#[trigger] json_body(s)[i] as u32) >= 0x20,
    decreases s.len(),
{
    if s.len() > 0 {
        lemma_json_body_printable(s.drop_last());
        let c = s.last();
        let esc = json_escape_char(c);
        if (c as u32) < 0x20 && c != '\n' && c != '\r' && c != '\t' {
            let b = (c as u32) as u8;
            assert((hex_digit(b / 16) as u32) >= 0x30);
            assert((hex_digit(b % 16) as u32) >= 0x30);
            assert(hex_pair(b)[0] == hex_digit(b / 16));
            assert(hex_pair(b)[1] == hex_digit(b % 16));
        }
        assert forall|i: int| 0 <= i < esc.len() implies (#[trigger] esc[i] as u32) >= 0x20 by {}
        let body = json_body(s);
        assert(body == json_body(s.drop_last()) + esc);
        assert forall|i: int| 0 <= i < body.len() implies (#[trigger] body[i] as u32) >= 0x20 by {
            if i < json_body(s.drop_last()).len() {
                assert(body[i] == json_body(s.drop_last())[i]);
            } else {
                assert(body[i] == esc[i - json_body(s.drop_last()).len()]);
            }
        }
    }
}

/// What `json_str` writes is one JSON string literal: it starts and ends with a
/// double quote, holds no raw control character, and decodes to exactly the
/// string it was written from (so no unescaped quote stands between its ends).
pub proof fn lemma_json_str_round_trip(s: Seq<char>)
    ensures
        json_string_value(json_quoted(s)) == Some(s),
        json_quoted(s)[0] == '"',
        json_quoted(s)[json_quoted(s).len() - 1] == '"',
        forall|i: int|
            0 <= i < json_quoted(s).len() ==> (#[trigger] json_quoted(s)[i] as u32) >= 0x20,
{
    let q = json_quoted(s);
    let body = json_body(s);
    assert(q.subrange(1, q.len() - 1) =~= body);
    lemma_unescape_body(s);
    lemma_json_body_printable(s);
    assert forall|i: int| 0 <= i < q.len() implies (#[trigger] q[i] as u32) >= 0x20 by {
        if 0 < i < q.len() - 1 {
            assert(q[i] == body[i - 1]);
        }
    }
}

} // verus!
