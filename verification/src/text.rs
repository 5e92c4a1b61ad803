//! Conversions between `String`, `&str` and vectors of characters, std's debug
//! escaping of characters and strings, and decimal numerals.
use vstd::prelude::*;

verus! {

/// The characters that std's `char::escape_debug` yields for `c`.
pub uninterp spec fn escape_debug_of(c: char) -> Seq<char>;

/// The characters of std's `Debug` rendering of a string with characters `s`
/// (quoted and escaped).
pub uninterp spec fn str_debug_of(s: Seq<char>) -> Seq<char>;

/// `char::escape_debug` of std, collected: the contract claims only that the
/// result is a fixed function of the character, `escape_debug_of`; which
/// characters std escapes rests on its Unicode tables and is not stated.
#[verifier::external_body]
pub(crate) fn escape_debug_chars(c: char) -> (r: Vec<char>)
    ensures
        r@ == escape_debug_of(c),
{
    c.escape_debug().collect()
}

/// std's `Debug` formatting of a `str` (`format!("{:?}", s)`): the contract
/// claims only that the result is a fixed function of the characters,
/// `str_debug_of`; the escaping rules are std's and are not stated.
#[verifier::external_body]
pub(crate) fn str_debug(s: &str) -> (r: String)
    ensures
        r@ == str_debug_of(s@),
{
    format!("{:?}", s)
}

/// A `String` made of the given characters, in order (std's
/// `FromIterator<char> for String`).
#[verifier::external_body]
pub(crate) fn string_from_chars(chars: &Vec<char>) -> (r: String)
    ensures
        r@ == chars@,
{
    chars.iter().collect()
}

/// The characters of a string, in order.
pub fn chars_of(s: &str) -> (r: Vec<char>)
    ensures
        r@ == s@,
{
    broadcast use vstd::string::axiom_spec_iter;

    let mut r: Vec<char> = Vec::new();
    for c in it: s.chars()
        invariant
            r@.len() == it.index(),
            forall|i: int| 0 <= i < r@.len() ==> r@[i] == it.seq()[i],
            it.seq() == s@,
    {
        r.push(c);
    }
    assert(r@ =~= s@);
    r
}

/// Appends all of `more` to `out`.
pub fn push_chars(out: &mut Vec<char>, more: &Vec<char>)
    ensures
        final(out)@ == old(out)@ + more@,
{
    let mut i: usize = 0;
    while i < more.len()
        invariant
            i <= more@.len(),
            out@ == old(out)@ + more@.take(i as int),
        decreases more@.len() - i,
    {
        out.push(more[i]);
        i += 1;
        assert(out@ =~= old(out)@ + more@.take(i as int));
    }
    assert(more@.take(more@.len() as int) =~= more@);
}

/// The decimal digit for `d`.
pub open spec fn decimal_digit(d: int) -> char {
    (48 + d) as char
}

/// The decimal numeral of `v`, without leading zeros.
pub open spec fn decimal(v: nat) -> Seq<char>
    decreases v,
{
    if v < 10 {
        seq![decimal_digit(v as int)]
    } else {
        decimal(v / 10) + seq![decimal_digit((v % 10) as int)]
    }
}

/// The decimal numeral of `v` (what `{}` formatting prints for an integer).
pub fn decimal_chars(v: u128) -> (r: Vec<char>)
    ensures
        r@ == decimal(v as nat),
    decreases v,
{
    let d = (v % 10) as u8;
    let c = (48u8 + d) as char;
    if v < 10 {
        let mut r: Vec<char> = Vec::new();
        r.push(c);
        r
    } else {
        let mut r = decimal_chars(v / 10);
        r.push(c);
        r
    }
}

/// The characters of `true` or `false`.
pub open spec fn bool_text(b: bool) -> Seq<char> {
    if b {
        seq!['t', 'r', 'u', 'e']
    } else {
        seq!['f', 'a', 'l', 's', 'e']
    }
}

/// The characters of `true` or `false` (what `{}` formatting prints for a `bool`).
pub fn bool_chars(b: bool) -> (r: Vec<char>)
    ensures
        r@ == bool_text(b),
{
    let mut r: Vec<char> = Vec::new();
    if b {
        r.push('t');
        r.push('r');
        r.push('u');
        r.push('e');
    } else {
        r.push('f');
        r.push('a');
        r.push('l');
        r.push('s');
        r.push('e');
    }
    assert(r@ =~= bool_text(b));
    r
}

} // verus!
