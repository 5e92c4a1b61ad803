//! Equality of byte strings, also when one side is a `Cow` that borrows or owns
//! its bytes.
use vstd::prelude::*;

use std::borrow::Cow;

verus! {

/// Whether two byte strings hold the same bytes.
pub fn bytes_eq(a: &[u8], b: &[u8]) -> (r: bool)
    ensures
        r == (a@ == b@),
{
    if a.len() != b.len() {
        return false;
    }
    let mut i: usize = 0;
    while i < a.len()
        invariant
            a@.len() == b@.len(),
            i <= a@.len(),
            forall|k: int| 0 <= k < i ==> a@[k] == b@[k],
        decreases a@.len() - i,
    {
        if a[i] != b[i] {
            return false;
        }
        i += 1;
    }
    assert(a@ =~= b@);
    true
}

/// The bytes that a `Cow` borrows or owns.
pub fn cow_bytes<'a, 'b>(c: &'b Cow<'a, [u8]>) -> (r: &'b [u8])
    ensures
        r@ == c@,
{
    match c {
        Cow::Borrowed(s) => s,
        Cow::Owned(v) => v.as_slice(),
    }
}

/// `this == other` for a byte string on the left and a `Cow` on the right: the
/// bytes of both sides are compared.
pub fn bstr_eq_cow(this: &[u8], other: &Cow<'_, [u8]>) -> (r: bool)
    ensures
        r == (this@ == other@),
{
    bytes_eq(this, cow_bytes(other))
}

/// `this == other` for a `Cow` on the left and a byte string on the right: the
/// bytes of both sides are compared.
pub fn cow_eq_bstr(this: &Cow<'_, [u8]>, other: &[u8]) -> (r: bool)
    ensures
        r == (this@ == other@),
{
    bytes_eq(cow_bytes(this), other)
}

} // verus!
