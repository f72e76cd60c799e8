//! Decoding of UTF-16 text.
use vstd::prelude::*;

verus! {

/// The characters that a sequence of UTF-16 code units decodes to, or `None`
/// where it holds an unpaired surrogate.
pub uninterp spec fn utf16_text(units: Seq<u16>) -> Option<Seq<char>>;

/// The number of UTF-16 code units that encode `s`: two for a character
/// outside the Basic Multilingual Plane, one for any other.
pub open spec fn utf16_len(s: Seq<char>) -> int
    decreases s.len(),
{
    if s.len() == 0 {
        0
    } else {
        utf16_len(s.drop_last()) + if s.last() as u32 >= 0x10000 {
            2int
        } else {
            1int
        }
    }
}

/// Relies on `String::from_utf16`: it decodes the code units, and fails exactly
/// where they are not valid UTF-16; the outcome depends on the units alone.
/// Valid UTF-16 spends one unit on each character of the Basic Multilingual
/// Plane and a surrogate pair on each other character.
#[verifier::external_body]
pub(crate) fn decode_utf16(units: &[u16]) -> (r: Option<String>)
    ensures
        r is Some <==> utf16_text(units@) is Some,
        r is Some ==> r->0@ == utf16_text(units@)->0,
        r is Some ==> utf16_len(r->0@) == units@.len(),
        r is Some ==> utf16_len(r->0@) == units@.len(),
{
    String::from_utf16(units).ok()
}

} // verus!
