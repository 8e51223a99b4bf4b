//! The few standard-library text operations the scanner needs that vstd does
//! not specify, each behind a contract that restates its documentation.
use vstd::prelude::*;
use vstd::utf8::*;

verus! {

/// `String::push`: appends one character to the end of the string.
#[verifier::external_body]
pub(crate) fn string_push(s: &mut String, c: char)
    ensures
        final(s)@ == old(s)@.push(c),
{
    s.push(c);
}

/// `char::from_u32`: the character with that code when the code is a Unicode
/// scalar value (at most 0x10FFFF and not a surrogate), else `None`.
#[verifier::external_body]
pub(crate) fn char_from_u32(v: u32) -> (r: Option<char>)
    ensures
        r == (if is_scalar(v) {
            Some(v as char)
        } else {
            None
        }),
{
    char::from_u32(v)
}

/// `std::str::from_utf8`: succeeds exactly on valid UTF-8, and then the string
/// holds the characters that the bytes encode.
#[verifier::external_body]
pub(crate) fn str_from_utf8(v: &[u8]) -> (r: Option<&str>)
    ensures
        r is Some <==> valid_utf8(v@),
        r matches Some(s) ==> s@ == decode_utf8(v@),
{
    std::str::from_utf8(v).ok()
}

} // verus!
