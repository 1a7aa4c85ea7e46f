//! Calls into the standard library's text handling that vstd gives no
//! contract, each stated as the standard library documents it.
use vstd::prelude::*;
use vstd::string::StringSliceAdditionalSpecFns;
use vstd::utf8::{decode_utf8, encode_utf8_decode_utf8, valid_utf8};

use crate::grammar::is_scalar_value;

verus! {

/// `std::str::from_utf8`: the bytes as a string slice if they are valid
/// UTF-8, and nothing otherwise.  The slice holds exactly those bytes.
#[verifier::external_body]
fn from_utf8_raw(bytes: &[u8]) -> (r: Option<&str>)
    ensures
        r is Some <==> valid_utf8(bytes@),
        r matches Some(t) ==> t.spec_bytes() == bytes@,
{
    std::str::from_utf8(bytes).ok()
}

/// The characters that valid UTF-8 bytes encode, or nothing if they are not
/// valid UTF-8.
pub fn str_from_utf8(bytes: &[u8]) -> (r: Option<&str>)
    ensures
        r is Some <==> valid_utf8(bytes@),
        r matches Some(t) ==> t@ == decode_utf8(bytes@),
{
    let r = from_utf8_raw(bytes);
    proof {
        if let Some(t) = r {
            encode_utf8_decode_utf8(t@);
        }
    }
    r
}

/// `char::from_u32`: the character with code `v`, or nothing if `v` is a
/// surrogate or above `0x10FFFF`.
#[verifier::external_body]
pub(crate) fn char_from_u32(v: u32) -> (r: Option<char>)
    ensures
        r is Some <==> is_scalar_value(v as int),
        r matches Some(c) ==> c == v as char,
{
    char::from_u32(v)
}

/// `String::push`: appends one character.
#[verifier::external_body]
pub(crate) fn push_char(s: &mut String, c: char)
    ensures
        final(s)@ == old(s)@.push(c),
{
    s.push(c);
}

} // verus!
