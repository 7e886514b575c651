//! Small executable helpers over strings and characters that the codec and
//! the title sanitizer share.

use vstd::prelude::*;
use vstd::utf8::is_scalar;

verus! {

/// Relies on `String::push`: appends exactly the one character.
#[verifier::external_body]
pub(crate) fn push_char(s: &mut String, c: char)
    ensures
        final(s)@ == old(s)@.push(c),
{
    s.push(c);
}

/// Relies on `char::from_u32`: a Unicode scalar value (not a surrogate and
/// at most 0x10FFFF) converts to the character with that code point, and
/// any other value converts to nothing.
#[verifier::external_body]
pub(crate) fn char_from_u32(u: u32) -> (r: Option<char>)
    ensures
        r == (if is_scalar(u) {
            Some(u as char)
        } else {
            None::<char>
        }),
{
    char::from_u32(u)
}

} // verus!
