//! What the library needs from `String` and `char` beyond vstd.

use vstd::prelude::*;

verus! {

/// Whether `v` is a Unicode scalar value: a code point that is no surrogate.
pub open spec fn is_scalar_value(v: u32) -> bool {
    v <= 0xD7FF || (0xE000 <= v && v <= 0x10FFFF)
}

/// `String::push` appends the character to the end of the string.
pub assume_specification[ String::push ](s: &mut String, c: char)
    ensures
        final(s)@ == old(s)@.push(c),
;

/// `char::from_u32` gives the character with the scalar value `v`, and `None`
/// exactly when `v` is a surrogate or lies above `0x10FFFF`.
pub assume_specification[ char::from_u32 ](v: u32) -> (r: Option<char>)
    ensures
        is_scalar_value(v) ==> r == Some(v as char),
        !is_scalar_value(v) ==> r is None,
;

} // verus!
