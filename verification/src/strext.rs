//! Contracts for the few std operations that vstd leaves unspecified.

use vstd::prelude::*;

verus! {

/// Relies on `String::push`: appends exactly one character at the end.
pub assume_specification[ String::push ](s: &mut String, c: char)
    ensures
        final(s)@ == old(s)@.push(c),
;

/// Relies on `char::from_u32`: succeeds exactly on Unicode scalar values and
/// returns the character with that code point.
pub assume_specification[ char::from_u32 ](v: u32) -> (r: Option<char>)
    ensures
        r is Some <==> vstd::utf8::is_scalar(v),
        r is Some ==> r->0 as u32 == v,
;

} // verus!
