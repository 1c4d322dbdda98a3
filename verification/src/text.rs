//! Building text one character at a time.

use vstd::prelude::*;

verus! {

/// `String::push`: the character is appended to the end of the string, and
/// nothing else of the string changes.
#[verifier::external_body]
pub(crate) fn push_char(s: &mut String, c: char)
    ensures
        final(s)@ == old(s)@.push(c),
{
    s.push(c)
}

} // verus!
