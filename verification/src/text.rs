//! Small text helpers over std's `String`.
use vstd::prelude::*;

verus! {

/// Appends one character. Trusted: `String::push` appends `c` to the end of
/// the string, as std documents.
#[verifier::external_body]
pub(crate) fn push_char(s: &mut String, c: char)
    ensures
        final(s)@ == old(s)@.push(c),
{
    s.push(c)
}

} // verus!
