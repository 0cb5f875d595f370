//! Small string helpers on top of what vstd specifies for `str` and `String`.

use vstd::prelude::*;

verus! {

/// Compares two string slices with `<str as PartialEq>::eq`.
/// Trusted: std documents that string equality compares the contents, so the
/// result is exactly the equality of the two character sequences.
#[verifier::external_body]
pub fn str_eq(a: &str, b: &str) -> (r: bool)
    ensures
        r == (a@ == b@),
{
    a == b
}

} // verus!
