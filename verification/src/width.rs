//! Terminal display width of rendered text.

use vstd::prelude::*;

verus! {

/// The display width, in terminal columns, that the `unicode_width` crate
/// assigns to a string with these characters.
pub uninterp spec fn display_width_of(s: Seq<char>) -> nat;

/// Relies on `unicode_width::UnicodeWidthStr::width`: the terminal column
/// width of a string, a pure function of its characters; the empty string
/// has width zero.
#[verifier::external_body]
pub(crate) fn display_width(s: &str) -> (r: usize)
    ensures
        r == display_width_of(s@),
        s@.len() == 0 ==> r == 0,
{
    unicode_width::UnicodeWidthStr::width(s)
}

} // verus!
