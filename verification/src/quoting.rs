//! Texts as messages show them.

use vstd::prelude::*;

verus! {

/// A text as `{:?}` shows it: between quotation marks, and with what would
/// not be legible escaped.
pub uninterp spec fn quoted(text: Seq<char>) -> Seq<char>;

/// `<str as std::fmt::Debug>::fmt`. It is believed to depend on the text
/// alone. Which characters it escapes, and how, is not said.
#[verifier::external_body]
pub(crate) fn quote(text: &str) -> (shown: String)
    ensures
        shown@ == quoted(text@),
{
    format!("{text:?}")
}

} // verus!
