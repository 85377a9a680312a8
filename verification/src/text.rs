//! Helpers on text.

use vstd::prelude::*;
use vstd::string::StrSliceExecFns;
use crate::names::same_text;

verus! {

/// Whether `text` begins with `prefix`.
pub fn starts_with(text: &str, prefix: &str) -> (found: bool)
    ensures
        found == prefix@.is_prefix_of(text@),
{
    let wanted = prefix.unicode_len();
    if text.unicode_len() < wanted {
        return false;
    }
    same_text(text.substring_char(0, wanted), prefix)
}

/// What `str::to_lowercase` makes of a text.
pub uninterp spec fn lowercase_of(text: Seq<char>) -> Seq<char>;

/// `str::to_lowercase`: the text with every character mapped to its
/// lowercase form by the Unicode rules.
#[verifier::external_body]
pub(crate) fn lowercase(text: &str) -> (lowered: String)
    ensures
        lowered@ == lowercase_of(text@),
{
    text.to_lowercase()
}

} // verus!
