//! Case folding: the form under which texts are compared when case is not to
//! matter.

use vstd::prelude::*;

verus! {

/// The lowercase form of `text`: what `str::to_lowercase` of the standard
/// library returns for it. The mapping follows the Unicode character
/// database: it is not limited to ASCII, one character may become several,
/// and a capital sigma is mapped by its place in a word.
pub uninterp spec fn lowercased(text: Seq<char>) -> Seq<char>;

/// Calls `str::to_lowercase`. Not proved, taken from the standard library's
/// documentation: the result is the lowercase form of `text`, and depends on
/// nothing but `text`.
#[verifier::external_body]
fn to_lowercase(text: &str) -> (lower: String)
    ensures
        lower@ == lowercased(text@),
{
    text.to_lowercase()
}

/// The folded form of `text`: its lowercase form. The empty text is its own
/// folded form.
pub open spec fn folded(text: Seq<char>) -> Seq<char> {
    if text.len() == 0 {
        text
    } else {
        lowercased(text)
    }
}

/// The folded form of `text`. Nothing is allocated for an empty text.
pub fn fold(text: &str) -> (form: String)
    ensures
        form@ == folded(text@),
{
    if text.is_empty() {
        String::new()
    } else {
        to_lowercase(text)
    }
}

} // verus!
