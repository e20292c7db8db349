//! Case-insensitive substring matching of titles.
use vstd::prelude::*;

verus! {

/// The lowercase form of `text`, as `str::to_lowercase` gives it.
pub uninterp spec fn lowercase(text: Seq<char>) -> Seq<char>;

/// Whether `needle` occurs in `haystack` as a contiguous run of characters.
pub open spec fn is_substring(needle: Seq<char>, haystack: Seq<char>) -> bool {
    exists|start: int|
        0 <= start && start + needle.len() <= haystack.len() && #[trigger] haystack.subrange(
            start,
            start + needle.len(),
        ) == needle
}

/// Whether `title` contains `query`, letter case aside.
pub open spec fn title_matches(title: Seq<char>, query: Seq<char>) -> bool {
    is_substring(lowercase(query), lowercase(title))
}

/// The empty text occurs in every text.
pub proof fn lemma_empty_is_substring(haystack: Seq<char>)
    ensures
        is_substring(Seq::empty(), haystack),
{
    let needle = Seq::<char>::empty();
    let start: int = 0;
    assert(haystack.subrange(start, start + needle.len()) =~= needle);
}

/// Calls `str::to_lowercase`. Not proved: that the result is the lowercase
/// form of `text`, which the contract only names, and that the lowercase form
/// of the empty text is empty.
#[verifier::external_body]
pub(crate) fn to_lowercase(text: &str) -> (lowered: String)
    ensures
        lowered@ == lowercase(text@),
        text@.len() == 0 ==> lowered@.len() == 0,
{
    text.to_lowercase()
}

/// Calls `str::contains` with a string as the pattern. Not proved: that the
/// result says whether `needle` occurs in `haystack` as a contiguous run of
/// characters.
#[verifier::external_body]
pub(crate) fn contains(haystack: &str, needle: &str) -> (found: bool)
    ensures
        found == is_substring(needle@, haystack@),
{
    haystack.contains(needle)
}

} // verus!
