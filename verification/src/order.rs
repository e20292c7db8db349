//! The order of podcasts by number, and the sort that the index is built on.
use crate::podcast::Podcast;
use std::cmp::Ordering;
use vstd::prelude::*;

verus! {

/// Compares two podcasts by their numbers.
pub fn number_order(a: &Podcast, b: &Podcast) -> (order: Ordering)
    ensures
        (order is Less) == (a@.number < b@.number),
        (order is Greater) == (a@.number > b@.number),
        (order is Equal) == (a@.number == b@.number),
{
    if *a.get_podcast_number() > *b.get_podcast_number() {
        return Ordering::Greater;
    }
    if *a.get_podcast_number() < *b.get_podcast_number() {
        return Ordering::Less;
    }
    Ordering::Equal
}

/// Whether the numbers of `podcasts` never decrease from one to the next.
pub open spec fn ascending(podcasts: Seq<Podcast>) -> bool {
    forall|i: int, j: int|
        0 <= i < j < podcasts.len() ==> podcasts[i]@.number <= podcasts[j]@.number
}

/// Calls `sort_by` of slices with `number_order` as the comparison. Not
/// proved: that the podcasts afterwards are the same podcasts, each as often
/// as before, with numbers that never decrease.
#[verifier::external_body]
pub(crate) fn sort_by_number(podcasts: &mut Vec<Podcast>)
    ensures
        final(podcasts)@.to_multiset() == old(podcasts)@.to_multiset(),
        ascending(final(podcasts)@),
{
    podcasts.sort_by(|a, b| number_order(a, b));
}

} // verus!
