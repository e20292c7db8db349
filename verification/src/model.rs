//! The mathematical model of the index: what each query returns, stated over
//! the views of the podcasts in their canonical order.
use crate::podcast::Podcast;
use crate::podcast::PodcastNumber;
use crate::podcast::PodcastView;
use crate::text::is_substring;
use crate::text::title_matches;
use std::sync::Arc;
use vstd::prelude::*;

verus! {

/// The views of `podcasts`, in the same order.
pub open spec fn views(podcasts: Seq<Podcast>) -> Seq<PodcastView> {
    podcasts.map_values(|podcast: Podcast| podcast@)
}

/// The views of the podcasts behind shared handles, in the same order.
pub open spec fn shared_views(podcasts: Seq<Arc<Podcast>>) -> Seq<PodcastView> {
    podcasts.map_values(|podcast: Arc<Podcast>| podcast@)
}

/// The views of the podcasts that a query result refers to, in the same order.
pub open spec fn views_of(podcasts: Seq<&Arc<Podcast>>) -> Seq<PodcastView> {
    podcasts.map_values(|podcast: &Arc<Podcast>| podcast@)
}

/// Whether each item has a greater number than every item after it.
pub open spec fn strictly_descending(items: Seq<PodcastView>) -> bool {
    forall|i: int, j: int| 0 <= i < j < items.len() ==> items[i].number > items[j].number
}

/// Whether no two items share a number.
pub open spec fn distinct_numbers(items: Seq<PodcastView>) -> bool {
    forall|i: int, j: int|
        0 <= i < items.len() && 0 <= j < items.len() && i != j ==> items[i].number
            != items[j].number
}

/// Whether some item has the number `number`.
pub open spec fn has_number(items: Seq<PodcastView>, number: PodcastNumber) -> bool {
    exists|i: int| 0 <= i < items.len() && #[trigger] items[i].number == number
}

/// Whether `item` carries every tag in `tags`.
pub open spec fn has_all_tags(item: PodcastView, tags: Set<Seq<char>>) -> bool {
    tags.subset_of(item.tags)
}

/// The items that carry every tag in `tags`, in the order of `items`.
pub open spec fn with_all_tags(items: Seq<PodcastView>, tags: Set<Seq<char>>) -> Seq<PodcastView> {
    items.filter(|item: PodcastView| has_all_tags(item, tags))
}

/// The items whose number is in `numbers`, in the order of `items`.
pub open spec fn with_numbers(items: Seq<PodcastView>, numbers: Set<PodcastNumber>) -> Seq<
    PodcastView,
> {
    items.filter(|item: PodcastView| numbers.contains(item.number))
}

/// The numbers of the items that carry every tag in `tags`.
pub open spec fn numbers_with_all_tags(items: Seq<PodcastView>, tags: Set<Seq<char>>) -> Set<
    PodcastNumber,
> {
    Set::new(
        |number: PodcastNumber|
            exists|i: int|
                0 <= i < items.len() && #[trigger] items[i].number == number && has_all_tags(
                    items[i],
                    tags,
                ),
    )
}

/// The numbers of the items that carry `tag`.
pub open spec fn numbers_with_tag(items: Seq<PodcastView>, tag: Seq<char>) -> Set<PodcastNumber> {
    Set::new(
        |number: PodcastNumber|
            exists|i: int|
                0 <= i < items.len() && #[trigger] items[i].number == number
                    && items[i].tags.contains(tag),
    )
}

/// The tags that label at least one item.
pub open spec fn all_tags(items: Seq<PodcastView>) -> Set<Seq<char>> {
    Set::new(
        |tag: Seq<char>|
            exists|i: int| 0 <= i < items.len() && #[trigger] items[i].tags.contains(tag),
    )
}

/// The items whose title contains `query`, letter case aside, in the order
/// of `items`.
pub open spec fn matching(items: Seq<PodcastView>, query: Seq<char>) -> Seq<PodcastView> {
    items.filter(|item: PodcastView| title_matches(item.title, query))
}

/// The items at the positions that `keep` marks, in the order of `items`.
pub open spec fn select<A>(items: Seq<A>, keep: Seq<bool>) -> Seq<A>
    recommends
        keep.len() == items.len(),
    decreases items.len(),
{
    if items.len() == 0 {
        items
    } else {
        let rest = select(items.drop_last(), keep.take(items.len() - 1));
        if keep[items.len() - 1] {
            rest.push(items.last())
        } else {
            rest
        }
    }
}

/// For each of `texts`, whether `needle` occurs in it.
pub open spec fn occurs_in(needle: Seq<char>, texts: Seq<Seq<char>>) -> Seq<bool> {
    texts.map_values(|text: Seq<char>| is_substring(needle, text))
}

/// The texts of `strings`, in the same order.
pub open spec fn texts_of(strings: Seq<String>) -> Seq<Seq<char>> {
    strings.map_values(|string: String| string@)
}

/// What is left of `items` after its first `skip` items are dropped and at
/// most `limit` of the rest are kept.
pub open spec fn window<A>(items: Seq<A>, skip: nat, limit: nat) -> Seq<A> {
    let from = if skip < items.len() {
        skip
    } else {
        items.len()
    };
    let to = if from + limit < items.len() {
        from + limit
    } else {
        items.len()
    };
    items.subrange(from as int, to as int)
}

/// How many of `items` carry `tag`.
pub open spec fn count_with_tag(items: Seq<PodcastView>, tag: Seq<char>) -> nat {
    items.filter(|item: PodcastView| item.tags.contains(tag)).len()
}

/// For each tag outside `selected` that some item with every tag in
/// `selected` carries, the number of those items that carry it.
pub open spec fn tag_counts(items: Seq<PodcastView>, selected: Set<Seq<char>>) -> Map<
    Seq<char>,
    nat,
> {
    Map::new(
        |tag: Seq<char>|
            !selected.contains(tag) && count_with_tag(with_all_tags(items, selected), tag) > 0,
        |tag: Seq<char>| count_with_tag(with_all_tags(items, selected), tag),
    )
}

} // verus!
