//! Laws of the queries, stated over the model of the index.
use crate::lemmas::lemma_count_with_tag_push;
use crate::lemmas::lemma_filter_keeps_all;
use crate::lemmas::lemma_filter_members;
use crate::lemmas::lemma_filter_push;
use crate::model::all_tags;
use crate::model::count_with_tag;
use crate::model::has_all_tags;
use crate::model::matching;
use crate::model::strictly_descending;
use crate::model::window;
use crate::model::with_all_tags;
use crate::podcast::PodcastView;
use crate::text::lemma_empty_is_substring;
use crate::text::lowercase;
use crate::text::title_matches;
use vstd::prelude::*;

verus! {

/// In the canonical order a number belongs to one item only.
pub proof fn law_number_identifies_item(items: Seq<PodcastView>, i: int, j: int)
    requires
        strictly_descending(items),
        0 <= i < items.len(),
        0 <= j < items.len(),
        items[i].number == items[j].number,
    ensures
        i == j,
{
    if i < j {
        assert(items[i].number > items[j].number);
    }
    if j < i {
        assert(items[j].number > items[i].number);
    }
}

/// In the canonical order two items with the same number are the same item.
pub proof fn law_number_identifies_podcast(
    items: Seq<PodcastView>,
    one: PodcastView,
    other: PodcastView,
)
    requires
        strictly_descending(items),
        items.contains(one),
        items.contains(other),
        one.number == other.number,
    ensures
        one == other,
{
    let i = choose|i: int| 0 <= i < items.len() && items[i] == one;
    let j = choose|j: int| 0 <= j < items.len() && items[j] == other;
    law_number_identifies_item(items, i, j);
}

/// Filtering by no tag keeps every item, in order.
pub proof fn law_no_tags_keep_all(items: Seq<PodcastView>)
    ensures
        with_all_tags(items, Set::empty()) == items,
{
    let none = Set::<Seq<char>>::empty();
    lemma_filter_keeps_all(items, |item: PodcastView| has_all_tags(item, none));
}

/// An item is among those filtered by one tag exactly when it is an item of
/// the catalog that carries the tag.
pub proof fn law_single_tag_membership(items: Seq<PodcastView>, tag: Seq<char>, item: PodcastView)
    ensures
        with_all_tags(items, set![tag]).contains(item) <==> items.contains(item)
            && item.tags.contains(tag),
{
    lemma_filter_members(items, |item: PodcastView| has_all_tags(item, set![tag]));
    assert(set![tag].contains(tag));
}

/// An item is among those filtered by a set of tags exactly when it is an
/// item of the catalog that carries each of them.
pub proof fn law_tags_membership(items: Seq<PodcastView>, tags: Set<Seq<char>>, item: PodcastView)
    ensures
        with_all_tags(items, tags).contains(item) <==> items.contains(item) && has_all_tags(
            item,
            tags,
        ),
{
    lemma_filter_members(items, |item: PodcastView| has_all_tags(item, tags));
}

/// Asking for more tags never adds an item: what carries every tag of the
/// larger set is among what carries every tag of the smaller one.
pub proof fn law_more_tags_narrow(
    items: Seq<PodcastView>,
    fewer: Set<Seq<char>>,
    more: Set<Seq<char>>,
    item: PodcastView,
)
    requires
        fewer.subset_of(more),
        with_all_tags(items, more).contains(item),
    ensures
        with_all_tags(items, fewer).contains(item),
{
    law_tags_membership(items, more, item);
    law_tags_membership(items, fewer, item);
}

/// A tag that labels no item leaves nothing when it is asked for.
pub proof fn law_absent_tag_gives_none(
    items: Seq<PodcastView>,
    tags: Set<Seq<char>>,
    tag: Seq<char>,
)
    requires
        tags.contains(tag),
        !all_tags(items).contains(tag),
    ensures
        with_all_tags(items, tags) == Seq::<PodcastView>::empty(),
{
    let found = with_all_tags(items, tags);
    if found.len() > 0 {
        law_tags_membership(items, tags, found[0]);
        assert(found.contains(found[0]));
        let at = choose|at: int| 0 <= at < items.len() && items[at] == found[0];
        assert(items[at].tags.contains(tag));
    }
    assert(found =~= Seq::<PodcastView>::empty());
}

/// No more items carry every tag of a set than carry any one of its tags.
pub proof fn law_result_within_each_group(
    items: Seq<PodcastView>,
    tags: Set<Seq<char>>,
    tag: Seq<char>,
)
    requires
        tags.contains(tag),
    ensures
        with_all_tags(items, tags).len() <= count_with_tag(items, tag),
    decreases items.len(),
{
    if items.len() == 0 {
        reveal(Seq::filter);
    } else {
        let front = items.drop_last();
        let last = items.last();
        assert(front.push(last) =~= items);
        law_result_within_each_group(front, tags, tag);
        lemma_filter_push(front, last, |item: PodcastView| has_all_tags(item, tags));
        lemma_count_with_tag_push(front, last, tag);
    }
}

/// The count of a tag among the items that carry every selected tag is the
/// number of items that carry the selected tags and that tag.
pub proof fn law_count_is_size_of_refinement(
    items: Seq<PodcastView>,
    selected: Set<Seq<char>>,
    tag: Seq<char>,
)
    ensures
        count_with_tag(with_all_tags(items, selected), tag) == with_all_tags(
            items,
            selected.insert(tag),
        ).len(),
    decreases items.len(),
{
    if items.len() == 0 {
        reveal(Seq::filter);
    } else {
        let front = items.drop_last();
        let last = items.last();
        assert(front.push(last) =~= items);
        law_count_is_size_of_refinement(front, selected, tag);
        lemma_filter_push(front, last, |item: PodcastView| has_all_tags(item, selected));
        lemma_filter_push(
            front,
            last,
            |item: PodcastView| has_all_tags(item, selected.insert(tag)),
        );
        lemma_count_with_tag_push(with_all_tags(front, selected), last, tag);
        assert(selected.insert(tag).contains(tag));
        assert(has_all_tags(last, selected.insert(tag)) <==> has_all_tags(last, selected)
            && last.tags.contains(tag));
    }
}

/// A query whose lowercase form is empty matches every item.
pub proof fn law_empty_query_matches_all(items: Seq<PodcastView>, query: Seq<char>)
    requires
        lowercase(query).len() == 0,
    ensures
        matching(items, query) == items,
{
    assert(lowercase(query) =~= Seq::<char>::empty());
    assert forall|k: int| 0 <= k < items.len() implies title_matches(
        (#[trigger] items[k]).title,
        query,
    ) by {
        lemma_empty_is_substring(lowercase(items[k].title));
    }
    lemma_filter_keeps_all(items, |item: PodcastView| title_matches(item.title, query));
}

/// A window that skips nothing holds the first `limit` items, or all of them
/// where there are fewer.
pub proof fn law_window_from_start<A>(items: Seq<A>, limit: nat)
    ensures
        window(items, 0, limit) == if limit < items.len() {
            items.take(limit as int)
        } else {
            items
        },
{
    assert(window(items, 0, limit) =~= if limit < items.len() {
        items.take(limit as int)
    } else {
        items
    });
}

/// A window is a contiguous run of the sequence that it is taken from: the
/// item at position `k` of the window is the item at position `skip + k`.
pub proof fn law_window_is_contiguous<A>(items: Seq<A>, skip: nat, limit: nat, k: int)
    requires
        0 <= k < window(items, skip, limit).len(),
    ensures
        window(items, skip, limit).len() <= limit,
        skip + k < items.len(),
        window(items, skip, limit)[k] == items[skip + k],
{
}

} // verus!
