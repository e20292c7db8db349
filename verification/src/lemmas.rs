//! Lemmas about sequences and about the model of the index, on which the
//! proofs of the index and of its laws rest.
use crate::model::all_tags;
use crate::model::count_with_tag;
use crate::model::distinct_numbers;
use crate::model::has_all_tags;
use crate::model::numbers_with_all_tags;
use crate::model::numbers_with_tag;
use crate::model::select;
use crate::model::strictly_descending;
use crate::model::views;
use crate::model::with_all_tags;
use crate::model::with_numbers;
use crate::podcast::Podcast;
use crate::podcast::PodcastNumber;
use crate::podcast::PodcastView;
use vstd::prelude::*;

verus! {

/// What `items.push(item)` holds is what `items` holds, and `item`.
pub proof fn lemma_contains_push<A>(items: Seq<A>, item: A, wanted: A)
    ensures
        items.push(item).contains(wanted) <==> items.contains(wanted) || wanted == item,
{
    if items.push(item).contains(wanted) {
        let k = choose|k: int| 0 <= k < items.push(item).len() && items.push(item)[k] == wanted;
        if k < items.len() {
            assert(items[k] == wanted);
        }
    }
    if items.contains(wanted) {
        let k = choose|k: int| 0 <= k < items.len() && items[k] == wanted;
        assert(items.push(item)[k] == wanted);
    }
    if wanted == item {
        assert(items.push(item)[items.len() as int] == wanted);
    }
}

/// The members of `items.push(item)` are those of `items`, and `item`.
pub proof fn lemma_to_set_push<A>(items: Seq<A>, item: A)
    ensures
        items.push(item).to_set() == items.to_set().insert(item),
{
    assert forall|wanted: A|
        items.push(item).to_set().contains(wanted) <==> items.to_set().insert(item).contains(
            wanted,
        ) by {
        lemma_contains_push(items, item, wanted);
    }
    assert(items.push(item).to_set() =~= items.to_set().insert(item));
}

/// Filtering a sequence with one more item at its end.
pub proof fn lemma_filter_push<A>(items: Seq<A>, item: A, keep: spec_fn(A) -> bool)
    ensures
        items.push(item).filter(keep) == if keep(item) {
            items.filter(keep).push(item)
        } else {
            items.filter(keep)
        },
{
    reveal(Seq::filter);
    assert(items.push(item).drop_last() =~= items);
}

/// A filter that every item passes keeps the sequence as it is.
pub proof fn lemma_filter_keeps_all<A>(items: Seq<A>, keep: spec_fn(A) -> bool)
    requires
        forall|i: int| 0 <= i < items.len() ==> keep(#[trigger] items[i]),
    ensures
        items.filter(keep) == items,
    decreases items.len(),
{
    reveal(Seq::filter);
    if items.len() > 0 {
        lemma_filter_keeps_all(items.drop_last(), keep);
        assert(items.drop_last().push(items.last()) =~= items);
    }
}

/// Every item of a filtered sequence is an item of the sequence and meets
/// the condition, and every such item is in the filtered sequence.
pub proof fn lemma_filter_members<A>(items: Seq<A>, keep: spec_fn(A) -> bool)
    ensures
        forall|item: A|
            #[trigger] items.filter(keep).contains(item) <==> items.contains(item) && keep(item),
    decreases items.len(),
{
    reveal(Seq::filter);
    if items.len() > 0 {
        let front = items.drop_last();
        lemma_filter_members(front, keep);
        assert forall|item: A| #[trigger]
            items.filter(keep).contains(item) <==> items.contains(item) && keep(item) by {
            let kept = items.filter(keep);
            if kept.contains(item) {
                let k = choose|k: int| 0 <= k < kept.len() && kept[k] == item;
                if keep(items.last()) && k == kept.len() - 1 {
                    assert(items[items.len() - 1] == item);
                } else {
                    assert(front.filter(keep)[k] == item);
                    assert(front.filter(keep).contains(item));
                    let m = choose|m: int| 0 <= m < front.len() && front[m] == item;
                    assert(items[m] == item);
                }
            }
            if items.contains(item) && keep(item) {
                let m = choose|m: int| 0 <= m < items.len() && items[m] == item;
                if m == items.len() - 1 {
                    assert(kept[kept.len() - 1] == item);
                } else {
                    assert(front[m] == item);
                    assert(front.filter(keep).contains(item));
                    let k = choose|k: int|
                        0 <= k < front.filter(keep).len() && front.filter(keep)[k] == item;
                    assert(kept[k] == item);
                }
            }
        }
    }
}

/// Selecting from a sequence with one more item at its end.
pub proof fn lemma_select_push<A>(items: Seq<A>, keep: Seq<bool>, item: A, kept: bool)
    requires
        keep.len() == items.len(),
    ensures
        select(items.push(item), keep.push(kept)) == if kept {
            select(items, keep).push(item)
        } else {
            select(items, keep)
        },
{
    assert(items.push(item).drop_last() =~= items);
    assert(keep.push(kept).take(items.push(item).len() - 1) =~= keep);
}

/// Selecting by marks that say of each item whether it meets a condition is
/// filtering by that condition.
pub proof fn lemma_select_is_filter<A>(items: Seq<A>, keep: Seq<bool>, meets: spec_fn(A) -> bool)
    requires
        keep.len() == items.len(),
        forall|i: int| 0 <= i < items.len() ==> keep[i] == meets(#[trigger] items[i]),
    ensures
        select(items, keep) == items.filter(meets),
    decreases items.len(),
{
    reveal(Seq::filter);
    if items.len() > 0 {
        let front = items.drop_last();
        let marks = keep.take(items.len() - 1);
        assert forall|i: int| 0 <= i < front.len() implies marks[i] == meets(
            #[trigger] front[i],
        ) by {
            assert(front[i] == items[i]);
        }
        lemma_select_is_filter(front, marks, meets);
    }
}

/// Sequences of podcasts that hold the same podcasts equally often have views
/// that hold the same views equally often.
pub proof fn lemma_views_to_multiset(a: Seq<Podcast>, b: Seq<Podcast>)
    requires
        a.to_multiset() == b.to_multiset(),
    ensures
        views(a).to_multiset() == views(b).to_multiset(),
    decreases a.len(),
{
    broadcast use vstd::seq_lib::group_to_multiset_ensures;

    a.to_multiset_ensures();
    b.to_multiset_ensures();
    if a.len() == 0 {
        assert(views(a) =~= views(b));
    } else {
        let last = a.last();
        let front = a.drop_last();
        assert(a =~= front.push(last));
        front.to_multiset_ensures();
        assert(b.to_multiset().count(last) > 0);
        assert(b.contains(last));
        let at = choose|at: int| 0 <= at < b.len() && b[at] == last;
        let rest = b.remove(at);
        assert(rest.to_multiset() =~= front.to_multiset());
        lemma_views_to_multiset(front, rest);
        assert(views(a) =~= views(front).push(last@));
        assert(views(rest) =~= views(b).remove(at));
        views(front).to_multiset_ensures();
        views(b).to_multiset_ensures();
        assert(views(b)[at] == last@);
        assert(views(b).to_multiset() =~= views(rest).to_multiset().insert(last@));
    }
}

/// A rearrangement of items with distinct numbers has distinct numbers.
pub proof fn lemma_distinct_numbers_rearranged(a: Seq<PodcastView>, b: Seq<PodcastView>)
    requires
        distinct_numbers(a),
        a.to_multiset() == b.to_multiset(),
    ensures
        distinct_numbers(b),
{
    a.to_multiset_ensures();
    b.to_multiset_ensures();
    assert(a.no_duplicates());
    a.lemma_multiset_has_no_duplicates();
    b.lemma_multiset_has_no_duplicates_conv();
    assert forall|i: int, j: int|
        0 <= i < b.len() && 0 <= j < b.len() && i != j implies b[i].number != b[j].number by {
        assert(b.contains(b[i]) && b.contains(b[j]));
        assert(b.to_multiset().count(b[i]) > 0 && b.to_multiset().count(b[j]) > 0);
        assert(a.to_multiset().count(b[i]) > 0 && a.to_multiset().count(b[j]) > 0);
        assert(a.contains(b[i]) && a.contains(b[j]));
        let m = choose|m: int| 0 <= m < a.len() && a[m] == b[i];
        let n = choose|n: int| 0 <= n < a.len() && a[n] == b[j];
        assert(b[i] != b[j]);
    }
}

/// Items in strictly descending order have distinct numbers.
pub proof fn lemma_descending_is_distinct(items: Seq<PodcastView>)
    requires
        strictly_descending(items),
    ensures
        distinct_numbers(items),
{
    assert forall|i: int, j: int|
        0 <= i < items.len() && 0 <= j < items.len() && i != j implies items[i].number
        != items[j].number by {
        if i < j {
            assert(items[i].number > items[j].number);
        } else {
            assert(items[j].number > items[i].number);
        }
    }
}

/// The tags of one more item join the tags of the items before it.
pub proof fn lemma_all_tags_push(items: Seq<PodcastView>, item: PodcastView, tag: Seq<char>)
    ensures
        all_tags(items.push(item)).contains(tag) <==> all_tags(items).contains(tag)
            || item.tags.contains(tag),
{
    let next = items.push(item);
    if all_tags(next).contains(tag) {
        let k = choose|k: int| 0 <= k < next.len() && #[trigger] next[k].tags.contains(tag);
        if k < items.len() {
            assert(items[k].tags.contains(tag));
        }
    }
    if all_tags(items).contains(tag) {
        let k = choose|k: int| 0 <= k < items.len() && #[trigger] items[k].tags.contains(tag);
        assert(next[k].tags.contains(tag));
    }
    if item.tags.contains(tag) {
        assert(next[items.len() as int].tags.contains(tag));
    }
}

/// One more item adds its number to the group of each tag that it carries.
pub proof fn lemma_numbers_with_tag_push(items: Seq<PodcastView>, item: PodcastView, tag: Seq<char>)
    ensures
        numbers_with_tag(items.push(item), tag) == if item.tags.contains(tag) {
            numbers_with_tag(items, tag).insert(item.number)
        } else {
            numbers_with_tag(items, tag)
        },
{
    let next = items.push(item);
    let expected = if item.tags.contains(tag) {
        numbers_with_tag(items, tag).insert(item.number)
    } else {
        numbers_with_tag(items, tag)
    };
    assert forall|number: PodcastNumber|
        numbers_with_tag(next, tag).contains(number) <==> expected.contains(number) by {
        if numbers_with_tag(next, tag).contains(number) {
            let k = choose|k: int|
                0 <= k < next.len() && #[trigger] next[k].number == number && next[k].tags.contains(
                    tag,
                );
            if k < items.len() {
                assert(items[k].number == number && items[k].tags.contains(tag));
            }
        }
        if numbers_with_tag(items, tag).contains(number) {
            let k = choose|k: int|
                0 <= k < items.len() && #[trigger] items[k].number == number
                    && items[k].tags.contains(tag);
            assert(next[k].number == number && next[k].tags.contains(tag));
        }
        if item.tags.contains(tag) && number == item.number {
            assert(next[items.len() as int].number == number);
        }
    }
    assert(numbers_with_tag(next, tag) =~= expected);
}

/// The numbers grouped under one tag are the numbers of the items that carry
/// every tag of the set that holds that tag alone.
pub proof fn lemma_group_of_one_tag(items: Seq<PodcastView>, tag: Seq<char>)
    ensures
        numbers_with_tag(items, tag) == numbers_with_all_tags(items, set![tag]),
{
    let one = set![tag];
    assert(one.contains(tag));
    assert forall|number: PodcastNumber|
        numbers_with_tag(items, tag).contains(number) <==> numbers_with_all_tags(
            items,
            one,
        ).contains(number) by {
        if numbers_with_tag(items, tag).contains(number) {
            let i = choose|i: int|
                0 <= i < items.len() && #[trigger] items[i].number == number
                    && items[i].tags.contains(tag);
            assert(has_all_tags(items[i], one));
        }
        if numbers_with_all_tags(items, one).contains(number) {
            let i = choose|i: int|
                0 <= i < items.len() && #[trigger] items[i].number == number && has_all_tags(
                    items[i],
                    one,
                );
            assert(items[i].tags.contains(tag));
        }
    }
    assert(numbers_with_tag(items, tag) =~= numbers_with_all_tags(items, one));
}

/// Narrowing the numbers that carry every tag of `tags` to the group of one
/// more tag gives the numbers that carry that tag too.
pub proof fn lemma_narrow_by_group(items: Seq<PodcastView>, tags: Set<Seq<char>>, tag: Seq<char>)
    requires
        distinct_numbers(items),
    ensures
        numbers_with_all_tags(items, tags).intersect(numbers_with_tag(items, tag))
            == numbers_with_all_tags(items, tags.insert(tag)),
{
    let narrowed = numbers_with_all_tags(items, tags).intersect(numbers_with_tag(items, tag));
    let both = numbers_with_all_tags(items, tags.insert(tag));
    assert forall|number: PodcastNumber| narrowed.contains(number) <==> both.contains(number) by {
        if narrowed.contains(number) {
            let i = choose|i: int|
                0 <= i < items.len() && #[trigger] items[i].number == number && has_all_tags(
                    items[i],
                    tags,
                );
            let j = choose|j: int|
                0 <= j < items.len() && #[trigger] items[j].number == number
                    && items[j].tags.contains(tag);
            assert(i == j);
            assert(has_all_tags(items[i], tags.insert(tag)));
        }
        if both.contains(number) {
            let i = choose|i: int|
                0 <= i < items.len() && #[trigger] items[i].number == number && has_all_tags(
                    items[i],
                    tags.insert(tag),
                );
            assert(tags.insert(tag).contains(tag));
            assert(has_all_tags(items[i], tags));
            assert(items[i].tags.contains(tag));
        }
    }
    assert(narrowed =~= both);
}

/// Among items with distinct numbers, the number of an item is one of the
/// numbers that carry every tag of `tags` exactly when the item does.
pub proof fn lemma_number_stands_for_item(items: Seq<PodcastView>, tags: Set<Seq<char>>, i: int)
    requires
        distinct_numbers(items),
        0 <= i < items.len(),
    ensures
        numbers_with_all_tags(items, tags).contains(items[i].number) <==> has_all_tags(
            items[i],
            tags,
        ),
{
    if numbers_with_all_tags(items, tags).contains(items[i].number) {
        let j = choose|j: int|
            0 <= j < items.len() && #[trigger] items[j].number == items[i].number && has_all_tags(
                items[j],
                tags,
            );
        assert(i == j);
    }
}

/// One more item adds one to the count of each tag that it carries.
pub proof fn lemma_count_with_tag_push(items: Seq<PodcastView>, item: PodcastView, tag: Seq<char>)
    ensures
        count_with_tag(items.push(item), tag) == if item.tags.contains(tag) {
            count_with_tag(items, tag) + 1
        } else {
            count_with_tag(items, tag)
        },
{
    lemma_filter_push(items, item, |item: PodcastView| item.tags.contains(tag));
}

/// No more items carry a tag than there are items, and where some do, one
/// of the items carries it.
pub proof fn lemma_count_with_tag_bound(items: Seq<PodcastView>, tag: Seq<char>)
    ensures
        count_with_tag(items, tag) <= items.len(),
        count_with_tag(items, tag) > 0 ==> exists|i: int|
            0 <= i < items.len() && #[trigger] items[i].tags.contains(tag),
{
    let carry = |item: PodcastView| item.tags.contains(tag);
    items.lemma_filter_len(carry);
    let carriers = items.filter(carry);
    if carriers.len() > 0 {
        lemma_filter_members(items, carry);
        assert(carriers.contains(carriers[0]));
        let at = choose|at: int| 0 <= at < items.len() && items[at] == carriers[0];
        assert(items[at].tags.contains(tag));
    }
}

/// Two conditions that agree on every item of a sequence filter it alike.
pub proof fn lemma_filter_agrees<A>(
    items: Seq<A>,
    one: spec_fn(A) -> bool,
    other: spec_fn(A) -> bool,
)
    requires
        forall|i: int| 0 <= i < items.len() ==> one(#[trigger] items[i]) == other(items[i]),
    ensures
        items.filter(one) == items.filter(other),
    decreases items.len(),
{
    reveal(Seq::filter);
    if items.len() > 0 {
        let front = items.drop_last();
        assert forall|i: int| 0 <= i < front.len() implies one(#[trigger] front[i]) == other(
            front[i],
        ) by {
            assert(front[i] == items[i]);
        }
        lemma_filter_agrees(front, one, other);
    }
}

/// Among items with distinct numbers, the items whose number is one of those
/// that carry every tag of `tags` are the items that carry every tag of
/// `tags`.
pub proof fn lemma_numbers_stand_for_items(items: Seq<PodcastView>, tags: Set<Seq<char>>)
    requires
        distinct_numbers(items),
    ensures
        with_numbers(items, numbers_with_all_tags(items, tags)) == with_all_tags(items, tags),
{
    let numbers = numbers_with_all_tags(items, tags);
    let by_number = |item: PodcastView| numbers.contains(item.number);
    let by_tags = |item: PodcastView| has_all_tags(item, tags);
    assert forall|i: int| 0 <= i < items.len() implies by_number(#[trigger] items[i]) == by_tags(
        items[i],
    ) by {
        lemma_number_stands_for_item(items, tags, i);
    }
    lemma_filter_agrees(items, by_number, by_tags);
}

} // verus!
