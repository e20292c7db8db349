//! The passes that build the index from the loaded catalog: the canonical
//! order, the grouping by tag and the lookup by number.
use crate::lemmas::lemma_all_tags_push;
use crate::lemmas::lemma_contains_push;
use crate::lemmas::lemma_numbers_with_tag_push;
use crate::model::all_tags;
use crate::model::distinct_numbers;
use crate::model::has_number;
use crate::model::numbers_with_tag;
use crate::model::shared_views;
use crate::model::views;
use crate::podcast::tag_names;
use crate::podcast::Podcast;
use crate::podcast::PodcastNumber;
use crate::podcast::PodcastView;
use crate::tag_groups::TagGroups;
use std::collections::BTreeMap;
use std::collections::HashSet;
use std::sync::Arc;
use vstd::prelude::*;
use vstd::std_specs::hash::group_hash_axioms;

verus! {

broadcast use group_hash_axioms;

/// Whether `by_num` finds each of `items` under its number, and nothing
/// under any other number.
pub open spec fn looks_up(
    by_num: Map<PodcastNumber, Arc<Podcast>>,
    items: Seq<PodcastView>,
) -> bool {
    &&& forall|number: PodcastNumber| #[trigger]
        by_num.contains_key(number) <==> has_number(items, number)
    &&& forall|i: int| 0 <= i < items.len() ==> by_num[(#[trigger] items[i]).number]@ == items[i]
}

/// Calls `Arc::clone`. Not proved: that the new handle refers to the podcast
/// that `podcast` refers to.
#[verifier::external_body]
fn share(podcast: &Arc<Podcast>) -> (shared: Arc<Podcast>)
    ensures
        shared == *podcast,
{
    Arc::clone(podcast)
}

/// Whether no two of `podcasts` share a number, which is what the index asks
/// of its catalog.
pub fn have_distinct_numbers(podcasts: &Vec<Podcast>) -> (distinct: bool)
    ensures
        distinct == distinct_numbers(views(podcasts@)),
{
    let ghost items = views(podcasts@);
    let mut seen: HashSet<PodcastNumber> = HashSet::new();
    let mut i: usize = 0;
    while i < podcasts.len()
        invariant
            i <= podcasts@.len(),
            items == views(podcasts@),
            distinct_numbers(items.take(i as int)),
            forall|number: PodcastNumber| #[trigger]
                seen@.contains(number) <==> has_number(items.take(i as int), number),
        decreases podcasts@.len() - i,
    {
        let ghost done = items.take(i as int);
        let number = *podcasts[i].get_podcast_number();
        assert(items[i as int].number == number);
        let fresh = seen.insert(number);
        if !fresh {
            proof {
                let k = choose|k: int| 0 <= k < done.len() && #[trigger] done[k].number == number;
                assert(items[k].number == items[i as int].number);
            }
            return false;
        }
        proof {
            let next = items.take(i + 1);
            assert(next =~= done.push(items[i as int]));
            lemma_has_number_push(done, items[i as int]);
            assert forall|a: int, b: int|
                0 <= a < next.len() && 0 <= b < next.len() && a != b implies next[a].number
                != next[b].number by {
                if a < i && b < i {
                    assert(done[a].number != done[b].number);
                } else if a < i {
                    assert(done[a].number == next[a].number);
                } else {
                    assert(done[b].number == next[b].number);
                }
            }
        }
        i = i + 1;
    }
    assert(items.take(items.len() as int) =~= items);
    true
}

/// Turns podcasts in ascending order into shared podcasts in descending
/// order.
pub(crate) fn descending(sorted: Vec<Podcast>) -> (list: Vec<Arc<Podcast>>)
    ensures
        shared_views(list@) == views(sorted@).reverse(),
{
    let ghost given = sorted@;
    let mut sorted = sorted;
    let mut list: Vec<Arc<Podcast>> = Vec::new();
    while sorted.len() > 0
        invariant
            sorted@.len() + list@.len() == given.len(),
            sorted@ == given.take(sorted@.len() as int),
            forall|k: int| 0 <= k < list@.len() ==> *list@[k] == given[given.len() - 1 - k],
        decreases sorted@.len(),
    {
        match sorted.pop() {
            Some(podcast) => {
                list.push(Arc::new(podcast));
            },
            None => {},
        }
    }
    assert(shared_views(list@) =~= views(given).reverse());
    list
}

/// Groups the numbers of `list` by the tags that its podcasts carry: for
/// every tag on every podcast, the podcast's number joins the group of the
/// tag, which is made when the tag is first seen.
pub(crate) fn grouped_by_tag(list: &Vec<Arc<Podcast>>) -> (groups: TagGroups)
    ensures
        groups.is_grouping_of(shared_views(list@)),
{
    let ghost items = shared_views(list@);
    let mut groups = TagGroups::new();
    let mut i: usize = 0;
    proof {
        let none = items.take(0);
        assert(none =~= Seq::<PodcastView>::empty());
        assert forall|name: Seq<char>| #[trigger]
            groups.group(name) == numbers_with_tag(none, name) by {
            assert(numbers_with_tag(none, name) =~= Set::<PodcastNumber>::empty());
        }
    }
    while i < list.len()
        invariant
            i <= list@.len(),
            items == shared_views(list@),
            groups.is_grouping_of(items.take(i as int)),
        decreases list@.len() - i,
    {
        let podcast = &list[i];
        let number = *podcast.get_podcast_number();
        let tags = podcast.get_tags();
        let ghost names = tag_names(tags@);
        let ghost done = items.take(i as int);
        let mut j: usize = 0;
        assert(items[i as int] == podcast@);
        while j < tags.len()
            invariant
                j <= tags@.len(),
                names == tag_names(tags@),
                groups.wf(),
                forall|name: Seq<char>| #[trigger]
                    groups.names().contains(name) <==> all_tags(done).contains(name)
                        || names.take(j as int).contains(name),
                forall|name: Seq<char>| #[trigger]
                    groups.group(name) == if names.take(j as int).contains(name) {
                        numbers_with_tag(done, name).insert(number)
                    } else {
                        numbers_with_tag(done, name)
                    },
            decreases tags@.len() - j,
        {
            let ghost before = groups;
            groups.add(&tags[j], number);
            proof {
                let tag = names[j as int];
                assert(names.take(j + 1) =~= names.take(j as int).push(tag));
                assert forall|name: Seq<char>| #[trigger]
                    groups.names().contains(name) <==> all_tags(done).contains(name)
                        || names.take(j + 1).contains(name) by {
                    lemma_contains_push(names.take(j as int), tag, name);
                    lemma_contains_push(before.names(), tag, name);
                }
                assert forall|name: Seq<char>| #[trigger]
                    groups.group(name) == if names.take(j + 1).contains(name) {
                        numbers_with_tag(done, name).insert(number)
                    } else {
                        numbers_with_tag(done, name)
                    } by {
                    lemma_contains_push(names.take(j as int), tag, name);
                    assert(before.group(name) == if names.take(j as int).contains(name) {
                        numbers_with_tag(done, name).insert(number)
                    } else {
                        numbers_with_tag(done, name)
                    });
                }
            }
            j = j + 1;
        }
        proof {
            assert(names.take(tags@.len() as int) =~= names);
            let next = items.take(i + 1);
            assert(next =~= done.push(items[i as int]));
            assert forall|name: Seq<char>| #[trigger]
                groups.names().contains(name) <==> all_tags(next).contains(name) by {
                lemma_all_tags_push(done, items[i as int], name);
                assert(names.contains(name) <==> names.to_set().contains(name));
            }
            assert forall|name: Seq<char>| #[trigger]
                groups.group(name) == numbers_with_tag(next, name) by {
                lemma_numbers_with_tag_push(done, items[i as int], name);
                assert(names.contains(name) <==> names.to_set().contains(name));
            }
        }
        i = i + 1;
    }
    assert(items.take(list@.len() as int) =~= items);
    groups
}

/// Maps the number of each podcast of `list` to the podcast.
pub(crate) fn indexed_by_number(list: &Vec<Arc<Podcast>>) -> (by_num: BTreeMap<
    PodcastNumber,
    Arc<Podcast>,
>)
    requires
        distinct_numbers(shared_views(list@)),
    ensures
        looks_up(by_num@, shared_views(list@)),
{
    let ghost items = shared_views(list@);
    let mut by_num: BTreeMap<PodcastNumber, Arc<Podcast>> = BTreeMap::new();
    let mut i: usize = 0;
    while i < list.len()
        invariant
            i <= list@.len(),
            items == shared_views(list@),
            distinct_numbers(items),
            looks_up(by_num@, items.take(i as int)),
        decreases list@.len() - i,
    {
        let ghost done = items.take(i as int);
        let podcast = &list[i];
        by_num.insert(*podcast.get_podcast_number(), share(podcast));
        proof {
            let next = items.take(i + 1);
            assert(next =~= done.push(items[i as int]));
            lemma_has_number_push(done, items[i as int]);
            assert forall|k: int| 0 <= k < next.len() implies by_num@[(#[trigger] next[k]).number]@
                == next[k] by {
                if k < i {
                    assert(done[k] == next[k]);
                    assert(items[k].number != items[i as int].number);
                }
            }
        }
        i = i + 1;
    }
    assert(items.take(list@.len() as int) =~= items);
    by_num
}

/// The numbers of a sequence with one more item are those of the sequence,
/// and the number of that item.
proof fn lemma_has_number_push(items: Seq<PodcastView>, item: PodcastView)
    ensures
        forall|number: PodcastNumber| #[trigger]
            has_number(items.push(item), number) <==> has_number(items, number) || number
                == item.number,
{
    let next = items.push(item);
    assert forall|number: PodcastNumber| #[trigger]
        has_number(next, number) <==> has_number(items, number) || number == item.number by {
        if has_number(next, number) {
            let k = choose|k: int| 0 <= k < next.len() && #[trigger] next[k].number == number;
            if k < items.len() {
                assert(items[k].number == number);
            }
        }
        if has_number(items, number) {
            let k = choose|k: int| 0 <= k < items.len() && #[trigger] items[k].number == number;
            assert(next[k].number == number);
        }
        if number == item.number {
            assert(next[items.len() as int].number == number);
        }
    }
}

} // verus!
