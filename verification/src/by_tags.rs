//! The filter by tags: the podcasts that carry every requested tag.
use crate::laws::law_absent_tag_gives_none;
use crate::laws::law_no_tags_keep_all;
use crate::lemmas::lemma_descending_is_distinct;
use crate::lemmas::lemma_filter_push;
use crate::lemmas::lemma_group_of_one_tag;
use crate::lemmas::lemma_narrow_by_group;
use crate::lemmas::lemma_numbers_stand_for_items;
use crate::lemmas::lemma_to_set_push;
use crate::model::all_tags;
use crate::model::distinct_numbers;
use crate::model::numbers_with_all_tags;
use crate::model::numbers_with_tag;
use crate::model::shared_views;
use crate::model::strictly_descending;
use crate::model::views_of;
use crate::model::with_all_tags;
use crate::model::with_numbers;
use crate::podcast::tag_names;
use crate::podcast::Podcast;
use crate::podcast::PodcastNumber;
use crate::podcast::PodcastTag;
use crate::podcast::PodcastView;
use crate::sets::copy_of;
use crate::sets::keep_common;
use crate::tag_groups::TagGroups;
use std::collections::HashSet;
use std::sync::Arc;
use vstd::prelude::*;
use vstd::std_specs::hash::group_hash_axioms;

verus! {

broadcast use group_hash_axioms;

/// The podcasts of `list` that carry every tag in `tags`, in the order of
/// `list`; every podcast where `tags` is empty.
///
/// A requested tag without podcasts settles the answer at once. Otherwise
/// the group of one requested tag is narrowed by the group of each other
/// one, and what is left is listed in the order of `list`.
pub(crate) fn podcasts_with_tags<'a>(
    list: &'a Vec<Arc<Podcast>>,
    groups: &TagGroups,
    tags: &Vec<PodcastTag>,
) -> (podcasts: Vec<&'a Arc<Podcast>>)
    requires
        strictly_descending(shared_views(list@)),
        groups.is_grouping_of(shared_views(list@)),
    ensures
        views_of(podcasts@) == with_all_tags(shared_views(list@), tag_names(tags@).to_set()),
{
    let ghost items = shared_views(list@);
    let ghost names = tag_names(tags@);
    let ghost wanted = names.to_set();
    proof {
        lemma_descending_is_distinct(items);
    }
    if tags.len() == 0 {
        proof {
            assert(wanted =~= Set::<Seq<char>>::empty());
            law_no_tags_keep_all(items);
        }
        return every_podcast(list);
    }
    let mut k: usize = 0;
    while k < tags.len()
        invariant
            k <= tags@.len(),
            items == shared_views(list@),
            names == tag_names(tags@),
            wanted == names.to_set(),
            groups.is_grouping_of(items),
        decreases tags@.len() - k,
    {
        let ghost name = names[k as int];
        assert(name == tags@[k as int]@);
        assert(wanted.contains(name));
        match groups.get(&tags[k]) {
            Some(tag_podcasts) => {
                if tag_podcasts.is_empty() {
                    proof {
                        assert(groups.group(name) == numbers_with_tag(items, name));
                        if all_tags(items).contains(name) {
                            let at = choose|at: int|
                                0 <= at < items.len() && #[trigger] items[at].tags.contains(name);
                            assert(numbers_with_tag(items, name).contains(items[at].number));
                        }
                        law_absent_tag_gives_none(items, wanted, name);
                    }
                    return Vec::new();
                }
            },
            None => {
                proof {
                    law_absent_tag_gives_none(items, wanted, name);
                }
                return Vec::new();
            },
        }
        k = k + 1;
    }
    let last = tags.len() - 1;
    let ghost seed = names[last as int];
    assert(seed == tags@[last as int]@);
    assert(wanted.contains(seed));
    let mut podcasts: HashSet<PodcastNumber> = match groups.get(&tags[last]) {
        Some(first_tag_podcasts) => copy_of(first_tag_podcasts),
        None => {
            proof {
                law_absent_tag_gives_none(items, wanted, seed);
            }
            return Vec::new();
        },
    };
    let ghost narrowed_by: Set<Seq<char>> = set![seed];
    proof {
        assert(groups.group(seed) == numbers_with_tag(items, seed));
        lemma_group_of_one_tag(items, seed);
        assert(names.take(0).to_set() =~= Set::<Seq<char>>::empty());
        assert(narrowed_by =~= names.take(0).to_set().insert(seed));
    }
    let mut k: usize = 0;
    while k < last
        invariant
            k <= last,
            last + 1 == tags@.len(),
            items == shared_views(list@),
            distinct_numbers(items),
            names == tag_names(tags@),
            wanted == names.to_set(),
            seed == names[last as int],
            groups.is_grouping_of(items),
            narrowed_by == names.take(k as int).to_set().insert(seed),
            podcasts@ == numbers_with_all_tags(items, narrowed_by),
        decreases last - k,
    {
        let ghost name = names[k as int];
        assert(name == tags@[k as int]@);
        assert(wanted.contains(name));
        let tag_podcasts = match groups.get(&tags[k]) {
            Some(tag_podcasts) => tag_podcasts,
            None => {
                proof {
                    law_absent_tag_gives_none(items, wanted, name);
                }
                return Vec::new();
            },
        };
        keep_common(&mut podcasts, tag_podcasts);
        proof {
            assert(groups.group(name) == numbers_with_tag(items, name));
            lemma_narrow_by_group(items, narrowed_by, name);
            assert(names.take(k + 1) =~= names.take(k as int).push(name));
            lemma_to_set_push(names.take(k as int), name);
            narrowed_by = narrowed_by.insert(name);
            assert(narrowed_by =~= names.take(k + 1).to_set().insert(seed));
        }
        k = k + 1;
    }
    proof {
        assert(names =~= names.take(last as int).push(seed));
        lemma_to_set_push(names.take(last as int), seed);
        assert(narrowed_by =~= wanted);
        lemma_numbers_stand_for_items(items, wanted);
    }
    podcasts_numbered(list, &podcasts)
}

/// Every podcast of `list`, in order.
pub(crate) fn every_podcast(list: &Vec<Arc<Podcast>>) -> (podcasts: Vec<&Arc<Podcast>>)
    ensures
        views_of(podcasts@) == shared_views(list@),
{
    let ghost items = shared_views(list@);
    let mut all_podcasts: Vec<&Arc<Podcast>> = Vec::new();
    let mut i: usize = 0;
    while i < list.len()
        invariant
            i <= list@.len(),
            items == shared_views(list@),
            views_of(all_podcasts@) == items.take(i as int),
        decreases list@.len() - i,
    {
        let ghost listed = views_of(all_podcasts@);
        all_podcasts.push(&list[i]);
        assert(views_of(all_podcasts@) =~= listed.push(items[i as int]));
        assert(items.take(i + 1) =~= listed.push(items[i as int]));
        i = i + 1;
    }
    assert(items.take(items.len() as int) =~= items);
    all_podcasts
}

/// The podcasts of `list` whose number is in `numbers`, in the order of
/// `list`.
pub(crate) fn podcasts_numbered<'a>(
    list: &'a Vec<Arc<Podcast>>,
    numbers: &HashSet<PodcastNumber>,
) -> (podcasts: Vec<&'a Arc<Podcast>>)
    ensures
        views_of(podcasts@) == with_numbers(shared_views(list@), numbers@),
{
    let ghost items = shared_views(list@);
    let mut podcasts: Vec<&Arc<Podcast>> = Vec::new();
    let mut i: usize = 0;
    proof {
        assert(items.take(0) =~= Seq::<PodcastView>::empty());
        reveal(Seq::filter);
    }
    while i < list.len()
        invariant
            i <= list@.len(),
            items == shared_views(list@),
            views_of(podcasts@) == with_numbers(items.take(i as int), numbers@),
        decreases list@.len() - i,
    {
        let podcast = &list[i];
        let ghost found = views_of(podcasts@);
        proof {
            assert(items.take(i + 1) =~= items.take(i as int).push(items[i as int]));
            lemma_filter_push(
                items.take(i as int),
                items[i as int],
                |item: PodcastView| numbers@.contains(item.number),
            );
        }
        if numbers.contains(podcast.get_podcast_number()) {
            podcasts.push(podcast);
            assert(views_of(podcasts@) =~= found.push(items[i as int]));
        }
        i = i + 1;
    }
    assert(items.take(items.len() as int) =~= items);
    podcasts
}

} // verus!
