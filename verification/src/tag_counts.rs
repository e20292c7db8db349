//! The count of podcasts per tag among the podcasts that a selection of tags
//! leaves.
use crate::by_tags::podcasts_with_tags;
use crate::laws::law_tags_membership;
use crate::lemmas::lemma_contains_push;
use crate::lemmas::lemma_count_with_tag_bound;
use crate::lemmas::lemma_count_with_tag_push;
use crate::model::all_tags;
use crate::model::count_with_tag;
use crate::model::shared_views;
use crate::model::strictly_descending;
use crate::model::tag_counts;
use crate::model::views_of;
use crate::model::with_all_tags;
use crate::podcast::tag_names;
use crate::podcast::Podcast;
use crate::podcast::PodcastTag;
use crate::podcast::PodcastView;
use crate::tag_groups::TagGroups;
use std::sync::Arc;
use vstd::prelude::*;

verus! {

/// The names of the tags that a list of counts speaks of, in the same order.
pub open spec fn counted_tags(counts: Seq<(&PodcastTag, usize)>) -> Seq<Seq<char>> {
    counts.map_values(|count: (&PodcastTag, usize)| count.0@)
}

/// Whether `counts` lists `expected`: each tag of `expected` once, with its
/// count, and no other tag.
pub open spec fn lists_counts(
    counts: Seq<(&PodcastTag, usize)>,
    expected: Map<Seq<char>, nat>,
) -> bool {
    &&& counted_tags(counts).no_duplicates()
    &&& forall|k: int|
        0 <= k < counts.len() ==> expected.contains_key(#[trigger] counted_tags(counts)[k])
            && expected[counted_tags(counts)[k]] == counts[k].1
    &&& forall|name: Seq<char>| #[trigger]
        expected.contains_key(name) ==> counted_tags(counts).contains(name)
}

/// Whether one of the first `upto` slots holds the tag `name` with the count
/// `count`, which is not zero.
pub open spec fn counted_before(
    names: Seq<Seq<char>>,
    slot_counts: Seq<usize>,
    upto: int,
    name: Seq<char>,
    count: usize,
) -> bool {
    exists|at: int| 0 <= at < upto && names[at] == name && slot_counts[at] == count && count > 0
}

/// For each tag outside `tags` that one of the podcasts of `list` with every
/// tag in `tags` carries, the number of those podcasts that carry it.
///
/// The podcasts with every tag in `tags` are counted tag by tag, and the
/// counts of the tags in `tags` are then dropped.
pub(crate) fn counts_excluding<'a>(
    list: &Vec<Arc<Podcast>>,
    groups: &'a TagGroups,
    tags: &Vec<PodcastTag>,
) -> (counts: Vec<(&'a PodcastTag, usize)>)
    requires
        strictly_descending(shared_views(list@)),
        groups.is_grouping_of(shared_views(list@)),
    ensures
        lists_counts(counts@, tag_counts(shared_views(list@), tag_names(tags@).to_set())),
{
    let ghost items = shared_views(list@);
    let ghost selected = tag_names(tags@).to_set();
    let ghost names = groups.names();
    let tag_filtered_podcasts = podcasts_with_tags(list, groups, tags);
    let ghost found = views_of(tag_filtered_podcasts@);
    proof {
        assert forall|name: Seq<char>| all_tags(found).contains(name) implies names.contains(
            name,
        ) by {
            let at = choose|at: int|
                0 <= at < found.len() && #[trigger] found[at].tags.contains(name);
            assert(found.contains(found[at]));
            lemma_carried_tag_is_known(items, selected, found[at], name);
            assert(groups.names().contains(name));
        }
    }
    let mut slot_counts = counts_by_slot(groups, &tag_filtered_podcasts);
    let ghost counted = slot_counts@;
    drop_selected(groups, &mut slot_counts, tags);
    let counts = listed_counts(groups, &slot_counts);
    proof {
        let expected = tag_counts(items, selected);
        assert forall|k: int| 0 <= k < counts@.len() implies expected.contains_key(
            #[trigger] counted_tags(counts@)[k],
        ) && expected[counted_tags(counts@)[k]] == counts@[k].1 by {
            let name = counted_tags(counts@)[k];
            assert(counted_before(names, slot_counts@, names.len() as int, name, counts@[k].1));
            let at = choose|at: int|
                0 <= at < names.len() && names[at] == name && slot_counts@[at] == counts@[k].1
                    && counts@[k].1 > 0;
            assert(tag_names(tags@).contains(name) <==> selected.contains(name));
            assert(counted[at] == count_with_tag(found, names[at]));
        }
        assert forall|name: Seq<char>| #[trigger]
            expected.contains_key(name) implies counted_tags(counts@).contains(name) by {
            lemma_count_with_tag_bound(found, name);
            let at = choose|at: int|
                0 <= at < found.len() && #[trigger] found[at].tags.contains(name);
            assert(found.contains(found[at]));
            assert(found.contains(found[at]));
            lemma_carried_tag_is_known(items, selected, found[at], name);
            assert(groups.names().contains(name));
            let slot = choose|slot: int| 0 <= slot < names.len() && names[slot] == name;
            assert(tag_names(tags@).contains(name) <==> selected.contains(name));
            assert(counted[slot] == count_with_tag(found, names[slot]));
            assert(slot_counts@[slot] > 0);
        }
    }
    counts
}

/// For each slot of `groups`, how many of `podcasts` carry its tag.
pub(crate) fn counts_by_slot(groups: &TagGroups, podcasts: &Vec<&Arc<Podcast>>) -> (counts: Vec<
    usize,
>)
    requires
        groups.wf(),
        forall|name: Seq<char>|
            all_tags(views_of(podcasts@)).contains(name) ==> groups.names().contains(name),
    ensures
        counts@.len() == groups.names().len(),
        forall|slot: int|
            0 <= slot < counts@.len() ==> #[trigger] counts@[slot] == count_with_tag(
                views_of(podcasts@),
                groups.names()[slot],
            ),
{
    let ghost found = views_of(podcasts@);
    let ghost names = groups.names();
    let mut counts: Vec<usize> = Vec::new();
    let mut slot: usize = 0;
    proof {
        assert(found.take(0) =~= Seq::<PodcastView>::empty());
        reveal(Seq::filter);
    }
    while slot < groups.len()
        invariant
            slot <= names.len(),
            groups.wf(),
            names == groups.names(),
            counts@.len() == slot,
            forall|at: int| 0 <= at < slot ==> #[trigger] counts@[at] == 0,
        decreases names.len() - slot,
    {
        counts.push(0);
        slot = slot + 1;
    }
    let mut i: usize = 0;
    while i < podcasts.len()
        invariant
            i <= podcasts@.len(),
            found == views_of(podcasts@),
            groups.wf(),
            names == groups.names(),
            forall|name: Seq<char>| all_tags(found).contains(name) ==> names.contains(name),
            counts@.len() == names.len(),
            forall|at: int|
                0 <= at < names.len() ==> #[trigger] counts@[at] == count_with_tag(
                    found.take(i as int),
                    names[at],
                ),
        decreases podcasts@.len() - i,
    {
        let podcast = podcasts[i];
        let tags = podcast.get_tags();
        let ghost carried = tag_names(tags@);
        let ghost done = found.take(i as int);
        let ghost item = found[i as int];
        proof {
            assert(item == podcast@);
            assert(carried.take(0) =~= Seq::<Seq<char>>::empty());
        }
        let mut j: usize = 0;
        while j < tags.len()
            invariant
                j <= tags@.len(),
                i < podcasts@.len() <= usize::MAX,
                0 <= i < found.len(),
                item == found[i as int],
                carried == tag_names(tags@),
                carried.no_duplicates(),
                carried.to_set() == item.tags,
                done == found.take(i as int),
                groups.wf(),
                names == groups.names(),
                forall|name: Seq<char>| all_tags(found).contains(name) ==> names.contains(name),
                counts@.len() == names.len(),
                forall|at: int|
                    0 <= at < names.len() ==> #[trigger] counts@[at] == count_with_tag(
                        done,
                        names[at],
                    ) + if carried.take(j as int).contains(names[at]) {
                        1nat
                    } else {
                        0nat
                    },
            decreases tags@.len() - j,
        {
            let ghost name = carried[j as int];
            let ghost counted = carried.take(j as int);
            let ghost before = counts@;
            proof {
                assert(name == tags@[j as int]@);
                assert(carried.take(j + 1) =~= counted.push(name));
                assert(!counted.contains(name));
                assert(carried.to_set().contains(name));
                assert(found[i as int].tags.contains(name));
                assert(all_tags(found).contains(name));
                lemma_count_with_tag_bound(done, name);
            }
            match groups.slot_of(&tags[j]) {
                Some(slot) => {
                    assert(before[slot as int] == count_with_tag(done, names[slot as int]));
                    count_up(&mut counts, slot);
                },
                None => {},
            }
            proof {
                assert forall|at: int| 0 <= at < names.len() implies #[trigger] counts@[at]
                    == count_with_tag(done, names[at]) + if carried.take(j + 1).contains(
                    names[at],
                ) {
                    1nat
                } else {
                    0nat
                } by {
                    lemma_contains_push(counted, name, names[at]);
                    assert(before[at] == count_with_tag(done, names[at]) + if counted.contains(
                        names[at],
                    ) {
                        1nat
                    } else {
                        0nat
                    });
                }
            }
            j = j + 1;
        }
        proof {
            assert(carried.take(tags@.len() as int) =~= carried);
            assert(found.take(i + 1) =~= done.push(item));
            assert forall|at: int| 0 <= at < names.len() implies #[trigger] counts@[at]
                == count_with_tag(found.take(i + 1), names[at]) by {
                lemma_count_with_tag_push(done, item, names[at]);
                assert(carried.contains(names[at]) <==> carried.to_set().contains(names[at]));
            }
        }
        i = i + 1;
    }
    assert(found.take(found.len() as int) =~= found);
    counts
}

/// Sets the count of each tag in `tags` to zero.
pub(crate) fn drop_selected(groups: &TagGroups, counts: &mut Vec<usize>, tags: &Vec<PodcastTag>)
    requires
        groups.wf(),
        old(counts)@.len() == groups.names().len(),
    ensures
        final(counts)@.len() == old(counts)@.len(),
        forall|slot: int|
            0 <= slot < old(counts)@.len() ==> #[trigger] final(counts)@[slot] == if tag_names(
                tags@,
            ).contains(groups.names()[slot]) {
                0
            } else {
                old(counts)@[slot]
            },
{
    let ghost names = groups.names();
    let ghost selected = tag_names(tags@);
    let mut k: usize = 0;
    assert(selected.take(0) =~= Seq::<Seq<char>>::empty());
    while k < tags.len()
        invariant
            k <= tags@.len(),
            groups.wf(),
            names == groups.names(),
            selected == tag_names(tags@),
            counts@.len() == names.len(),
            counts@.len() == old(counts)@.len(),
            forall|slot: int|
                0 <= slot < names.len() ==> #[trigger] counts@[slot] == if selected.take(
                    k as int,
                ).contains(names[slot]) {
                    0
                } else {
                    old(counts)@[slot]
                },
        decreases tags@.len() - k,
    {
        let ghost dropped = selected.take(k as int);
        let ghost name = selected[k as int];
        let ghost before = counts@;
        assert(name == tags@[k as int]@);
        assert(selected.take(k + 1) =~= dropped.push(name));
        match groups.slot_of(&tags[k]) {
            Some(slot) => {
                counts[slot] = 0;
            },
            None => {},
        }
        proof {
            assert forall|slot: int| 0 <= slot < names.len() implies #[trigger] counts@[slot]
                == if selected.take(k + 1).contains(names[slot]) {
                0
            } else {
                old(counts)@[slot]
            } by {
                lemma_contains_push(dropped, name, names[slot]);
                assert(before[slot] == if dropped.contains(names[slot]) {
                    0
                } else {
                    old(counts)@[slot]
                });
            }
        }
        k = k + 1;
    }
    assert(selected.take(tags@.len() as int) =~= selected);
}

/// The tags whose count is not zero, each with its count, in the order of
/// the slots.
pub(crate) fn listed_counts<'a>(groups: &'a TagGroups, slot_counts: &Vec<usize>) -> (counts: Vec<
    (&'a PodcastTag, usize),
>)
    requires
        groups.wf(),
        slot_counts@.len() == groups.names().len(),
    ensures
        counted_tags(counts@).no_duplicates(),
        forall|k: int|
            0 <= k < counts@.len() ==> counted_before(
                groups.names(),
                slot_counts@,
                groups.names().len() as int,
                #[trigger] counted_tags(counts@)[k],
                counts@[k].1,
            ),
        forall|slot: int|
            0 <= slot < slot_counts@.len() && slot_counts@[slot] > 0 ==> counted_tags(
                counts@,
            ).contains(#[trigger] groups.names()[slot]),
{
    let ghost names = groups.names();
    let mut counts: Vec<(&PodcastTag, usize)> = Vec::new();
    let mut slot: usize = 0;
    while slot < groups.len()
        invariant
            slot <= names.len(),
            groups.wf(),
            names == groups.names(),
            slot_counts@.len() == names.len(),
            counted_tags(counts@).no_duplicates(),
            forall|k: int|
                0 <= k < counts@.len() ==> counted_before(
                    names,
                    slot_counts@,
                    slot as int,
                    #[trigger] counted_tags(counts@)[k],
                    counts@[k].1,
                ),
            forall|at: int|
                0 <= at < slot && slot_counts@[at] > 0 ==> counted_tags(counts@).contains(
                    #[trigger] names[at],
                ),
        decreases names.len() - slot,
    {
        let ghost listed = counts@;
        if slot_counts[slot] > 0 {
            counts.push((groups.tag_at(slot), slot_counts[slot]));
            proof {
                let name = names[slot as int];
                assert(counted_tags(counts@) =~= counted_tags(listed).push(name));
                assert forall|at: int|
                    0 <= at < slot + 1 && slot_counts@[at] > 0 implies counted_tags(
                    counts@,
                ).contains(#[trigger] names[at]) by {
                    lemma_contains_push(counted_tags(listed), name, names[at]);
                }
                assert forall|a: int, b: int|
                    0 <= a < counts@.len() && 0 <= b < counts@.len() && a != b implies counted_tags(
                    counts@,
                )[a] != counted_tags(counts@)[b] by {
                    if a < listed.len() {
                        assert(counted_tags(listed)[a] == counted_tags(counts@)[a]);
                    }
                    if b < listed.len() {
                        assert(counted_tags(listed)[b] == counted_tags(counts@)[b]);
                    }
                }
            }
        }
        proof {
            assert forall|k: int| 0 <= k < counts@.len() implies counted_before(
                names,
                slot_counts@,
                slot + 1,
                #[trigger] counted_tags(counts@)[k],
                counts@[k].1,
            ) by {
                if k < listed.len() {
                    assert(counted_tags(listed)[k] == counted_tags(counts@)[k]);
                    assert(counted_before(
                        names,
                        slot_counts@,
                        slot as int,
                        counted_tags(listed)[k],
                        listed[k].1,
                    ));
                    let at = choose|at: int|
                        0 <= at < slot && names[at] == counted_tags(listed)[k]
                            && slot_counts@[at] == listed[k].1 && listed[k].1 > 0;
                    assert(0 <= at < slot + 1 && names[at] == counted_tags(counts@)[k]
                        && slot_counts@[at] == counts@[k].1);
                } else {
                    let at = slot as int;
                    assert(0 <= at < slot + 1 && names[at] == counted_tags(counts@)[k]
                        && slot_counts@[at] == counts@[k].1);
                }
            }
        }
        slot = slot + 1;
    }
    counts
}

/// Adds one to the count in the slot `slot`.
fn count_up(counts: &mut Vec<usize>, slot: usize)
    requires
        slot < old(counts)@.len(),
        old(counts)@[slot as int] < usize::MAX,
    ensures
        final(counts)@ == old(counts)@.update(
            slot as int,
            (old(counts)@[slot as int] + 1) as usize,
        ),
{
    counts[slot] = counts[slot] + 1;
}

/// A tag on an item that carries every tag of `selected` labels an item of
/// the catalog.
proof fn lemma_carried_tag_is_known(
    items: Seq<PodcastView>,
    selected: Set<Seq<char>>,
    item: PodcastView,
    name: Seq<char>,
)
    requires
        with_all_tags(items, selected).contains(item),
        item.tags.contains(name),
    ensures
        all_tags(items).contains(name),
{
    law_tags_membership(items, selected, item);
    let at = choose|at: int| 0 <= at < items.len() && items[at] == item;
    assert(items[at].tags.contains(name));
}

} // verus!
