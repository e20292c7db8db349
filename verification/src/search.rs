//! The text search: the podcasts whose title contains the query, letter case
//! aside, with pagination.
use crate::lemmas::lemma_select_push;
use crate::model::occurs_in;
use crate::model::select;
use crate::model::shared_views;
use crate::model::texts_of;
use crate::model::views_of;
use crate::model::window;
use crate::podcast::Podcast;
use crate::podcast::PodcastView;
use crate::text::contains;
use crate::text::lowercase;
use crate::text::to_lowercase;
use std::sync::Arc;
use vstd::prelude::*;

verus! {

/// The lowered title of each podcast of `list`, in the order of `list`.
pub(crate) fn lowered_titles(list: &Vec<Arc<Podcast>>) -> (titles: Vec<String>)
    ensures
        titles@.len() == list@.len(),
        forall|k: int|
            0 <= k < titles@.len() ==> (#[trigger] titles@[k])@ == lowercase(
                shared_views(list@)[k].title,
            ),
{
    let ghost items = shared_views(list@);
    let mut titles: Vec<String> = Vec::new();
    let mut i: usize = 0;
    while i < list.len()
        invariant
            i <= list@.len(),
            items == shared_views(list@),
            titles@.len() == i,
            forall|k: int| 0 <= k < i ==> (#[trigger] titles@[k])@ == lowercase(items[k].title),
        decreases list@.len() - i,
    {
        let title = list[i].get_title();
        titles.push(to_lowercase(title.as_str()));
        i = i + 1;
    }
    titles
}

/// The podcasts of `list` whose lowered title contains `lowered_query`, in
/// the order of `list`, without the first `skip` of them and cut off after
/// `limit`. `lowered_titles` gives the lowered title of each podcast of
/// `list`, in the same order.
pub(crate) fn page_of_matches<'a>(
    list: &'a Vec<Arc<Podcast>>,
    lowered_titles: &Vec<String>,
    lowered_query: &str,
    limit: usize,
    skip: usize,
) -> (podcasts: Vec<&'a Arc<Podcast>>)
    requires
        lowered_titles@.len() == list@.len(),
    ensures
        views_of(podcasts@) == window(
            select(shared_views(list@), occurs_in(lowered_query@, texts_of(lowered_titles@))),
            skip as nat,
            limit as nat,
        ),
{
    let ghost items = shared_views(list@);
    let ghost marks = occurs_in(lowered_query@, texts_of(lowered_titles@));
    let mut podcasts: Vec<&Arc<Podcast>> = Vec::new();
    let mut seen: usize = 0;
    let mut i: usize = 0;
    proof {
        assert(items.take(0) =~= Seq::<PodcastView>::empty());
        assert(views_of(podcasts@) =~= window(
            select(items.take(0), marks.take(0)),
            skip as nat,
            limit as nat,
        ));
    }
    while i < list.len()
        invariant
            i <= list@.len(),
            items == shared_views(list@),
            marks == occurs_in(lowered_query@, texts_of(lowered_titles@)),
            marks.len() == items.len(),
            seen == select(items.take(i as int), marks.take(i as int)).len(),
            seen <= i,
            views_of(podcasts@) == window(
                select(items.take(i as int), marks.take(i as int)),
                skip as nat,
                limit as nat,
            ),
        decreases list@.len() - i,
    {
        let ghost matched = select(items.take(i as int), marks.take(i as int));
        let ghost listed = views_of(podcasts@);
        proof {
            assert(items.take(i + 1) =~= items.take(i as int).push(items[i as int]));
            assert(marks.take(i + 1) =~= marks.take(i as int).push(marks[i as int]));
            lemma_select_push(
                items.take(i as int),
                marks.take(i as int),
                items[i as int],
                marks[i as int],
            );
        }
        if contains(lowered_titles[i].as_str(), lowered_query) {
            if seen >= skip && podcasts.len() < limit {
                podcasts.push(&list[i]);
                assert(views_of(podcasts@) =~= listed.push(items[i as int]));
            }
            seen = seen + 1;
            assert(window(matched.push(items[i as int]), skip as nat, limit as nat) =~= views_of(
                podcasts@,
            ));
        }
        i = i + 1;
    }
    proof {
        assert(items.take(items.len() as int) =~= items);
        assert(marks.take(marks.len() as int) =~= marks);
    }
    podcasts
}

} // verus!
