//! The index over the catalog and the queries that it answers.
use crate::builder::descending;
use crate::builder::grouped_by_tag;
use crate::builder::indexed_by_number;
use crate::builder::looks_up;
use crate::by_tags::podcasts_with_tags;
use crate::laws::law_empty_query_matches_all;
use crate::lemmas::lemma_descending_is_distinct;
use crate::lemmas::lemma_distinct_numbers_rearranged;
use crate::lemmas::lemma_select_is_filter;
use crate::lemmas::lemma_views_to_multiset;
use crate::model::all_tags;
use crate::model::distinct_numbers;
use crate::model::has_number;
use crate::model::matching;
use crate::model::occurs_in;
use crate::model::select;
use crate::model::shared_views;
use crate::model::strictly_descending;
use crate::model::tag_counts;
use crate::model::texts_of;
use crate::model::views;
use crate::model::views_of;
use crate::model::window;
use crate::model::with_all_tags;
use crate::order::sort_by_number;
use crate::podcast::tag_names;
use crate::podcast::tag_names_of;
use crate::podcast::Podcast;
use crate::podcast::PodcastNumber;
use crate::podcast::PodcastTag;
use crate::podcast::PodcastView;
use crate::search::lowered_titles;
use crate::search::page_of_matches;
use crate::tag_counts::counts_excluding;
use crate::tag_counts::lists_counts;
use crate::tag_groups::TagGroups;
use crate::text::lowercase;
use crate::text::title_matches;
use crate::text::to_lowercase;
use std::collections::BTreeMap;
use std::sync::Arc;
use vstd::prelude::*;

verus! {

/// A text search with its pagination window.
pub struct PodcastQuery {
    query: String,
    limit: usize,
    skip: usize,
}

impl PodcastQuery {
    /// The text to look for in titles.
    pub closed spec fn text(&self) -> Seq<char> {
        self.query@
    }

    /// The greatest number of podcasts to return.
    pub closed spec fn limit(&self) -> nat {
        self.limit as nat
    }

    /// The number of matching podcasts to pass over before the first one
    /// returned.
    pub closed spec fn skip(&self) -> nat {
        self.skip as nat
    }

    pub fn new(query: String, limit: usize, skip: usize) -> (made: Self)
        ensures
            made.text() == query@,
            made.limit() == limit,
            made.skip() == skip,
    {
        Self { query, limit, skip }
    }
}

/// The index: every podcast of the catalog from the greatest number down,
/// with a lookup by number and a grouping by tag over the same podcasts.
pub struct FdrCache {
    num_sorted_podcast_list: Vec<Arc<Podcast>>,
    podcasts_by_num: BTreeMap<PodcastNumber, Arc<Podcast>>,
    podcasts_by_tag: TagGroups,
}

impl View for FdrCache {
    type V = Seq<PodcastView>;

    /// The podcasts in their canonical order.
    closed spec fn view(&self) -> Seq<PodcastView> {
        shared_views(self.num_sorted_podcast_list@)
    }
}

impl FdrCache {
    /// The three views of the index agree: the list is in strictly
    /// descending order of number, the lookup finds each podcast of the list
    /// under its number, and each tag groups the podcasts of the list that
    /// carry it.
    #[verifier::type_invariant]
    spec fn consistent(&self) -> bool {
        &&& strictly_descending(self@)
        &&& looks_up(self.podcasts_by_num@, self@)
        &&& self.podcasts_by_tag.is_grouping_of(self@)
    }

    /// Builds the index over `all_podcasts`, whose numbers must be distinct.
    pub fn new(all_podcasts: Vec<Podcast>) -> (cache: Self)
        requires
            distinct_numbers(views(all_podcasts@)),
        ensures
            cache@.len() == all_podcasts@.len(),
            cache@.to_multiset() == views(all_podcasts@).to_multiset(),
            strictly_descending(cache@),
    {
        let ghost given = all_podcasts@;
        let mut all_podcasts = all_podcasts;
        sort_by_number(&mut all_podcasts);
        let ghost sorted = all_podcasts@;
        let all_podcasts_arc = descending(all_podcasts);
        proof {
            lemma_views_to_multiset(given, sorted);
            lemma_distinct_numbers_rearranged(views(given), views(sorted));
            views(sorted).lemma_reverse_to_multiset();
            views(sorted).to_multiset_ensures();
            views(given).to_multiset_ensures();
            let items = shared_views(all_podcasts_arc@);
            assert forall|i: int, j: int| 0 <= i < j < items.len() implies items[i].number
                > items[j].number by {
                let n = sorted.len();
                assert(items[i] == views(sorted)[n - 1 - i]);
                assert(items[j] == views(sorted)[n - 1 - j]);
                assert(sorted[n - 1 - j]@.number <= sorted[n - 1 - i]@.number);
            }
            lemma_descending_is_distinct(items);
        }
        let podcasts_by_tag = grouped_by_tag(&all_podcasts_arc);
        let podcasts_by_num = indexed_by_number(&all_podcasts_arc);
        FdrCache { num_sorted_podcast_list: all_podcasts_arc, podcasts_by_num, podcasts_by_tag }
    }

    /// The podcasts whose title contains the text of `query`, letter case
    /// aside, from the greatest number down, without the first `skip` of
    /// them and cut off after `limit`. The empty text is in every title.
    pub fn query_podcasts(&self, query: PodcastQuery) -> (podcasts: Vec<&Arc<Podcast>>)
        ensures
            views_of(podcasts@) == window(
                matching(self@, query.text()),
                query.skip(),
                query.limit(),
            ),
            query.text().len() == 0 ==> views_of(podcasts@) == window(
                self@,
                query.skip(),
                query.limit(),
            ),
    {
        let ghost items = self@;
        let lowered_query = to_lowercase(query.query.as_str());
        let titles = lowered_titles(&self.num_sorted_podcast_list);
        let podcasts = self.query_lowered(
            &titles,
            lowered_query.as_str(),
            query.limit,
            query.skip,
        );
        proof {
            let marks = occurs_in(lowered_query@, texts_of(titles@));
            let matches = |item: PodcastView| title_matches(item.title, query.text());
            assert forall|k: int| 0 <= k < items.len() implies marks[k] == matches(
                #[trigger] items[k],
            ) by {
                assert(titles@[k]@ == lowercase(items[k].title));
            }
            lemma_select_is_filter(items, marks, matches);
            if query.text().len() == 0 {
                law_empty_query_matches_all(items, query.text());
            }
        }
        podcasts
    }

    /// The podcasts whose lowered title contains `lowered_query`, from the
    /// greatest number down, without the first `skip` of them and cut off
    /// after `limit`. `lowered_titles` gives the lowered title of each
    /// podcast, in the canonical order.
    pub fn query_lowered(
        &self,
        lowered_titles: &Vec<String>,
        lowered_query: &str,
        limit: usize,
        skip: usize,
    ) -> (podcasts: Vec<&Arc<Podcast>>)
        requires
            lowered_titles@.len() == self@.len(),
        ensures
            views_of(podcasts@) == window(
                select(self@, occurs_in(lowered_query@, texts_of(lowered_titles@))),
                skip as nat,
                limit as nat,
            ),
    {
        page_of_matches(&self.num_sorted_podcast_list, lowered_titles, lowered_query, limit, skip)
    }

    /// Every podcast of the catalog, from the greatest number down.
    pub fn get_all_podcasts(&self) -> (podcasts: &[Arc<Podcast>])
        ensures
            shared_views(podcasts@) == self@,
            strictly_descending(self@),
    {
        proof {
            use_type_invariant(self);
        }
        self.num_sorted_podcast_list.as_slice()
    }

    /// Every tag that labels at least one podcast, each once.
    pub fn get_all_tags(&self) -> (tags: Vec<&PodcastTag>)
        ensures
            tag_names_of(tags@).no_duplicates(),
            tag_names_of(tags@).to_set() == all_tags(self@),
    {
        proof {
            use_type_invariant(self);
        }
        let groups = &self.podcasts_by_tag;
        let mut tags: Vec<&PodcastTag> = Vec::new();
        let mut slot: usize = 0;
        while slot < groups.len()
            invariant
                groups.wf(),
                slot <= groups.names().len(),
                tag_names_of(tags@) == groups.names().take(slot as int),
            decreases groups.names().len() - slot,
        {
            let ghost listed = tag_names_of(tags@);
            let ghost name = groups.names()[slot as int];
            tags.push(groups.tag_at(slot));
            assert(tag_names_of(tags@) =~= listed.push(name));
            assert(groups.names().take(slot + 1) =~= listed.push(name));
            slot = slot + 1;
        }
        proof {
            let names = tag_names_of(tags@);
            assert(groups.names().take(groups.names().len() as int) =~= groups.names());
            assert(names.to_set() =~= all_tags(self@));
        }
        tags
    }

    /// For each tag outside `tags` that some podcast with every tag in `tags`
    /// carries, the number of those podcasts that carry it.
    pub fn get_filtered_tags_with_podcast_counts(&self, tags: Vec<PodcastTag>) -> (counts: Vec<
        (&PodcastTag, usize),
    >)
        ensures
            lists_counts(counts@, tag_counts(self@, tag_names(tags@).to_set())),
    {
        proof {
            use_type_invariant(self);
        }
        counts_excluding(&self.num_sorted_podcast_list, &self.podcasts_by_tag, &tags)
    }

    /// The podcasts that carry every tag in `tags`, from the greatest number
    /// down; every podcast where `tags` is empty.
    pub fn get_podcasts_by_tags(&self, tags: Vec<PodcastTag>) -> (podcasts: Vec<&Arc<Podcast>>)
        ensures
            views_of(podcasts@) == with_all_tags(self@, tag_names(tags@).to_set()),
    {
        proof {
            use_type_invariant(self);
        }
        podcasts_with_tags(&self.num_sorted_podcast_list, &self.podcasts_by_tag, &tags)
    }

    /// The podcast with the number `num`, if the catalog has one.
    pub fn get_podcast(&self, num: &PodcastNumber) -> (podcast: Option<&Arc<Podcast>>)
        ensures
            match podcast {
                Some(found) => self@.contains(found@) && found@.number == *num,
                None => !has_number(self@, *num),
            },
    {
        proof {
            use_type_invariant(self);
        }
        let podcast = self.podcasts_by_num.get(num);
        proof {
            if podcast is Some {
                let at = choose|at: int|
                    0 <= at < self@.len() && #[trigger] self@[at].number == *num;
                assert(self.podcasts_by_num@[self@[at].number]@ == self@[at]);
            }
        }
        podcast
    }
}

} // verus!
