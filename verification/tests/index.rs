use podcast_index::builder::have_distinct_numbers;
use podcast_index::FdrCache;
use podcast_index::Podcast;
use podcast_index::PodcastQuery;
use podcast_index::PodcastTag;
use std::sync::Arc;

fn tag(name: &str) -> PodcastTag {
    PodcastTag::new(name.to_string())
}

fn podcast(number: u64, title: &str, tags: &[&str]) -> Podcast {
    Podcast::new(number, title.to_string(), tags.iter().map(|name| tag(name)).collect())
}

fn catalog() -> Vec<Podcast> {
    vec![
        podcast(3, "Alpha Show", &["tech", "news"]),
        podcast(1, "Beta Cast", &["tech"]),
        podcast(2, "Gamma Talk", &["news"]),
    ]
}

fn numbers(podcasts: &[&Arc<Podcast>]) -> Vec<u64> {
    podcasts.iter().map(|podcast| *podcast.get_podcast_number()).collect()
}

fn search(cache: &FdrCache, text: &str, limit: usize, skip: usize) -> Vec<u64> {
    numbers(&cache.query_podcasts(PodcastQuery::new(text.to_string(), limit, skip)))
}

fn by_tags(cache: &FdrCache, tags: &[&str]) -> Vec<u64> {
    numbers(&cache.get_podcasts_by_tags(tags.iter().map(|name| tag(name)).collect()))
}

fn counts(cache: &FdrCache, tags: &[&str]) -> Vec<(String, usize)> {
    let mut counts: Vec<(String, usize)> = cache
        .get_filtered_tags_with_podcast_counts(tags.iter().map(|name| tag(name)).collect())
        .iter()
        .map(|(tag, count)| (tag.name().to_string(), *count))
        .collect();
    counts.sort();
    counts
}

#[test]
fn all_podcasts_come_in_descending_order() {
    let cache = FdrCache::new(catalog());
    let all: Vec<u64> =
        cache.get_all_podcasts().iter().map(|podcast| *podcast.get_podcast_number()).collect();
    assert_eq!(all, vec![3, 2, 1]);
}

#[test]
fn listing_has_one_entry_per_loaded_podcast() {
    let mut loaded = Vec::new();
    for number in [7u64, 42, 1, 19, 8, 23, 5] {
        loaded.push(podcast(number, "Episode", &[]));
    }
    let cache = FdrCache::new(loaded);
    let all: Vec<u64> =
        cache.get_all_podcasts().iter().map(|podcast| *podcast.get_podcast_number()).collect();
    assert_eq!(all, vec![42, 23, 19, 8, 7, 5, 1]);
}

#[test]
fn empty_catalog_answers_every_query_with_nothing() {
    let cache = FdrCache::new(Vec::new());
    assert!(cache.get_all_podcasts().is_empty());
    assert!(cache.get_all_tags().is_empty());
    assert!(cache.get_podcast(&1).is_none());
    assert_eq!(by_tags(&cache, &[]), Vec::<u64>::new());
    assert_eq!(by_tags(&cache, &["tech"]), Vec::<u64>::new());
    assert_eq!(search(&cache, "", 10, 0), Vec::<u64>::new());
    assert_eq!(counts(&cache, &[]), Vec::<(String, usize)>::new());
}

#[test]
fn single_tag_selects_its_carriers() {
    let cache = FdrCache::new(catalog());
    assert_eq!(by_tags(&cache, &["tech"]), vec![3, 1]);
    assert_eq!(by_tags(&cache, &["news"]), vec![3, 2]);
}

#[test]
fn several_tags_select_the_podcasts_with_all_of_them() {
    let cache = FdrCache::new(catalog());
    assert_eq!(by_tags(&cache, &["tech", "news"]), vec![3]);
    assert_eq!(by_tags(&cache, &["news", "tech"]), vec![3]);
}

#[test]
fn missing_tag_selects_nothing() {
    let cache = FdrCache::new(catalog());
    assert_eq!(by_tags(&cache, &["missing-tag"]), Vec::<u64>::new());
    assert_eq!(by_tags(&cache, &["tech", "missing-tag"]), Vec::<u64>::new());
    assert_eq!(by_tags(&cache, &["missing-tag", "tech"]), Vec::<u64>::new());
}

#[test]
fn no_tags_select_every_podcast_in_order() {
    let cache = FdrCache::new(catalog());
    assert_eq!(by_tags(&cache, &[]), vec![3, 2, 1]);
}

#[test]
fn repeated_tags_change_nothing() {
    let cache = FdrCache::new(catalog());
    assert_eq!(by_tags(&cache, &["tech", "tech"]), vec![3, 1]);
    assert_eq!(by_tags(&cache, &["news", "tech", "news"]), vec![3]);
}

#[test]
fn more_tags_never_add_podcasts() {
    let cache = FdrCache::new(catalog());
    let fewer = by_tags(&cache, &["tech"]);
    let more = by_tags(&cache, &["tech", "news"]);
    assert!(more.iter().all(|number| fewer.contains(number)));
    assert!(more.len() <= fewer.len());
}

#[test]
fn tags_are_matched_by_exact_name() {
    let cache = FdrCache::new(catalog());
    assert_eq!(by_tags(&cache, &["Tech"]), Vec::<u64>::new());
    assert_eq!(by_tags(&cache, &["tec"]), Vec::<u64>::new());
}

#[test]
fn all_tags_lists_each_tag_once() {
    let cache = FdrCache::new(catalog());
    let mut tags: Vec<String> =
        cache.get_all_tags().iter().map(|tag| tag.name().to_string()).collect();
    tags.sort();
    assert_eq!(tags, vec!["news".to_string(), "tech".to_string()]);
}

#[test]
fn all_tags_leave_out_no_tag_of_any_podcast() {
    let cache = FdrCache::new(vec![
        podcast(1, "One", &["c", "a"]),
        podcast(2, "Two", &["b", "a"]),
        podcast(3, "Three", &[]),
    ]);
    let mut tags: Vec<String> =
        cache.get_all_tags().iter().map(|tag| tag.name().to_string()).collect();
    tags.sort();
    assert_eq!(tags, vec!["a".to_string(), "b".to_string(), "c".to_string()]);
}

#[test]
fn tag_counts_leave_out_the_selected_tags() {
    let cache = FdrCache::new(catalog());
    assert_eq!(counts(&cache, &["tech"]), vec![("news".to_string(), 1)]);
    assert_eq!(counts(&cache, &["news"]), vec![("tech".to_string(), 1)]);
    assert_eq!(counts(&cache, &["tech", "news"]), Vec::<(String, usize)>::new());
}

#[test]
fn tag_counts_without_selection_count_the_whole_catalog() {
    let cache = FdrCache::new(catalog());
    assert_eq!(counts(&cache, &[]), vec![("news".to_string(), 2), ("tech".to_string(), 2)]);
}

#[test]
fn tag_counts_for_a_missing_tag_are_empty() {
    let cache = FdrCache::new(catalog());
    assert_eq!(counts(&cache, &["missing-tag"]), Vec::<(String, usize)>::new());
}

#[test]
fn tag_counts_reflect_the_filtered_podcasts_only() {
    let cache = FdrCache::new(vec![
        podcast(1, "One", &["a", "b", "c"]),
        podcast(2, "Two", &["a", "b"]),
        podcast(3, "Three", &["a"]),
        podcast(4, "Four", &["b", "c"]),
    ]);
    assert_eq!(counts(&cache, &["a"]), vec![("b".to_string(), 2), ("c".to_string(), 1)]);
    assert_eq!(counts(&cache, &["a", "b"]), vec![("c".to_string(), 1)]);
}

#[test]
fn search_finds_a_title_by_a_part_of_it() {
    let cache = FdrCache::new(catalog());
    assert_eq!(search(&cache, "cast", 10, 0), vec![1]);
}

#[test]
fn search_ignores_letter_case() {
    let cache = FdrCache::new(catalog());
    assert_eq!(search(&cache, "CAST", 10, 0), vec![1]);
    assert_eq!(search(&cache, "aLpHa sHoW", 10, 0), vec![3]);
    assert_eq!(search(&cache, "A", 10, 0), vec![3, 2, 1]);
}

#[test]
fn search_without_a_match_is_empty() {
    let cache = FdrCache::new(catalog());
    assert_eq!(search(&cache, "delta", 10, 0), Vec::<u64>::new());
    assert_eq!(search(&cache, "castt", 10, 0), Vec::<u64>::new());
}

#[test]
fn empty_search_returns_the_first_podcasts() {
    let cache = FdrCache::new(catalog());
    assert_eq!(search(&cache, "", 2, 0), vec![3, 2]);
    assert_eq!(search(&cache, "", 3, 0), vec![3, 2, 1]);
    assert_eq!(search(&cache, "", 10, 0), vec![3, 2, 1]);
    assert_eq!(search(&cache, "", 0, 0), Vec::<u64>::new());
}

#[test]
fn search_window_is_a_run_of_the_matches() {
    let cache = FdrCache::new(vec![
        podcast(1, "Talk one", &[]),
        podcast(2, "Other", &[]),
        podcast(3, "Talk three", &[]),
        podcast(4, "talk four", &[]),
        podcast(5, "Else", &[]),
        podcast(6, "TALK six", &[]),
    ]);
    assert_eq!(search(&cache, "talk", 10, 0), vec![6, 4, 3, 1]);
    assert_eq!(search(&cache, "talk", 2, 0), vec![6, 4]);
    assert_eq!(search(&cache, "talk", 2, 1), vec![4, 3]);
    assert_eq!(search(&cache, "talk", 2, 3), vec![1]);
    assert_eq!(search(&cache, "talk", 2, 4), Vec::<u64>::new());
    assert_eq!(search(&cache, "talk", 0, 1), Vec::<u64>::new());
    assert_eq!(search(&cache, "talk", usize::MAX, usize::MAX), Vec::<u64>::new());
    assert_eq!(search(&cache, "talk", usize::MAX, 1), vec![4, 3, 1]);
}

#[test]
fn search_on_lowered_titles_matches_them_as_given() {
    let cache = FdrCache::new(catalog());
    let lowered =
        vec!["alpha show".to_string(), "gamma talk".to_string(), "beta cast".to_string()];
    assert_eq!(numbers(&cache.query_lowered(&lowered, "cast", 10, 0)), vec![1]);
    assert_eq!(numbers(&cache.query_lowered(&lowered, "a ", 10, 0)), vec![3, 2, 1]);
    assert_eq!(numbers(&cache.query_lowered(&lowered, "a ", 1, 1)), vec![2]);
    assert_eq!(numbers(&cache.query_lowered(&lowered, "Cast", 10, 0)), Vec::<u64>::new());
    assert_eq!(numbers(&cache.query_lowered(&lowered, "", 2, 0)), vec![3, 2]);
}

#[test]
fn lookup_finds_each_podcast_by_its_number() {
    let cache = FdrCache::new(catalog());
    assert_eq!(cache.get_podcast(&1).map(|found| found.get_title().as_str()), Some("Beta Cast"));
    assert_eq!(cache.get_podcast(&2).map(|found| found.get_title().as_str()), Some("Gamma Talk"));
    assert_eq!(cache.get_podcast(&3).map(|found| found.get_title().as_str()), Some("Alpha Show"));
    assert_eq!(cache.get_podcast(&3).map(|found| *found.get_podcast_number()), Some(3));
}

#[test]
fn lookup_of_an_unknown_number_finds_nothing() {
    let cache = FdrCache::new(catalog());
    assert!(cache.get_podcast(&0).is_none());
    assert!(cache.get_podcast(&4).is_none());
    assert!(cache.get_podcast(&u64::MAX).is_none());
}

#[test]
fn lookup_and_listing_share_the_podcasts() {
    let cache = FdrCache::new(catalog());
    let listed = &cache.get_all_podcasts()[0];
    let found = cache.get_podcast(&3).unwrap();
    assert!(Arc::ptr_eq(listed, found));
}

#[test]
fn distinct_numbers_are_recognised() {
    assert!(have_distinct_numbers(&catalog()));
    assert!(have_distinct_numbers(&Vec::new()));
    let mut twice = catalog();
    twice.push(podcast(2, "Gamma Again", &[]));
    assert!(!have_distinct_numbers(&twice));
}

#[test]
fn unsorted_catalog_is_listed_from_the_greatest_number_down() {
    let cache = FdrCache::new(vec![
        podcast(10, "Ten", &[]),
        podcast(300, "Three hundred", &[]),
        podcast(2, "Two", &[]),
        podcast(u64::MAX, "Last", &[]),
        podcast(0, "Zero", &[]),
    ]);
    let all: Vec<u64> =
        cache.get_all_podcasts().iter().map(|podcast| *podcast.get_podcast_number()).collect();
    assert_eq!(all, vec![u64::MAX, 300, 10, 2, 0]);
    assert_eq!(search(&cache, "t", 2, 1), vec![300, 10]);
}

#[test]
fn tag_count_equals_the_size_of_the_refined_selection() {
    let cache = FdrCache::new(vec![
        podcast(1, "One", &["a", "b", "c"]),
        podcast(2, "Two", &["a", "b"]),
        podcast(3, "Three", &["a"]),
        podcast(4, "Four", &["b", "c"]),
    ]);
    for (name, count) in counts(&cache, &["a"]) {
        assert_eq!(by_tags(&cache, &["a", name.as_str()]).len(), count);
    }
}
