use podcast_index::order::number_order;
use podcast_index::Podcast;
use podcast_index::PodcastQuery;
use podcast_index::PodcastTag;
use std::cmp::Ordering;
use std::collections::HashSet;

fn tag(name: &str) -> PodcastTag {
    PodcastTag::new(name.to_string())
}

#[test]
fn podcast_keeps_its_number_and_title() {
    let podcast = Podcast::new(17, "Seventeen".to_string(), vec![tag("a")]);
    assert_eq!(*podcast.get_podcast_number(), 17);
    assert_eq!(podcast.get_title(), "Seventeen");
}

#[test]
fn podcast_keeps_each_tag_once() {
    let podcast =
        Podcast::new(1, "One".to_string(), vec![tag("a"), tag("b"), tag("a"), tag("c"), tag("b")]);
    let mut names: Vec<&str> = podcast.get_tags().iter().map(|tag| tag.name()).collect();
    names.sort();
    assert_eq!(names, vec!["a", "b", "c"]);
}

#[test]
fn podcast_may_have_no_tags() {
    let podcast = Podcast::new(1, "One".to_string(), Vec::new());
    assert!(podcast.get_tags().is_empty());
}

#[test]
fn tags_are_the_same_when_their_names_are() {
    assert!(tag("tech").same_as(&tag("tech")));
    assert!(!tag("tech").same_as(&tag("Tech")));
    assert!(!tag("tech").same_as(&tag("")));
    assert_eq!(tag("tech").clone().name(), "tech");
}

#[test]
fn query_is_made_from_its_parts() {
    let _query = PodcastQuery::new("cast".to_string(), 10, 0);
}

#[test]
fn tags_compare_and_hash_by_name() {
    assert_eq!(tag("tech"), tag("tech"));
    assert_ne!(tag("tech"), tag("news"));
    assert!(tag("news") < tag("tech"));
    let tags: HashSet<PodcastTag> = vec![tag("a"), tag("b"), tag("a")].into_iter().collect();
    assert_eq!(tags.len(), 2);
}

#[test]
fn podcasts_are_ordered_by_number() {
    let low = Podcast::new(1, "Zulu".to_string(), Vec::new());
    let high = Podcast::new(2, "Alpha".to_string(), Vec::new());
    let other = Podcast::new(2, "Other".to_string(), vec![tag("a")]);
    assert_eq!(number_order(&low, &high), Ordering::Less);
    assert_eq!(number_order(&high, &low), Ordering::Greater);
    assert_eq!(number_order(&high, &other), Ordering::Equal);
    assert_eq!(number_order(&low, &low), Ordering::Equal);
}
