use podcast_index::podcast::PodcastTag;
use podcast_index::sets::copy_of;
use podcast_index::sets::keep_common;
use podcast_index::sets::members_of;
use podcast_index::tag_groups::TagGroups;
use std::collections::HashSet;

fn named(name: &str) -> PodcastTag {
    PodcastTag::new(name.to_string())
}

fn set_of(numbers: &[u64]) -> HashSet<u64> {
    numbers.iter().copied().collect()
}

#[test]
fn new_groups_have_no_slot() {
    let groups = TagGroups::new();
    assert_eq!(groups.len(), 0);
    assert!(groups.slot_of(&named("tech")).is_none());
    assert!(groups.get(&named("tech")).is_none());
}

#[test]
fn first_number_of_a_tag_makes_its_group() {
    let mut groups = TagGroups::new();
    groups.add(&named("tech"), 3);
    assert_eq!(groups.len(), 1);
    assert_eq!(groups.slot_of(&named("tech")), Some(0));
    assert_eq!(groups.tag_at(0).name(), "tech");
    assert_eq!(groups.get(&named("tech")), Some(&set_of(&[3])));
    assert_eq!(groups.members_at(0), &set_of(&[3]));
}

#[test]
fn later_numbers_join_the_group_of_their_tag() {
    let mut groups = TagGroups::new();
    groups.add(&named("tech"), 3);
    groups.add(&named("news"), 3);
    groups.add(&named("news"), 2);
    groups.add(&named("tech"), 1);
    groups.add(&named("tech"), 1);
    assert_eq!(groups.len(), 2);
    assert_eq!(groups.slot_of(&named("tech")), Some(0));
    assert_eq!(groups.slot_of(&named("news")), Some(1));
    assert_eq!(groups.get(&named("tech")), Some(&set_of(&[3, 1])));
    assert_eq!(groups.get(&named("news")), Some(&set_of(&[3, 2])));
    assert!(groups.get(&named("missing-tag")).is_none());
}

#[test]
fn members_are_handed_out_once_each() {
    let mut members = members_of(&set_of(&[5, 1, 9, 3]));
    members.sort();
    assert_eq!(members, vec![1, 3, 5, 9]);
    assert!(members_of(&HashSet::new()).is_empty());
}

#[test]
fn copy_has_the_same_members() {
    let numbers = set_of(&[5, 1, 9]);
    let mut copy = copy_of(&numbers);
    assert_eq!(copy, numbers);
    copy.insert(2);
    assert_eq!(numbers, set_of(&[5, 1, 9]));
}

#[test]
fn keeping_the_common_members_intersects() {
    let mut running = set_of(&[1, 2, 3, 4]);
    keep_common(&mut running, &set_of(&[2, 4, 6]));
    assert_eq!(running, set_of(&[2, 4]));
    keep_common(&mut running, &set_of(&[2, 4]));
    assert_eq!(running, set_of(&[2, 4]));
    keep_common(&mut running, &HashSet::new());
    assert!(running.is_empty());
}
