//! The grouping of podcast numbers by tag.
//!
//! A tag gets a slot when the first podcast that carries it is added, so a
//! tag without podcasts never has one. The slots are numbered in the order in
//! which the tags were first seen.
use crate::model::all_tags;
use crate::model::numbers_with_tag;
use crate::podcast::tag_names;
use crate::podcast::PodcastNumber;
use crate::podcast::PodcastTag;
use crate::podcast::PodcastView;
use std::collections::HashSet;
use vstd::hash_map::StringHashMap;
use vstd::prelude::*;
use vstd::std_specs::hash::group_hash_axioms;

verus! {

broadcast use group_hash_axioms;

/// For each tag, the numbers of the podcasts that carry it.
pub struct TagGroups {
    tags: Vec<PodcastTag>,
    slots: StringHashMap<usize>,
    members: Vec<HashSet<PodcastNumber>>,
}

impl TagGroups {
    /// The names of the tags, by slot.
    pub closed spec fn names(&self) -> Seq<Seq<char>> {
        tag_names(self.tags@)
    }

    /// The numbers grouped in the slot `slot`.
    pub closed spec fn members(&self, slot: int) -> Set<PodcastNumber> {
        self.members@[slot]@
    }

    /// Whether the lookup from names to slots agrees with the slots.
    pub closed spec fn slots_agree(&self) -> bool {
        &&& self.members@.len() == self.tags@.len()
        &&& forall|slot: int|
            0 <= slot < self.tags@.len() ==> self.slots@.contains_key(
                #[trigger] tag_names(self.tags@)[slot],
            ) && self.slots@[tag_names(self.tags@)[slot]] == slot
        &&& forall|name: Seq<char>| #[trigger]
            self.slots@.contains_key(name) ==> self.slots@[name] < self.tags@.len() && tag_names(
                self.tags@,
            )[self.slots@[name] as int] == name
    }

    /// Whether each tag has one slot and the lookup finds it there.
    pub open spec fn wf(&self) -> bool {
        &&& self.names().no_duplicates()
        &&& self.slots_agree()
    }

    /// The numbers grouped under the tag `name`; none where the tag has no
    /// slot.
    pub open spec fn group(&self, name: Seq<char>) -> Set<PodcastNumber> {
        if self.names().contains(name) {
            self.members(self.names().index_of(name))
        } else {
            Set::empty()
        }
    }

    /// Whether the groups are those of `items`: a slot for each tag that
    /// labels one of them and for no other tag, with the numbers of the items
    /// that carry the tag.
    pub open spec fn is_grouping_of(&self, items: Seq<PodcastView>) -> bool {
        &&& self.wf()
        &&& forall|name: Seq<char>| #[trigger]
            self.names().contains(name) <==> all_tags(items).contains(name)
        &&& forall|name: Seq<char>| #[trigger] self.group(name) == numbers_with_tag(items, name)
    }

    /// Groups without any tag.
    pub fn new() -> (groups: Self)
        ensures
            groups.wf(),
            groups.names() == Seq::<Seq<char>>::empty(),
    {
        let groups = TagGroups {
            tags: Vec::new(),
            slots: StringHashMap::new(),
            members: Vec::new(),
        };
        assert(groups.names() =~= Seq::<Seq<char>>::empty());
        groups
    }

    /// The number of slots.
    pub fn len(&self) -> (len: usize)
        requires
            self.wf(),
        ensures
            len == self.names().len(),
    {
        self.tags.len()
    }

    /// The slot of `tag`, if it has one.
    pub fn slot_of(&self, tag: &PodcastTag) -> (slot: Option<usize>)
        requires
            self.wf(),
        ensures
            match slot {
                Some(at) => at < self.names().len() && self.names()[at as int] == tag@,
                None => !self.names().contains(tag@),
            },
    {
        match self.slots.get(tag.name()) {
            Some(at) => Some(*at),
            None => None,
        }
    }

    /// The tag in the slot `slot`.
    pub fn tag_at(&self, slot: usize) -> (tag: &PodcastTag)
        requires
            self.wf(),
            slot < self.names().len(),
        ensures
            tag@ == self.names()[slot as int],
    {
        &self.tags[slot]
    }

    /// The numbers grouped in the slot `slot`.
    pub fn members_at(&self, slot: usize) -> (group: &HashSet<PodcastNumber>)
        requires
            self.wf(),
            slot < self.names().len(),
        ensures
            group@ == self.members(slot as int),
    {
        &self.members[slot]
    }

    /// The numbers grouped under `tag`, if it has a slot.
    pub fn get(&self, tag: &PodcastTag) -> (group: Option<&HashSet<PodcastNumber>>)
        requires
            self.wf(),
        ensures
            match group {
                Some(numbers) => self.names().contains(tag@) && numbers@ == self.group(tag@),
                None => !self.names().contains(tag@),
            },
    {
        match self.slot_of(tag) {
            Some(at) => {
                proof {
                    self.lemma_slot_of_name(at as int);
                }
                Some(&self.members[at])
            },
            None => None,
        }
    }

    /// Adds `number` to the group of `tag`, which gets a slot if it had none.
    pub fn add(&mut self, tag: &PodcastTag, number: PodcastNumber)
        requires
            old(self).wf(),
        ensures
            final(self).wf(),
            final(self).names() == if old(self).names().contains(tag@) {
                old(self).names()
            } else {
                old(self).names().push(tag@)
            },
            forall|name: Seq<char>|
                #[trigger] final(self).group(name) == if name == tag@ {
                    old(self).group(name).insert(number)
                } else {
                    old(self).group(name)
                },
    {
        let ghost before = *self;
        match self.slots.get(tag.name()) {
            Some(at) => {
                let at = *at;
                self.members[at].insert(number);
                proof {
                    assert forall|name: Seq<char>|
                        #[trigger] self.group(name) == if name == tag@ {
                            before.group(name).insert(number)
                        } else {
                            before.group(name)
                        } by {
                        if self.names().contains(name) {
                            let slot = self.names().index_of(name);
                            before.lemma_slot_of_name(at as int);
                        }
                    }
                }
            },
            None => {
                let at = self.tags.len();
                self.slots.insert(tag.name().to_owned(), at);
                self.tags.push(tag.clone());
                let mut group: HashSet<PodcastNumber> = HashSet::new();
                group.insert(number);
                self.members.push(group);
                proof {
                    assert(self.names() =~= before.names().push(tag@));
                    assert forall|slot: int|
                        0 <= slot < self.tags@.len() implies self.slots@.contains_key(
                        #[trigger] tag_names(self.tags@)[slot],
                    ) && self.slots@[tag_names(self.tags@)[slot]] == slot by {
                        if slot < at {
                            assert(tag_names(before.tags@)[slot] == tag_names(self.tags@)[slot]);
                        }
                    }
                    assert forall|name: Seq<char>|
                        #[trigger] self.group(name) == if name == tag@ {
                            before.group(name).insert(number)
                        } else {
                            before.group(name)
                        } by {
                        if name == tag@ {
                            self.lemma_slot_of_name(at as int);
                            assert(self.members(at as int) =~= Set::<PodcastNumber>::empty().insert(
                                number,
                            ));
                        } else if self.names().contains(name) {
                            let slot = self.names().index_of(name);
                            assert(before.names()[slot] == name);
                            before.lemma_slot_of_name(slot);
                        } else if before.names().contains(name) {
                            let slot = before.names().index_of(name);
                            assert(self.names()[slot] == name);
                        }
                    }
                }
            },
        }
    }

    /// A name that stands in a slot is found in that slot.
    pub proof fn lemma_slot_of_name(&self, slot: int)
        requires
            self.names().no_duplicates(),
            0 <= slot < self.names().len(),
        ensures
            self.names().contains(self.names()[slot]),
            self.names().index_of(self.names()[slot]) == slot,
            self.group(self.names()[slot]) == self.members(slot),
    {
    }
}

} // verus!
