//! The catalog's items: a podcast with its number, title and set of tags.
use crate::lemmas::lemma_to_set_push;
use vstd::prelude::*;

verus! {

/// The unique number of a podcast; podcasts are listed from the greatest
/// number down.
pub type PodcastNumber = u64;

/// A label on a podcast. Two tags are the same tag when their names are equal.
#[derive(Debug, PartialEq, Eq, PartialOrd, Ord, Hash)]
pub struct PodcastTag {
    name: String,
}

impl View for PodcastTag {
    type V = Seq<char>;

    closed spec fn view(&self) -> Seq<char> {
        self.name@
    }
}

impl Clone for PodcastTag {
    fn clone(&self) -> (copy: Self)
        ensures
            copy@ == self@,
    {
        PodcastTag { name: self.name.clone() }
    }
}

impl PodcastTag {
    pub fn new(name: String) -> (tag: Self)
        ensures
            tag@ == name@,
    {
        PodcastTag { name }
    }

    pub fn name(&self) -> (name: &str)
        ensures
            name@ == self@,
    {
        self.name.as_str()
    }

    /// Whether `self` and `other` are the same tag.
    pub fn same_as(&self, other: &PodcastTag) -> (same: bool)
        ensures
            same == (self@ == other@),
    {
        self.name == other.name
    }
}

/// The names of a sequence of tags, in the same order.
pub open spec fn tag_names(tags: Seq<PodcastTag>) -> Seq<Seq<char>> {
    tags.map_values(|tag: PodcastTag| tag@)
}

/// The names of the tags that a sequence of references leads to, in the same
/// order.
pub open spec fn tag_names_of(tags: Seq<&PodcastTag>) -> Seq<Seq<char>> {
    tags.map_values(|tag: &PodcastTag| tag@)
}

/// What the index reads of a podcast.
pub struct PodcastView {
    pub number: PodcastNumber,
    pub title: Seq<char>,
    pub tags: Set<Seq<char>>,
}

/// A podcast of the catalog. Its tags form a set: no tag is held twice.
#[derive(Debug)]
pub struct Podcast {
    number: PodcastNumber,
    title: String,
    tags: Vec<PodcastTag>,
}

impl View for Podcast {
    type V = PodcastView;

    closed spec fn view(&self) -> PodcastView {
        PodcastView {
            number: self.number,
            title: self.title@,
            tags: tag_names(self.tags@).to_set(),
        }
    }
}

impl Podcast {
    #[verifier::type_invariant]
    spec fn tags_are_distinct(&self) -> bool {
        tag_names(self.tags@).no_duplicates()
    }

    /// Makes a podcast. A tag that occurs more than once in `tags` is kept once.
    pub fn new(number: PodcastNumber, title: String, tags: Vec<PodcastTag>) -> (podcast: Self)
        ensures
            podcast@.number == number,
            podcast@.title == title@,
            podcast@.tags == tag_names(tags@).to_set(),
    {
        let mut kept: Vec<PodcastTag> = Vec::new();
        let ghost given = tag_names(tags@);
        for tag in it: tags
            invariant
                tag_names(it.seq()) == given,
                tag_names(kept@).no_duplicates(),
                tag_names(kept@).to_set() == given.take(it.index()).to_set(),
        {
            let ghost seen = given.take(it.index());
            let ghost kept_before = tag_names(kept@);
            assert(given.take(it.index() + 1) =~= seen.push(tag@));
            match Self::position(&kept, &tag) {
                Some(at) => {
                    assert(kept_before[at as int] == tag@);
                },
                None => {
                    kept.push(tag);
                    assert(tag_names(kept@) =~= kept_before.push(tag@));
                },
            }
            proof {
                lemma_to_set_push(seen, tag@);
                lemma_to_set_push(kept_before, tag@);
                assert(kept_before.to_set().contains(tag@) <==> kept_before.contains(tag@));
                assert(tag_names(kept@).to_set() =~= seen.push(tag@).to_set());
            }
        }
        assert(given.take(given.len() as int) =~= given);
        Podcast { number, title, tags: kept }
    }

    /// The position of `tag` among `tags`, if it is one of them.
    fn position(tags: &Vec<PodcastTag>, tag: &PodcastTag) -> (found: Option<usize>)
        ensures
            match found {
                Some(at) => at < tags@.len() && tags@[at as int]@ == tag@,
                None => !tag_names(tags@).contains(tag@),
            },
    {
        let mut at: usize = 0;
        while at < tags.len()
            invariant
                at <= tags@.len(),
                forall|k: int| 0 <= k < at ==> tags@[k]@ != tag@,
            decreases tags@.len() - at,
        {
            if tags[at].same_as(tag) {
                return Some(at);
            }
            at = at + 1;
        }
        None
    }

    pub fn get_podcast_number(&self) -> (number: &PodcastNumber)
        ensures
            *number == self@.number,
    {
        &self.number
    }

    pub fn get_title(&self) -> (title: &String)
        ensures
            title@ == self@.title,
    {
        &self.title
    }

    /// The tags of the podcast, each once.
    pub fn get_tags(&self) -> (tags: &Vec<PodcastTag>)
        ensures
            tag_names(tags@).no_duplicates(),
            tag_names(tags@).to_set() == self@.tags,
    {
        proof {
            use_type_invariant(self);
        }
        &self.tags
    }
}

} // verus!
