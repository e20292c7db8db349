//! Operations on sets of podcast numbers.
use crate::lemmas::lemma_contains_push;
use crate::lemmas::lemma_to_set_push;
use crate::podcast::PodcastNumber;
use std::collections::HashSet;
use vstd::prelude::*;
use vstd::std_specs::hash::group_hash_axioms;
use vstd::std_specs::iter::IteratorSpec;

verus! {

broadcast use group_hash_axioms;

/// The members of `numbers`, each once, in the order in which the set hands
/// them out.
pub fn members_of(numbers: &HashSet<PodcastNumber>) -> (members: Vec<PodcastNumber>)
    ensures
        members@.to_set() == numbers@,
        members@.no_duplicates(),
{
    let mut members: Vec<PodcastNumber> = Vec::new();
    let ghost all: Seq<PodcastNumber> = numbers.iter().remaining().unref();
    for number in it: numbers.iter()
        invariant
            it.seq().unref() == all,
            members@ == all.take(it.index()),
    {
        members.push(*number);
    }
    assert(members@ == all);
    assert(numbers.iter().remaining().no_duplicates());
    members
}

/// A set with the members of `numbers`.
pub fn copy_of(numbers: &HashSet<PodcastNumber>) -> (copy: HashSet<PodcastNumber>)
    ensures
        copy@ == numbers@,
{
    let members = members_of(numbers);
    let mut copy: HashSet<PodcastNumber> = HashSet::new();
    let mut i: usize = 0;
    assert(members@.take(0) =~= Seq::<PodcastNumber>::empty());
    while i < members.len()
        invariant
            i <= members@.len(),
            copy@ == members@.take(i as int).to_set(),
        decreases members@.len() - i,
    {
        copy.insert(members[i]);
        proof {
            assert(members@.take(i + 1) =~= members@.take(i as int).push(members@[i as int]));
            lemma_to_set_push(members@.take(i as int), members@[i as int]);
        }
        i = i + 1;
    }
    assert(members@.take(members@.len() as int) =~= members@);
    copy
}

/// Removes from `running` every number that `group` does not hold.
pub fn keep_common(running: &mut HashSet<PodcastNumber>, group: &HashSet<PodcastNumber>)
    ensures
        final(running)@ == old(running)@.intersect(group@),
{
    let members = members_of(running);
    let mut to_remove: Vec<PodcastNumber> = Vec::new();
    let mut i: usize = 0;
    while i < members.len()
        invariant
            i <= members@.len(),
            forall|number: PodcastNumber| #[trigger]
                to_remove@.contains(number) <==> members@.take(i as int).contains(number)
                    && !group@.contains(number),
        decreases members@.len() - i,
    {
        let ghost before = to_remove@;
        let number = members[i];
        let ghost seen = members@.take(i as int);
        assert(members@.take(i + 1) =~= seen.push(number));
        if !group.contains(&number) {
            to_remove.push(number);
        }
        proof {
            assert forall|wanted: PodcastNumber|
                to_remove@.contains(wanted) <==> seen.push(number).contains(wanted)
                    && !group@.contains(wanted) by {
                lemma_contains_push(seen, number, wanted);
                if !group@.contains(number) {
                    lemma_contains_push(before, number, wanted);
                }
            }
        }
        i = i + 1;
    }
    assert(members@.take(members@.len() as int) =~= members@);
    let ghost start = running@;
    let mut j: usize = 0;
    while j < to_remove.len()
        invariant
            j <= to_remove@.len(),
            forall|number: PodcastNumber| #[trigger]
                running@.contains(number) <==> start.contains(number) && !to_remove@.take(
                    j as int,
                ).contains(number),
        decreases to_remove@.len() - j,
    {
        let ghost gone = to_remove@.take(j as int);
        let number = to_remove[j];
        assert(to_remove@.take(j + 1) =~= gone.push(number));
        let ghost kept = running@;
        running.remove(&number);
        proof {
            assert(running@ == kept.remove(number));
            assert forall|wanted: PodcastNumber|
                running@.contains(wanted) <==> start.contains(wanted) && !gone.push(
                    number,
                ).contains(wanted) by {
                lemma_contains_push(gone, number, wanted);
                assert(kept.contains(wanted) <==> start.contains(wanted) && !gone.contains(
                    wanted,
                ));
            }
        }
        j = j + 1;
    }
    proof {
        assert(to_remove@.take(to_remove@.len() as int) =~= to_remove@);
        assert forall|number: PodcastNumber|
            running@.contains(number) <==> start.intersect(group@).contains(number) by {
            assert(members@.to_set().contains(number) <==> members@.contains(number));
        }
        assert(running@ =~= start.intersect(group@));
    }
}

} // verus!
