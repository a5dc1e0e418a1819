//! Sets of indices.

use std::collections::HashSet;
use vstd::prelude::*;
use vstd::std_specs::iter::IteratorSpec;

verus! {

/// A set with the same indices.
pub fn copy_indices(indices: &HashSet<usize>) -> (copy: HashSet<usize>)
    ensures
        copy@ == indices@,
{
    broadcast use vstd::std_specs::hash::group_hash_axioms;

    let mut copy: HashSet<usize> = HashSet::new();
    for index in walk: indices.iter()
        invariant
            walk.seq().unref().to_set() == indices@,
            copy@ == walk.seq().unref().take(walk.index() as int).to_set(),
            walk.index() == walk.seq().len() ==> copy@ == indices@,
    {
        let ghost keys = walk.seq().unref();
        let ghost k = walk.index() as int;
        copy.insert(*index);
        proof {
            let longer = keys.take(k + 1);
            assert(longer =~= keys.take(k).push(*index));
            assert forall|i: usize| longer.contains(i) <==> keys.take(k).contains(i) || i
                == *index by {
                if keys.take(k).contains(i) {
                    let at = keys.take(k).index_of(i);
                    assert(longer[at] == i);
                }
                assert(longer[k] == *index);
            }
            assert(copy@ =~= longer.to_set());
            assert(k + 1 == keys.len() ==> longer =~= keys);
        }
    }
    copy
}

/// Whether two sets hold the same indices.
pub fn same_indices(left: &HashSet<usize>, right: &HashSet<usize>) -> (same: bool)
    ensures
        same == (left@ == right@),
{
    broadcast use vstd::std_specs::hash::group_hash_axioms;

    if left.len() != right.len() {
        return false;
    }
    for index in walk: left.iter()
        invariant
            walk.seq().unref().to_set() == left@,
            forall|k: int|
                0 <= k < walk.index() ==> right@.contains(#[trigger] walk.seq().unref()[k]),
            walk.index() == walk.seq().len() ==> left@.subset_of(right@),
    {
        let ghost keys = walk.seq().unref();
        assert(keys[walk.index() as int] == *index);
        if !right.contains(index) {
            assert(keys.to_set().contains(*index));
            return false;
        }
        assert(walk.index() + 1 == keys.len() ==> left@.subset_of(right@)) by {
            assert forall|i: usize| left@.contains(i) && walk.index() + 1 == keys.len() implies right@.contains(i) by {
                assert(keys.contains(i));
                let at = keys.index_of(i);
                assert(keys[at] == i);
            }
        }
    }
    proof {
        let keys = right.iter().remaining().unref();
        assert(keys.to_set() == right@);
        vstd::set_lib::lemma_subset_equality(left@, right@);
    }
    true
}

} // verus!
