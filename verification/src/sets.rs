//! Sets of nodes.

use crate::subgraphs::ascending;
use std::collections::BTreeSet;
use vstd::prelude::*;
use vstd::set_lib::lemma_subset_equality;
use vstd::std_specs::btree::spec_btree_keys_iter;
use vstd::std_specs::iter::IteratorSpec;

verus! {

broadcast use vstd::std_specs::btree::group_btree_axioms;

/// The members of a set, each once.
pub(crate) fn members(set: &BTreeSet<usize>) -> (list: Vec<usize>)
    ensures
        list@.no_duplicates(),
        list@.to_set() == set@,
{
    let mut list: Vec<usize> = Vec::new();
    let ghost all = spec_btree_keys_iter(set).remaining();
    for x in it: set.iter()
        invariant
            it.seq() == all,
            list@.len() == it.index(),
            list@ == all.take(list@.len() as int).unref(),
    {
        list.push(*x);
    }
    proof {
        assert(all.take(list@.len() as int) == all);
    }
    list
}

/// Some member of a set, where it has one.
pub(crate) fn any_member(set: &BTreeSet<usize>) -> (found: Option<usize>)
    ensures
        match found {
            Some(x) => set@.contains(x),
            None => set@ == Set::<usize>::empty(),
        },
{
    let ghost all = spec_btree_keys_iter(set).remaining();
    for x in it: set.iter()
        invariant
            it.seq() == all,
            it.index() == 0,
    {
        proof {
            assert(all.unref()[0] == *x);
            assert(all.unref().to_set().contains(*x));
        }
        return Some(*x);
    }
    proof {
        assert(all.unref() =~= Seq::<usize>::empty());
        assert(all.unref().to_set() =~= Set::<usize>::empty());
    }
    None
}

/// Whether two sets have the same members.
pub(crate) fn same_members(a: &BTreeSet<usize>, b: &BTreeSet<usize>) -> (same: bool)
    requires
        a@.finite(),
        b@.finite(),
    ensures
        same == (a@ == b@),
{
    if a.len() != b.len() {
        return false;
    }
    let list = members(a);
    let mut i: usize = 0;
    while i < list.len()
        invariant
            i <= list@.len(),
            list@.to_set() == a@,
            forall|j: int| 0 <= j < i ==> b@.contains(list@[j]),
        decreases list@.len() - i,
    {
        if !b.contains(&list[i]) {
            proof {
                assert(list@.to_set().contains(list@[i as int]));
            }
            return false;
        }
        i += 1;
    }
    proof {
        assert forall|x: usize| a@.contains(x) implies b@.contains(x) by {
            assert(list@.to_set().contains(x));
        }
        lemma_subset_equality(a@, b@);
    }
    true
}

/// The members of a set that are below `n`, in ascending order.
pub(crate) fn ascending_members(set: &BTreeSet<usize>, n: usize) -> (list: Vec<usize>)
    ensures
        list@ == ascending(set@, n as nat),
{
    let mut list: Vec<usize> = Vec::new();
    let mut x: usize = 0;
    while x < n
        invariant
            x <= n,
            list@ == ascending(set@, x as nat),
        decreases n - x,
    {
        if set.contains(&x) {
            list.push(x);
        }
        x += 1;
    }
    list
}

} // verus!
