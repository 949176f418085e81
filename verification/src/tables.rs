//! Frequency tables read in the order of their identities.

use std::cmp::Ordering;
use std::collections::BTreeMap;
use vstd::prelude::*;
use vstd::std_specs::btree::axiom_increasing_seq_meaning;
use vstd::std_specs::btree::increasing_seq;
use vstd::std_specs::btree::spec_keys_iter;
use vstd::std_specs::cmp::OrdSpec;
use vstd::std_specs::iter::IteratorSpec;

verus! {

broadcast use {vstd::std_specs::btree::group_btree_axioms, vstd::laws_cmp::group_laws_cmp};

/// The identities of a table, in ascending order.
pub fn identities(table: &BTreeMap<u64, usize>) -> (list: Vec<u64>)
    ensures
        list@.to_set() == table@.dom(),
        forall|i: int, j: int| 0 <= i < j < list@.len() ==> list@[i] < list@[j],
{
    let mut list: Vec<u64> = Vec::new();
    let ghost all = spec_keys_iter(table).remaining();
    let ghost mut read: int = 0;
    for key in it: table.keys()
        invariant
            it.seq() == all,
            read == it.index(),
            list@ == all.take(read).unref(),
    {
        list.push(*key);
        proof {
            read = read + 1;
        }
    }
    proof {
        assert(all.take(read) == all);
        assert(increasing_seq(all));
        assert(vstd::laws_cmp::obeys_cmp::<u64>());
        assert(vstd::laws_cmp::obeys_cmp::<&u64>());
        axiom_increasing_seq_meaning::<&u64>(all);
        assert forall|i: int, j: int| 0 <= i < j < list@.len() implies list@[i] < list@[j] by {
            assert(all[i] == &list@[i]);
            assert(all[j] == &list@[j]);
            assert(OrdSpec::cmp_spec(&all[i], &all[j]) == Ordering::Less);
        }
    }
    list
}

} // verus!
