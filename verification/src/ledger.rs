//! The ledger of the search that grows sets from edges: the sets of nodes
//! met so far, each held once.

use crate::sets::same_members;
use std::collections::BTreeSet;
use vstd::prelude::*;

verus! {

/// A set of sets of nodes.
pub struct Ledger {
    sets: Vec<BTreeSet<usize>>,
}

impl View for Ledger {
    type V = Set<Set<usize>>;

    closed spec fn view(&self) -> Set<Set<usize>> {
        Set::new(|t: Set<usize>| exists|i: int| 0 <= i < self.sets@.len() && self.sets@[i]@ == t)
    }
}

impl Ledger {
    /// Every set held is finite, and none is held twice.
    pub closed spec fn wf(&self) -> bool {
        &&& forall|i: int| 0 <= i < self.sets@.len() ==> (#[trigger] self.sets@[i])@.finite()
        &&& forall|i: int, j: int|
            0 <= i < j < self.sets@.len() ==> (#[trigger] self.sets@[i])@ != (
            #[trigger] self.sets@[j])@
    }

    /// A ledger without sets.
    pub fn new() -> (ledger: Ledger)
        ensures
            ledger.wf(),
            ledger@ == Set::<Set<usize>>::empty(),
    {
        let ledger = Ledger { sets: Vec::new() };
        proof {
            assert(ledger@ =~= Set::<Set<usize>>::empty());
        }
        ledger
    }

    /// Whether the ledger holds the set.
    pub fn contains(&self, set: &BTreeSet<usize>) -> (held: bool)
        requires
            self.wf(),
            set@.finite(),
        ensures
            held == self@.contains(set@),
    {
        let mut i: usize = 0;
        while i < self.sets.len()
            invariant
                i <= self.sets@.len(),
                self.wf(),
                set@.finite(),
                forall|j: int| 0 <= j < i ==> (#[trigger] self.sets@[j])@ != set@,
            decreases self.sets@.len() - i,
        {
            if same_members(&self.sets[i], set) {
                return true;
            }
            i += 1;
        }
        false
    }

    /// Enters the set, where the ledger does not hold it yet.
    pub fn insert(&mut self, set: BTreeSet<usize>) -> (fresh: bool)
        requires
            old(self).wf(),
            set@.finite(),
        ensures
            final(self).wf(),
            final(self)@ == old(self)@.insert(set@),
            fresh == !old(self)@.contains(set@),
    {
        if self.contains(&set) {
            proof {
                assert(self@ =~= self@.insert(set@));
            }
            return false;
        }
        let ghost before = self.sets@;
        let ghost held = self@;
        let ghost entered = set@;
        self.sets.push(set);
        proof {
            assert forall|t: Set<usize>| self@.contains(t) <==> held.insert(entered).contains(
                t,
            ) by {
                if held.contains(t) {
                    let i = choose|i: int| 0 <= i < before.len() && before[i]@ == t;
                    assert(self.sets@[i]@ == t);
                }
                if t == entered {
                    assert(self.sets@[before.len() as int]@ == t);
                }
                if self@.contains(t) {
                    let i = choose|i: int| 0 <= i < self.sets@.len() && self.sets@[i]@ == t;
                    if i < before.len() {
                        assert(before[i]@ == t);
                    }
                }
            }
            assert(self@ =~= held.insert(entered));
            assert forall|i: int, j: int| 0 <= i < j < self.sets@.len() implies (
            #[trigger] self.sets@[i])@ != (#[trigger] self.sets@[j])@ by {
                if j < before.len() {
                    assert(before[i]@ != before[j]@);
                } else {
                    assert(before[i]@ != entered);
                }
            }
        }
        true
    }
}

} // verus!
