//! What holds of frequency tables, whichever search made them.

use crate::subgraphs::lemma_motif_of_natural;
use crate::network::Edge;
use crate::seeded::lemma_connected_holds_arc;
use crate::seeded::seeded_sets;
use crate::subgraphs::count_in;
use crate::subgraphs::is_tally;
use crate::subgraphs::motif_of;
use crate::subgraphs::motif_sets;
use crate::subgraphs::with_motif;
use crate::subsets::count_subsets;
use crate::subsets::lemma_count_none;
use crate::subsets::lemma_count_same;
use crate::subsets::lemma_count_split;
use vstd::prelude::*;

verus! {

/// The sum of the counts that a table holds for the identities below `bound`.
pub open spec fn total_below(table: Map<u64, usize>, bound: nat) -> nat
    decreases bound,
{
    if bound == 0 {
        0
    } else {
        total_below(table, (bound - 1) as nat) + count_in(table, (bound - 1) as u64)
    }
}

/// The sum of all counts of a table.
pub open spec fn table_total(table: Map<u64, usize>) -> nat {
    total_below(table, 0x1_0000_0000_0000_0000)
}

/// The sets of `domain` whose subgraph has an identity below `bound`.
pub open spec fn with_motif_below(
    edges: Seq<Edge>,
    n: nat,
    domain: spec_fn(Set<usize>) -> bool,
    bound: nat,
) -> spec_fn(Set<usize>) -> bool {
    |t: Set<usize>| domain(t) && motif_of(edges, n, t) < bound
}

/// Two tallies of the same sets are the same table: a search run twice on
/// a network gives the same frequencies.
pub proof fn lemma_tally_unique(
    a: Map<u64, usize>,
    b: Map<u64, usize>,
    edges: Seq<Edge>,
    n: nat,
    domain: spec_fn(Set<usize>) -> bool,
)
    requires
        is_tally(a, edges, n, domain),
        is_tally(b, edges, n, domain),
    ensures
        a == b,
{
    assert forall|id: u64| a.contains_key(id) == b.contains_key(id) by {
        assert(count_in(a, id) == count_in(b, id));
    }
    assert forall|id: u64| a.contains_key(id) implies a[id] == b[id] by {
        assert(count_in(a, id) == count_in(b, id));
    }
    assert(a =~= b);
}

/// From two nodes on, the search by extension from roots and the search by
/// growth from edges give the same table.
pub proof fn lemma_searches_agree(
    by_roots: Map<u64, usize>,
    by_edges: Map<u64, usize>,
    edges: Seq<Edge>,
    n: nat,
    k: nat,
)
    requires
        k >= 2,
        is_tally(by_roots, edges, n, motif_sets(edges, n, k)),
        is_tally(by_edges, edges, n, seeded_sets(edges, n, k)),
    ensures
        by_roots == by_edges,
{
    let all = motif_sets(edges, n, k);
    let seeded = seeded_sets(edges, n, k);
    assert forall|id: u64|
        {
            let found = count_subsets(n, with_motif(edges, n, all, id));
            &&& #[trigger] count_in(by_edges, id) == found
            &&& by_edges.contains_key(id) <==> found > 0
        } by {
        let p = with_motif(edges, n, seeded, id);
        let q = with_motif(edges, n, all, id);
        assert forall|t: Set<usize>| #[trigger] p(t) == q(t) by {
            if all(t) {
                lemma_connected_holds_arc(edges, n, k, t);
            }
            assert(seeded(t) == all(t));
        }
        lemma_count_same(n, Set::empty(), p, q);
        assert(count_in(by_edges, id) == count_subsets(n, p));
    }
    assert(is_tally(by_edges, edges, n, all));
    lemma_tally_unique(by_roots, by_edges, edges, n, all);
}

/// The counts of a tally for the identities below a bound add up to the
/// number of sets whose subgraph has an identity below it.
pub proof fn lemma_total_below(
    table: Map<u64, usize>,
    edges: Seq<Edge>,
    n: nat,
    domain: spec_fn(Set<usize>) -> bool,
    bound: nat,
)
    requires
        is_tally(table, edges, n, domain),
        bound <= 0x1_0000_0000_0000_0000,
    ensures
        total_below(table, bound) == count_subsets(
            n,
            with_motif_below(edges, n, domain, bound),
        ),
    decreases bound,
{
    let r = with_motif_below(edges, n, domain, bound);
    if bound == 0 {
        assert forall|t: Set<usize>| !#[trigger] r(t) by {
            lemma_motif_of_natural(edges, n, t);
        }
        lemma_count_none(n, Set::empty(), r);
    } else {
        let last = (bound - 1) as nat;
        let p = with_motif_below(edges, n, domain, last);
        let q = with_motif(edges, n, domain, last as u64);
        lemma_total_below(table, edges, n, domain, last);
        assert forall|t: Set<usize>|
            (#[trigger] r(t) <==> p(t) || q(t)) && !(p(t) && q(t)) by {
        }
        lemma_count_split(n, Set::empty(), r, p, q);
        assert(count_in(table, last as u64) == count_subsets(n, q));
    }
}

/// The counts of the table of a network add up to the number of its
/// connected sets of `k` nodes: every such set is counted, and none twice.
pub proof fn lemma_total_counts_every_set(
    table: Map<u64, usize>,
    edges: Seq<Edge>,
    n: nat,
    k: nat,
)
    requires
        is_tally(table, edges, n, motif_sets(edges, n, k)),
        forall|t: Set<usize>| #[trigger]
            motif_sets(edges, n, k)(t) ==> motif_of(edges, n, t) <= u64::MAX,
    ensures
        table_total(table) == count_subsets(n, motif_sets(edges, n, k)),
{
    let all = motif_sets(edges, n, k);
    let bound: nat = 0x1_0000_0000_0000_0000;
    lemma_total_below(table, edges, n, all, bound);
    let p = with_motif_below(edges, n, all, bound);
    assert forall|t: Set<usize>| #[trigger] p(t) == all(t) by {
    }
    lemma_count_same(n, Set::empty(), p, all);
}

} // verus!
