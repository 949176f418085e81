//! The search for connected sets by growth from edges.
//!
//! Every edge is a seed, the set of its two ends. A set grows by a
//! neighbour of one of its nodes, and a ledger of the sets met keeps a set
//! from being grown twice. The sets of `k` nodes that are met are the
//! connected sets of `k` nodes that hold an edge.

use crate::network::adjacent;
use crate::network::arc;
use crate::network::Edge;
use crate::subgraphs::connected;
use crate::subgraphs::inhabited;
use crate::subgraphs::is_motif_set;
use crate::subgraphs::lemma_connected_reaches_out;
use crate::subgraphs::lemma_grown_connected;
use crate::subgraphs::lemma_single_connected;
use crate::subgraphs::count_in;
use crate::subgraphs::is_tally;
use crate::subgraphs::motif_of;
use crate::subgraphs::with_motif;
use crate::subsets::below;
use crate::subsets::count_subsets;
use crate::subsets::lemma_count_monotone;
use crate::subsets::lemma_count_none;
use crate::subsets::lemma_count_one;
use crate::subsets::lemma_count_same;
use crate::subsets::lemma_count_split;
use vstd::prelude::*;

verus! {

/// Some edge runs between nodes of the set, or from a node of it to itself.
pub open spec fn holds_arc(edges: Seq<Edge>, set: Set<usize>) -> bool {
    exists|a: usize, b: usize| set.contains(a) && set.contains(b) && #[trigger] arc(edges, a, b)
}

/// What grows from a seed: a finite connected set of nodes that holds an edge.
pub open spec fn is_grown_seed(edges: Seq<Edge>, n: nat, set: Set<usize>) -> bool {
    &&& below(set, n)
    &&& set.finite()
    &&& connected(edges, set)
    &&& holds_arc(edges, set)
}

/// The connected sets of `k` nodes that hold an edge.
pub open spec fn seeded_sets(edges: Seq<Edge>, n: nat, k: nat) -> spec_fn(Set<usize>) -> bool {
    |t: Set<usize>| is_motif_set(edges, n, k, t) && holds_arc(edges, t)
}

/// Every set of the ledger grew from a seed and has at most `k` nodes.
pub open spec fn ledger_sound(hash: Set<Set<usize>>, edges: Seq<Edge>, n: nat, k: nat) -> bool {
    forall|x: Set<usize>| #[trigger] hash.contains(x) ==> is_grown_seed(edges, n, x) && x.len() <= k
}

/// The ledger holds every set that `x` grows to by one node.
pub open spec fn closed_in(hash: Set<Set<usize>>, edges: Seq<Edge>, x: Set<usize>) -> bool {
    forall|u: usize, y: usize|
        x.contains(u) && !x.contains(y) && #[trigger] adjacent(edges, u, y) ==> hash.contains(
            x.insert(y),
        )
}

/// Every set of the ledger with fewer than `k` nodes, but for those still
/// `pending`, has been grown by every node it can grow by.
pub open spec fn ledger_closed(
    hash: Set<Set<usize>>,
    pending: Set<Set<usize>>,
    edges: Seq<Edge>,
    k: nat,
) -> bool {
    forall|x: Set<usize>|
        #[trigger] hash.contains(x) && x.len() < k && !pending.contains(x) ==> closed_in(
            hash,
            edges,
            x,
        )
}

/// The sets of `k` nodes of the ledger.
pub open spec fn ledger_full(hash: Set<Set<usize>>, k: nat) -> spec_fn(Set<usize>) -> bool {
    |t: Set<usize>| hash.contains(t) && t.len() == k
}

/// The two ends of an edge are a seed.
pub proof fn lemma_seed(edges: Seq<Edge>, n: nat, i: int)
    requires
        0 <= i < edges.len(),
        edges[i].0 < n,
        edges[i].1 < n,
    ensures
        is_grown_seed(edges, n, set![edges[i].0, edges[i].1]),
{
    let a = edges[i].0;
    let b = edges[i].1;
    assert(arc(edges, a, b));
    lemma_single_connected(edges, a);
    lemma_grown_connected(edges, set![a], a, b);
    assert(set![a].insert(b) =~= set![a, b]);
    assert(set![a, b].contains(a) && set![a, b].contains(b));
}

/// A set grown from a seed by a neighbour of one of its nodes grew from
/// that seed.
pub proof fn lemma_seed_grows(edges: Seq<Edge>, n: nat, set: Set<usize>, u: usize, y: usize)
    requires
        is_grown_seed(edges, n, set),
        set.contains(u),
        adjacent(edges, u, y),
        y < n,
    ensures
        is_grown_seed(edges, n, set.insert(y)),
{
    lemma_grown_connected(edges, set, u, y);
    let (a, b) = choose|a: usize, b: usize|
        set.contains(a) && set.contains(b) && #[trigger] arc(edges, a, b);
    assert(set.insert(y).contains(a) && set.insert(y).contains(b));
}

/// A ledger that is closed holds every connected set of `k` nodes that
/// holds a set of the ledger.
pub proof fn lemma_ledger_reaches(
    hash: Set<Set<usize>>,
    edges: Seq<Edge>,
    n: nat,
    k: nat,
    x: Set<usize>,
    t: Set<usize>,
)
    requires
        ledger_sound(hash, edges, n, k),
        ledger_closed(hash, Set::empty(), edges, k),
        hash.contains(x),
        x.subset_of(t),
        is_motif_set(edges, n, k, t),
    ensures
        hash.contains(t),
    decreases k - x.len(),
{
    if x =~= t {
    } else {
        assert(inhabited(x));
        let (a, b) = lemma_connected_reaches_out(edges, t, x);
        x.lemma_subset_not_in_lt(t, b);
        assert(closed_in(hash, edges, x));
        lemma_ledger_reaches(hash, edges, n, k, x.insert(b), t);
    }
}

/// A closed ledger that holds the seed of every edge, where the seed has
/// at most `k` nodes, holds as its sets of `k` nodes the connected sets of
/// `k` nodes that hold an edge.
pub proof fn lemma_ledger_complete(hash: Set<Set<usize>>, edges: Seq<Edge>, n: nat, k: nat)
    requires
        ledger_sound(hash, edges, n, k),
        ledger_closed(hash, Set::empty(), edges, k),
        forall|i: int|
            0 <= i < edges.len() && set![(#[trigger] edges[i]).0, edges[i].1].len() <= k
                ==> hash.contains(set![edges[i].0, edges[i].1]),
    ensures
        forall|t: Set<usize>| #[trigger] ledger_full(hash, k)(t) <==> seeded_sets(edges, n, k)(t),
{
    let full = ledger_full(hash, k);
    let seeded = seeded_sets(edges, n, k);
    assert forall|t: Set<usize>| #[trigger] full(t) <==> seeded(t) by {
        if seeded(t) {
            let (a, b) = choose|a: usize, b: usize|
                t.contains(a) && t.contains(b) && #[trigger] arc(edges, a, b);
            let i = choose|i: int|
                0 <= i < edges.len() && (#[trigger] edges[i]).0 == a && edges[i].1 == b;
            let seed = set![edges[i].0, edges[i].1];
            assert(seed.subset_of(t));
            vstd::set_lib::lemma_len_subset(seed, t);
            lemma_ledger_reaches(hash, edges, n, k, seed, t);
        }
    }
}

/// A connected set of two nodes or more holds an edge.
pub proof fn lemma_connected_holds_arc(edges: Seq<Edge>, n: nat, k: nat, t: Set<usize>)
    requires
        is_motif_set(edges, n, k, t),
        k >= 2,
    ensures
        holds_arc(edges, t),
{
    let x = choose|x: usize| t.contains(x);
    let one = set![x];
    assert(one.contains(x));
    assert(one.len() == 1);
    let (a, b) = lemma_connected_reaches_out(edges, t, one);
    if arc(edges, a, b) {
        assert(t.contains(a) && t.contains(b));
    } else {
        assert(arc(edges, b, a));
        assert(t.contains(b) && t.contains(a));
    }
}

/// A set that is not of `k` nodes enters the ledger without a change to
/// the tally of its sets of `k` nodes.
pub proof fn lemma_ledger_tally_same(
    table: Map<u64, usize>,
    edges: Seq<Edge>,
    n: nat,
    k: nat,
    hash: Set<Set<usize>>,
    x: Set<usize>,
)
    requires
        is_tally(table, edges, n, ledger_full(hash, k)),
        x.len() != k,
    ensures
        is_tally(table, edges, n, ledger_full(hash.insert(x), k)),
{
    let before = ledger_full(hash, k);
    let after = ledger_full(hash.insert(x), k);
    assert forall|id: u64|
        {
            let found = count_subsets(n, with_motif(edges, n, after, id));
            &&& #[trigger] count_in(table, id) == found
            &&& table.contains_key(id) <==> found > 0
        } by {
        let p = with_motif(edges, n, before, id);
        let q = with_motif(edges, n, after, id);
        assert forall|t: Set<usize>| #[trigger] p(t) == q(t) by {
            assert(before(t) == after(t));
        }
        lemma_count_same(n, Set::empty(), p, q);
        assert(count_in(table, id) == count_subsets(n, p));
    }
}

/// Where a new set of `k` nodes enters the ledger, the tally of its sets
/// of `k` nodes has one more under the identity of that set; and where the
/// ledger stays sound, the count before was below the count of all.
pub proof fn lemma_ledger_tally_more(
    table: Map<u64, usize>,
    edges: Seq<Edge>,
    n: nat,
    k: nat,
    hash: Set<Set<usize>>,
    x: Set<usize>,
)
    requires
        n <= usize::MAX,
        is_tally(table, edges, n, ledger_full(hash, k)),
        ledger_sound(hash.insert(x), edges, n, k),
        !hash.contains(x),
        x.len() == k,
        0 <= motif_of(edges, n, x) <= u64::MAX,
    ensures
        count_in(table, motif_of(edges, n, x) as u64) < count_subsets(
            n,
            with_motif(edges, n, seeded_sets(edges, n, k), motif_of(edges, n, x) as u64),
        ),
        count_in(table, motif_of(edges, n, x) as u64) < usize::MAX ==> is_tally(
            table.insert(
                motif_of(edges, n, x) as u64,
                (count_in(table, motif_of(edges, n, x) as u64) + 1) as usize,
            ),
            edges,
            n,
            ledger_full(hash.insert(x), k),
        ),
{
    let id0 = motif_of(edges, n, x) as u64;
    let before = ledger_full(hash, k);
    let after = ledger_full(hash.insert(x), k);
    let seeded = seeded_sets(edges, n, k);
    let only = |t: Set<usize>| t == x;
    assert forall|id: u64|
        #![trigger count_subsets(n, with_motif(edges, n, after, id))]
        count_subsets(n, with_motif(edges, n, after, id)) == count_subsets(
            n,
            with_motif(edges, n, before, id),
        ) + if id == id0 {
            1nat
        } else {
            0nat
        } by {
        let r = with_motif(edges, n, after, id);
        let p = with_motif(edges, n, before, id);
        let q = with_motif(edges, n, only, id);
        assert forall|t: Set<usize>| (#[trigger] r(t) <==> p(t) || q(t)) && !(p(t) && q(t)) by {
            assert(after(t) <==> before(t) || only(t));
            assert(hash.insert(x).contains(x));
        }
        lemma_count_split(n, Set::empty(), r, p, q);
        if id == id0 {
            assert forall|t: Set<usize>| #[trigger] q(t) <==> t == x by {
                assert(only(t) <==> t == x);
            }
            assert(is_grown_seed(edges, n, x)) by {
                assert(hash.insert(x).contains(x));
            }
            lemma_count_one(n, Set::empty(), q, x);
        } else {
            assert forall|t: Set<usize>| !#[trigger] q(t) by {
                assert(only(t) <==> t == x);
            }
            lemma_count_none(n, Set::empty(), q);
        }
    }
    assert(count_in(table, id0) < count_subsets(n, with_motif(edges, n, seeded, id0))) by {
        let r = with_motif(edges, n, after, id0);
        let all = with_motif(edges, n, seeded, id0);
        assert forall|t: Set<usize>| #[trigger] r(t) implies all(t) by {
            assert(after(t) ==> hash.insert(x).contains(t));
        }
        lemma_count_monotone(n, Set::empty(), r, all);
        assert(count_in(table, id0) == count_subsets(n, with_motif(edges, n, before, id0)));
        assert(count_subsets(n, r) == count_subsets(n, with_motif(edges, n, before, id0)) + 1);
        assert(count_subsets(n, r) <= count_subsets(n, all));
    }
    if count_in(table, id0) < usize::MAX {
        let more = table.insert(id0, (count_in(table, id0) + 1) as usize);
        assert forall|id: u64|
            {
                let found = count_subsets(n, with_motif(edges, n, after, id));
                &&& #[trigger] count_in(more, id) == found
                &&& more.contains_key(id) <==> found > 0
            } by {
            assert(count_in(table, id) == count_subsets(n, with_motif(edges, n, before, id)));
            assert(table.contains_key(id) <==> count_in(table, id) > 0);
        }
        assert(is_tally(more, edges, n, after));
    }
}

} // verus!
