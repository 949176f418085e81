//! What a drawing of a motif needs to know of it.

use crate::network::adjacent;
use crate::network::graph_edges;
use crate::network::graph_labels;
use crate::network::neighbors_undirected;
use crate::network::node_count;
use crate::network::Edge;
use crate::network::EdgeType;
use crate::network::Network;
use crate::network::INDEX_LIMIT;
use crate::subgraphs::lemma_ascending_len;
use crate::subsets::below;
use std::collections::BTreeSet;
use vstd::prelude::*;

verus! {

broadcast use vstd::std_specs::btree::group_btree_axioms;

/// The name of the arrowhead for an edge of the given kind.
pub open spec fn arrowhead_name(w: EdgeType) -> Seq<char> {
    if w == 1 {
        "onormal"@
    } else if w == 3 {
        "diamond"@
    } else {
        "circle"@
    }
}

/// The name of the arrowhead with which an edge of the given kind is drawn.
pub fn arrowhead(w: EdgeType) -> (name: &'static str)
    ensures
        name@ == arrowhead_name(w),
{
    match w {
        1 => "onormal",
        3 => "diamond",
        _ => "circle",
    }
}

/// The nodes that an edge joins to `v`, in either direction.
pub open spec fn neighbours(edges: Seq<Edge>, v: usize) -> Set<usize> {
    Set::new(|u: usize| adjacent(edges, v, u))
}

/// The sum over the nodes below `n` of the number of their neighbours.
pub open spec fn degree_sum(edges: Seq<Edge>, n: nat) -> nat
    decreases n,
{
    if n == 0 {
        0
    } else {
        degree_sum(edges, (n - 1) as nat) + neighbours(edges, (n - 1) as usize).len()
    }
}

/// Whether a motif has more edges than a tree on its nodes: whether its
/// nodes have more than `2 * (n - 1)` neighbours in all.
pub fn is_interesting(motif: &Network) -> (yes: bool)
    requires
        graph_labels(*motif).len() >= 1,
    ensures
        yes == (degree_sum(graph_edges(*motif), graph_labels(*motif).len()) > 2 * (graph_labels(
            *motif,
        ).len() - 1)),
{
    let ghost edges = graph_edges(*motif);
    let n = node_count(motif);
    let mut total_degree: u64 = 0;
    let mut v: usize = 0;
    while v < n
        invariant
            v <= n,
            n == graph_labels(*motif).len(),
            n <= INDEX_LIMIT,
            edges == graph_edges(*motif),
            total_degree == degree_sum(edges, v as nat),
            total_degree <= v * n,
        decreases n - v,
    {
        let found = neighbors_undirected(motif, v);
        let mut seen: BTreeSet<usize> = BTreeSet::new();
        let mut j: usize = 0;
        while j < found.len()
            invariant
                j <= found@.len(),
                seen@.finite(),
                forall|x: usize| #[trigger]
                    seen@.contains(x) <==> exists|i: int| 0 <= i < j && found@[i] == x,
            decreases found@.len() - j,
        {
            let ghost before = seen@;
            seen.insert(found[j]);
            proof {
                assert forall|x: usize| #[trigger]
                    seen@.contains(x) <==> exists|i: int| 0 <= i < j + 1 && found@[i] == x by {
                    if before.contains(x) {
                        let i = choose|i: int| 0 <= i < j && found@[i] == x;
                        assert(0 <= i < j + 1 && found@[i] == x);
                    }
                    if x == found@[j as int] {
                        assert(0 <= j < j + 1 && found@[j as int] == x);
                    }
                }
            }
            j += 1;
        }
        proof {
            assert forall|x: usize| seen@.contains(x) <==> neighbours(edges, v).contains(x) by {
                assert(found@.contains(x) <==> adjacent(edges, v, x));
            }
            assert(seen@ =~= neighbours(edges, v));
            assert(below(seen@, n as nat)) by {
                assert forall|x: usize| seen@.contains(x) implies x < n by {
                    let i = choose|i: int| 0 <= i < found@.len() && found@[i] == x;
                    assert(found@[i] < n);
                }
            }
            lemma_ascending_len(seen@, n as nat);
            assert((v + 1) * n == v * n + n) by (nonlinear_arith);
            assert((v + 1) * n <= n * n) by (nonlinear_arith)
                requires
                    v + 1 <= n,
            ;
            assert(n * n <= 0xFFFF_FFFF * 0xFFFF_FFFF) by (nonlinear_arith)
                requires
                    n <= 0xFFFF_FFFF,
            ;
        }
        total_degree = total_degree + seen.len() as u64;
        v += 1;
    }
    total_degree > 2 * ((n - 1) as u64)
}

} // verus!
