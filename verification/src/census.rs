//! Counting the motifs of a network without anything to prove beforehand:
//! the network is looked over first, and counted where the identities and
//! the counts are sure to fit the machine's numbers.

use crate::digits::has_digit_weights;
use crate::digits::is_simple;
use crate::digits::well_formed;
use crate::invariance::lemma_small_motifs_fit;
use crate::motifs::enumerate_subgraphs;
use crate::identity::MotifId;
use crate::network::graph_edges;
use crate::network::graph_labels;
use crate::network::node_count;
use crate::network::raw_edges;
use crate::network::Edge;
use crate::network::Network;
use crate::subgraphs::frequency_table;
use crate::subgraphs::is_motif_set;
use crate::subgraphs::motif_count;
use crate::subgraphs::motif_of;
use crate::subgraphs::motif_sets;
use crate::subgraphs::with_motif;
use crate::subsets::lemma_count_sized;
use crate::subsets::lemma_power_grows;
use crate::subsets::power;
use std::collections::BTreeMap;
use vstd::prelude::*;

verus! {

/// The most nodes of a motif whose identity is sure to fit: an identity of
/// `k` nodes has `k * k` digits, and thirty-two fill a machine word.
pub const IDENTITY_DIGITS: usize = 32;

/// The subgraphs of `k` nodes of the network are sure to be countable: the
/// network is well formed, identities of `k * k` digits fit a machine
/// word, and there are not more sets of `k` nodes than a count can hold.
pub open spec fn in_reach(edges: Seq<Edge>, n: nat, k: nat) -> bool {
    &&& k * k <= IDENTITY_DIGITS
    &&& well_formed(edges, n)
    &&& power(n, k) <= usize::MAX
}

/// Whether the edges of a network are well formed: no two join the same
/// nodes in the same direction, and every weight is 1, 2 or 3.
pub fn is_well_formed(net: &Network) -> (ok: bool)
    ensures
        ok == well_formed(graph_edges(*net), graph_labels(*net).len()),
{
    let edges = raw_edges(net);
    let mut i: usize = 0;
    while i < edges.len()
        invariant
            i <= edges@.len(),
            edges@ == graph_edges(*net),
            forall|h: int| 0 <= h < i ==> 1 <= (#[trigger] edges@[h]).2 <= 3,
            forall|g: int, h: int|
                0 <= g < h < i ==> (#[trigger] edges@[g]).0 != (#[trigger] edges@[h]).0
                    || edges@[g].1 != edges@[h].1,
        decreases edges@.len() - i,
    {
        let (from, to, weight) = edges[i];
        if weight < 1 || weight > 3 {
            proof {
                assert(!(1 <= edges@[i as int].2 <= 3));
                assert(!has_digit_weights(edges@));
            }
            return false;
        }
        let mut g: usize = 0;
        while g < i
            invariant
                g <= i < edges@.len(),
                edges@ == graph_edges(*net),
                from == edges@[i as int].0,
                to == edges@[i as int].1,
                forall|f: int|
                    0 <= f < g ==> (#[trigger] edges@[f]).0 != from || edges@[f].1 != to,
            decreases i - g,
        {
            let (other_from, other_to, _) = edges[g];
            if other_from == from && other_to == to {
                proof {
                    assert(edges@[g as int].0 == edges@[i as int].0 && edges@[g as int].1
                        == edges@[i as int].1);
                    assert(!is_simple(edges@));
                }
                return false;
            }
            g += 1;
        }
        i += 1;
    }
    true
}

/// `n` to the power `k`, where that fits a count.
fn bounded_power(n: usize, k: usize) -> (value: Option<usize>)
    ensures
        match value {
            Some(v) => v == power(n as nat, k as nat),
            None => power(n as nat, k as nat) > usize::MAX,
        },
{
    if n == 0 {
        proof {
            if k > 0 {
                assert(power(0, k as nat) == 0 * power(0, (k - 1) as nat));
            }
        }
        return Some(if k == 0 { 1 } else { 0 });
    }
    let mut value: usize = 1;
    let mut i: usize = 0;
    while i < k
        invariant
            i <= k,
            n >= 1,
            value == power(n as nat, i as nat),
        decreases k - i,
    {
        proof {
            assert(value * n <= 0xFFFF_FFFF_FFFF_FFFF * 0xFFFF_FFFF_FFFF_FFFF) by (nonlinear_arith)
                requires
                    0 <= value <= 0xFFFF_FFFF_FFFF_FFFF,
                    0 <= n <= 0xFFFF_FFFF_FFFF_FFFF,
            ;
            assert(power(n as nat, (i + 1) as nat) == n * value);
            assert(n * value == value * n) by (nonlinear_arith);
        }
        let wide: u128 = (value as u128) * (n as u128);
        if wide > usize::MAX as u128 {
            proof {
                lemma_power_grows(n as nat, (i + 1) as nat, k as nat);
            }
            return None;
        }
        value = wide as usize;
        i += 1;
    }
    Some(value)
}

/// A network in reach meets what the enumeration asks.
pub proof fn lemma_in_reach(edges: Seq<Edge>, n: nat, k: nat)
    requires
        n <= usize::MAX,
        in_reach(edges, n, k),
    ensures
        forall|t: Set<usize>|
            is_motif_set(edges, n, k, t) ==> #[trigger] motif_of(edges, n, t) <= u64::MAX,
        forall|id: u64| #[trigger] motif_count(edges, n, k, id) <= usize::MAX,
{
    assert forall|t: Set<usize>| is_motif_set(edges, n, k, t) implies #[trigger] motif_of(
        edges,
        n,
        t,
    ) <= u64::MAX by {
        lemma_small_motifs_fit(edges, n, k, t);
    }
    assert forall|id: u64| #[trigger] motif_count(edges, n, k, id) <= usize::MAX by {
        let pick = with_motif(edges, n, motif_sets(edges, n, k), id);
        assert forall|t: Set<usize>| #[trigger] pick(t) implies t.finite() && t.len() == k by {
        }
        lemma_count_sized(n, Set::empty(), pick, k);
    }
}

/// The frequencies of the subgraphs of `k` nodes of a network, where the
/// network is in reach; nothing where it is not.
pub fn motif_frequencies(k: usize, net: &Network) -> (found: Option<BTreeMap<MotifId, usize>>)
    ensures
        found is Some <==> in_reach(graph_edges(*net), graph_labels(*net).len(), k as nat),
        found matches Some(table) ==> table@ == frequency_table(
            graph_edges(*net),
            graph_labels(*net).len(),
            k as nat,
        ),
{
    if k > 5 {
        proof {
            assert(k * k > IDENTITY_DIGITS) by (nonlinear_arith)
                requires
                    k >= 6,
            ;
        }
        return None;
    }
    proof {
        assert(k * k <= IDENTITY_DIGITS) by (nonlinear_arith)
            requires
                k <= 5,
        ;
    }
    if !is_well_formed(net) {
        return None;
    }
    let n = node_count(net);
    if bounded_power(n, k).is_none() {
        return None;
    }
    proof {
        lemma_in_reach(graph_edges(*net), n as nat, k as nat);
    }
    Some(enumerate_subgraphs(k, net))
}

} // verus!
