//! The frequencies of motifs: the connected sets of `k` nodes of a network
//! are enumerated, and each is counted under the identity of the subgraph
//! that it induces.
//!
//! Two searches find the sets. `enumerate_subgraphs` extends a set from its
//! least node by neighbours above that node; `all_motifs` grows sets from
//! the edges and keeps a ledger of the sets met.

use crate::canon::canonicalize;
use crate::canon::MAXN;
pub use crate::identity::id_to_network;
pub use crate::identity::motif_id;
pub use crate::identity::motif_str;
pub use crate::identity::MotifId;
pub use crate::identity::MOTIF_BASE;
use crate::extension::extension_domain;
use crate::extension::extension_state;
use crate::extension::lemma_full_state;
use crate::extension::lemma_root_state;
use crate::extension::lemma_sets_before_ends;
use crate::extension::lemma_sets_before_step;
use crate::extension::lemma_spent_state;
use crate::extension::lemma_step_domain;
use crate::extension::lemma_step_state;
use crate::extension::rooted_sets;
use crate::extension::sets_before;
use crate::ledger::Ledger;
use crate::network::edges_within;
use crate::network::graph_edges;
use crate::network::graph_labels;
use crate::network::neighbors_undirected;
use crate::network::node_count;
use crate::network::raw_edges;
use crate::network::Edge;
use crate::network::Network;
use crate::network::adjacent;
use crate::network::SubNetwork;
use crate::seeded::closed_in;
use crate::seeded::is_grown_seed;
use crate::seeded::ledger_closed;
use crate::seeded::ledger_full;
use crate::seeded::ledger_sound;
use crate::seeded::lemma_ledger_complete;
use crate::seeded::lemma_ledger_tally_more;
use crate::seeded::lemma_ledger_tally_same;
use crate::seeded::lemma_seed;
use crate::seeded::lemma_seed_grows;
use crate::seeded::seeded_sets;
use crate::sets::any_member;
use crate::sets::members;
use crate::sets::ascending_members;
use crate::subgraphs::adds_tally;
use crate::subgraphs::count_in;
use crate::subgraphs::is_motif_set;
use crate::subgraphs::frequency_table;
use crate::subgraphs::is_tally;
use crate::subgraphs::lemma_tally_is_table;
use crate::subgraphs::tally_of;
use crate::subgraphs::lemma_ascending_len;
use crate::subgraphs::lemma_ascending_members;
use crate::subgraphs::lemma_motif_of_natural;
use crate::subgraphs::motif_count;
use crate::subgraphs::motif_of;
use crate::subgraphs::motif_sets;
use crate::subgraphs::with_motif;
use crate::subsets::below;
use crate::subsets::count_subsets;
use crate::subsets::lemma_count_monotone;
use crate::subsets::lemma_count_none;
use crate::subsets::lemma_count_one;
use crate::subsets::lemma_count_same;
use crate::subsets::lemma_count_split;
use std::collections::BTreeMap;
use std::collections::BTreeSet;
use vstd::prelude::*;

verus! {

broadcast use vstd::std_specs::btree::group_btree_axioms;

/// A table of frequencies: for every identity the number of subgraphs found.
pub type MotifFreq = BTreeMap<MotifId, usize>;

/// Counts one more subgraph of the identity `id`.
fn count_one_more(out: &mut BTreeMap<MotifId, usize>, id: MotifId)
    requires
        count_in(old(out)@, id) < usize::MAX,
    ensures
        final(out)@ == old(out)@.insert(id, (count_in(old(out)@, id) + 1) as usize),
{
    let found: usize = match out.get(&id) {
        Some(count) => *count,
        None => 0,
    };
    out.insert(id, found + 1);
}

/// Counts the subgraph that the set `nodes` induces: the subnetwork is
/// taken, brought to its canonical form and counted under its identity.
fn tally_subgraph(net: &Network, nodes: &BTreeSet<usize>, out: &mut BTreeMap<MotifId, usize>)
    requires
        nodes@.finite(),
        nodes@.len() <= MAXN,
        below(nodes@, graph_labels(*net).len()),
        motif_of(graph_edges(*net), graph_labels(*net).len(), nodes@) <= u64::MAX,
        count_in(
            old(out)@,
            motif_of(graph_edges(*net), graph_labels(*net).len(), nodes@) as u64,
        ) < usize::MAX,
    ensures
        final(out)@ == old(out)@.insert(
            motif_of(graph_edges(*net), graph_labels(*net).len(), nodes@) as u64,
            (count_in(
                old(out)@,
                motif_of(graph_edges(*net), graph_labels(*net).len(), nodes@) as u64,
            ) + 1) as usize,
        ),
{
    let n = node_count(net);
    let list = ascending_members(nodes, n);
    proof {
        lemma_ascending_members(nodes@, n as nat);
        lemma_ascending_len(nodes@, n as nat);
    }
    let motif = canonicalize(net.subnet(list.as_slice()));
    let id = motif_id(&motif);
    count_one_more(out, id);
}

/// A table that gained one under the identity of the only set of a domain
/// has gained the tally of that domain.
proof fn lemma_tally_one(
    before: Map<u64, usize>,
    edges: Seq<Edge>,
    n: nat,
    domain: spec_fn(Set<usize>) -> bool,
    only: Set<usize>,
)
    requires
        n <= usize::MAX,
        below(only, n),
        0 <= motif_of(edges, n, only) <= u64::MAX,
        count_in(before, motif_of(edges, n, only) as u64) < usize::MAX,
        forall|t: Set<usize>| #[trigger] domain(t) <==> t == only,
    ensures
        adds_tally(
            before,
            before.insert(
                motif_of(edges, n, only) as u64,
                (count_in(before, motif_of(edges, n, only) as u64) + 1) as usize,
            ),
            edges,
            n,
            domain,
        ),
{
    let id0 = motif_of(edges, n, only) as u64;
    let after = before.insert(id0, (count_in(before, id0) + 1) as usize);
    assert forall|id: u64|
        {
            let more = count_subsets(n, with_motif(edges, n, domain, id));
            &&& #[trigger] count_in(after, id) == count_in(before, id) + more
            &&& after.contains_key(id) <==> before.contains_key(id) || more > 0
        } by {
        let pick = with_motif(edges, n, domain, id);
        if id == id0 {
            assert forall|t: Set<usize>| #[trigger] pick(t) <==> t == only by {
                assert(domain(t) <==> t == only);
            }
            lemma_count_one(n, Set::empty(), pick, only);
        } else {
            assert forall|t: Set<usize>| !#[trigger] pick(t) by {
                assert(domain(t) <==> t == only);
            }
            lemma_count_none(n, Set::empty(), pick);
        }
    }
}

/// The search from one state: counts in `out` every connected set of `k`
/// nodes that the state leads to, each once, under the identity of its
/// subgraph. `v_subgraph` is the set reached, `v_subgraph_neighbours` the
/// neighbours of its nodes and `v_extension` the nodes above the root `v`
/// by which it may still grow.
pub fn extend_subgraph(
    k: usize,
    net: &Network,
    v: usize,
    v_subgraph: BTreeSet<usize>,
    v_subgraph_neighbours: BTreeSet<usize>,
    v_extension: BTreeSet<usize>,
    out: &mut BTreeMap<MotifId, usize>,
)
    requires
        k <= MAXN,
        extension_state(
            graph_edges(*net),
            graph_labels(*net).len(),
            v,
            v_subgraph@,
            v_subgraph_neighbours@,
            v_extension@,
        ),
        forall|t: Set<usize>| #[trigger]
            extension_domain(
                graph_edges(*net),
                graph_labels(*net).len(),
                k as nat,
                v,
                v_subgraph@,
                v_subgraph_neighbours@,
                v_extension@,
            )(t) ==> motif_of(graph_edges(*net), graph_labels(*net).len(), t) <= u64::MAX,
        forall|id: u64|
            count_in(old(out)@, id) + #[trigger] count_subsets(
                graph_labels(*net).len(),
                with_motif(
                    graph_edges(*net),
                    graph_labels(*net).len(),
                    extension_domain(
                        graph_edges(*net),
                        graph_labels(*net).len(),
                        k as nat,
                        v,
                        v_subgraph@,
                        v_subgraph_neighbours@,
                        v_extension@,
                    ),
                    id,
                ),
            ) <= usize::MAX,
    ensures
        adds_tally(
            old(out)@,
            final(out)@,
            graph_edges(*net),
            graph_labels(*net).len(),
            extension_domain(
                graph_edges(*net),
                graph_labels(*net).len(),
                k as nat,
                v,
                v_subgraph@,
                v_subgraph_neighbours@,
                v_extension@,
            ),
        ),
    decreases graph_labels(*net).len() - v_subgraph@.len(),
{
    let ghost edges = graph_edges(*net);
    let ghost sub = v_subgraph@;
    let ghost seen = v_subgraph_neighbours@;
    let ghost first = v_extension@;
    let ghost start = out@;
    let n = node_count(net);
    let ghost whole = extension_domain(edges, n as nat, k as nat, v, sub, seen, first);
    proof {
        lemma_ascending_len(sub, n as nat);
        lemma_motif_of_natural(edges, n as nat, sub);
    }
    if v_subgraph.len() == k {
        proof {
            lemma_full_state(edges, n as nat, k as nat, v, sub, seen, first);
            assert(whole(sub));
            let pick = with_motif(edges, n as nat, whole, motif_of(edges, n as nat, sub) as u64);
            assert forall|t: Set<usize>| #[trigger] pick(t) <==> t == sub by {
                assert(whole(t) <==> t == sub);
            }
            lemma_count_one(n as nat, Set::empty(), pick, sub);
            assert(count_in(start, motif_of(edges, n as nat, sub) as u64) + count_subsets(
                n as nat,
                pick,
            ) <= usize::MAX);
        }
        tally_subgraph(net, &v_subgraph, out);
        proof {
            lemma_tally_one(start, edges, n as nat, whole, sub);
        }
        return ;
    }
    let mut v_extension = v_extension;
    let mut next = any_member(&v_extension);
    while next.is_some()
        invariant
            k <= MAXN,
            n == graph_labels(*net).len(),
            edges == graph_edges(*net),
            sub == v_subgraph@,
            seen == v_subgraph_neighbours@,
            sub.len() != k,
            sub.len() <= n,
            whole == extension_domain(edges, n as nat, k as nat, v, sub, seen, first),
            extension_state(edges, n as nat, v, sub, seen, v_extension@),
            match next {
                Some(w) => v_extension@.contains(w),
                None => v_extension@ == Set::<usize>::empty(),
            },
            forall|t: Set<usize>| #[trigger]
                extension_domain(edges, n as nat, k as nat, v, sub, seen, v_extension@)(t)
                    ==> motif_of(edges, n as nat, t) <= u64::MAX,
            forall|id: u64|
                count_in(start, id) + #[trigger] count_subsets(
                    n as nat,
                    with_motif(edges, n as nat, whole, id),
                ) <= usize::MAX,
            forall|id: u64|
                count_in(out@, id) + #[trigger] count_subsets(
                    n as nat,
                    with_motif(
                        edges,
                        n as nat,
                        extension_domain(edges, n as nat, k as nat, v, sub, seen, v_extension@),
                        id,
                    ),
                ) == count_in(start, id) + count_subsets(
                    n as nat,
                    with_motif(edges, n as nat, whole, id),
                ),
            table_grew(start, out@),
        decreases v_extension@.len(),
    {
        let w = next.unwrap();
        let ghost ext = v_extension@;
        let ghost before = out@;
        v_extension.remove(&w);
        let found = neighbors_undirected(net, w);
        let mut grown_subgraph = v_subgraph.clone();
        grown_subgraph.insert(w);
        let mut grown_neighbours = v_subgraph_neighbours.clone();
        let mut grown_extension = v_extension.clone();
        let ghost rest_extension = v_extension@;
        let mut j: usize = 0;
        while j < found.len()
            invariant
                j <= found@.len(),
                grown_extension@.finite(),
                forall|x: usize| #[trigger]
                    grown_neighbours@.contains(x) <==> seen.contains(x) || listed(
                        found@,
                        j as int,
                        x,
                    ),
                forall|x: usize| #[trigger]
                    grown_extension@.contains(x) <==> rest_extension.contains(x) || (x > v
                        && !seen.contains(x) && listed(found@, j as int, x)),
                seen == v_subgraph_neighbours@,
            decreases found@.len() - j,
        {
            let u = found[j];
            let ghost neighbours_before = grown_neighbours@;
            let ghost extension_before = grown_extension@;
            if u > v && !v_subgraph_neighbours.contains(&u) {
                grown_extension.insert(u);
            }
            grown_neighbours.insert(u);
            proof {
                assert forall|x: usize| #[trigger]
                    grown_neighbours@.contains(x) <==> seen.contains(x) || listed(
                        found@,
                        j + 1,
                        x,
                    ) by {
                    lemma_listed_step(found@, j as int, x);
                    assert(neighbours_before.contains(x) <==> seen.contains(x) || listed(
                        found@,
                        j as int,
                        x,
                    ));
                }
                assert forall|x: usize| #[trigger]
                    grown_extension@.contains(x) <==> rest_extension.contains(x) || (x > v
                        && !seen.contains(x) && listed(found@, j + 1, x)) by {
                    lemma_listed_step(found@, j as int, x);
                    assert(extension_before.contains(x) <==> rest_extension.contains(x) || (x > v
                        && !seen.contains(x) && listed(found@, j as int, x)));
                }
            }
            j += 1;
        }
        let ghost grown = extension_domain(
            edges,
            n as nat,
            k as nat,
            v,
            sub.insert(w),
            grown_neighbours@,
            grown_extension@,
        );
        let ghost rest = extension_domain(edges, n as nat, k as nat, v, sub, seen, ext.remove(w));
        let ghost current = extension_domain(edges, n as nat, k as nat, v, sub, seen, ext);
        proof {
            assert(v_extension@ == ext.remove(w));
            assert forall|x: usize|
                grown_neighbours@.contains(x) <==> seen.contains(x) || adjacent(
                    edges,
                    w,
                    x,
                ) by {
                lemma_listed_all(found@, x);
                assert(found@.contains(x) <==> adjacent(edges, w, x));
                assert(grown_neighbours@.contains(x) <==> seen.contains(x) || listed(
                    found@,
                    j as int,
                    x,
                ));
            }
            assert forall|x: usize|
                grown_extension@.contains(x) <==> (ext.contains(x) && x != w) || (adjacent(
                    edges,
                    w,
                    x,
                ) && v < x < n && !seen.contains(x)) by {
                lemma_listed_all(found@, x);
                assert(found@.contains(x) <==> adjacent(edges, w, x));
                assert(grown_extension@.contains(x) <==> rest_extension.contains(x) || (x > v
                    && !seen.contains(x) && listed(found@, j as int, x)));
                if found@.contains(x) {
                    let i = choose|i: int| 0 <= i < found@.len() && found@[i] == x;
                    assert(found@[i] < n);
                }
            }
            lemma_step_state(
                edges,
                n as nat,
                v,
                sub,
                seen,
                ext,
                w,
                grown_neighbours@,
                grown_extension@,
            );
            lemma_ascending_len(sub.insert(w), n as nat);
            assert(sub.insert(w).len() == sub.len() + 1);
            lemma_step_domain(
                edges,
                n as nat,
                k as nat,
                v,
                sub,
                seen,
                ext,
                w,
                grown_neighbours@,
                grown_extension@,
            );
            assert forall|id: u64|
                #[trigger] count_subsets(n as nat, with_motif(edges, n as nat, current, id))
                    == count_subsets(n as nat, with_motif(edges, n as nat, grown, id))
                    + count_subsets(n as nat, with_motif(edges, n as nat, rest, id)) by {
                let r = with_motif(edges, n as nat, current, id);
                let p = with_motif(edges, n as nat, grown, id);
                let q = with_motif(edges, n as nat, rest, id);
                assert forall|t: Set<usize>|
                    (#[trigger] r(t) <==> p(t) || q(t)) && !(p(t) && q(t)) by {
                    assert(grown(t) <==> current(t) && t.contains(w));
                    assert(rest(t) <==> current(t) && !t.contains(w));
                }
                lemma_count_split(n as nat, Set::empty(), r, p, q);
            }
            assert forall|t: Set<usize>| #[trigger] grown(t) implies motif_of(edges, n as nat, t)
                <= u64::MAX by {
                assert(grown(t) <==> current(t) && t.contains(w));
            }
            assert forall|t: Set<usize>| #[trigger] rest(t) implies motif_of(edges, n as nat, t)
                <= u64::MAX by {
                assert(rest(t) <==> current(t) && !t.contains(w));
            }
            assert forall|id: u64|
                count_in(before, id) + #[trigger] count_subsets(
                    n as nat,
                    with_motif(edges, n as nat, grown, id),
                ) <= usize::MAX by {
                assert(count_subsets(n as nat, with_motif(edges, n as nat, current, id))
                    == count_subsets(n as nat, with_motif(edges, n as nat, grown, id))
                    + count_subsets(n as nat, with_motif(edges, n as nat, rest, id)));
                assert(count_in(start, id) + count_subsets(
                    n as nat,
                    with_motif(edges, n as nat, whole, id),
                ) <= usize::MAX);
            }
        }
        extend_subgraph(
            k,
            net,
            v,
            grown_subgraph,
            grown_neighbours,
            grown_extension,
            out,
        );
        next = any_member(&v_extension);
        proof {
            assert forall|id: u64|
                count_in(out@, id) + #[trigger] count_subsets(
                    n as nat,
                    with_motif(edges, n as nat, rest, id),
                ) == count_in(start, id) + count_subsets(
                    n as nat,
                    with_motif(edges, n as nat, whole, id),
                ) by {
                assert(count_subsets(n as nat, with_motif(edges, n as nat, current, id))
                    == count_subsets(n as nat, with_motif(edges, n as nat, grown, id))
                    + count_subsets(n as nat, with_motif(edges, n as nat, rest, id)));
                assert(count_in(out@, id) == count_in(before, id) + count_subsets(
                    n as nat,
                    with_motif(edges, n as nat, grown, id),
                ));
            }
            assert forall|id: u64|
                #![trigger count_in(out@, id)]
                count_in(out@, id) >= count_in(start, id) && (out@.contains_key(id)
                    <==> start.contains_key(id) || count_in(out@, id) > count_in(start, id)) by {
                assert(count_in(out@, id) == count_in(before, id) + count_subsets(
                    n as nat,
                    with_motif(edges, n as nat, grown, id),
                ));
                assert(count_in(before, id) >= count_in(start, id));
                assert(before.contains_key(id) <==> start.contains_key(id) || count_in(before, id)
                    > count_in(start, id));
                assert(out@.contains_key(id) <==> before.contains_key(id) || count_subsets(
                    n as nat,
                    with_motif(edges, n as nat, grown, id),
                ) > 0);
            }
        }
    }
    proof {
        let spent = extension_domain(edges, n as nat, k as nat, v, sub, seen, v_extension@);
        lemma_spent_state(edges, n as nat, k as nat, v, sub, seen, v_extension@);
        assert forall|id: u64|
            {
                let more = count_subsets(n as nat, with_motif(edges, n as nat, whole, id));
                &&& #[trigger] count_in(out@, id) == count_in(start, id) + more
                &&& out@.contains_key(id) <==> start.contains_key(id) || more > 0
            } by {
            let pick = with_motif(edges, n as nat, spent, id);
            assert forall|t: Set<usize>| !#[trigger] pick(t) by {
                assert(!spent(t));
            }
            lemma_count_none(n as nat, Set::empty(), pick);
            assert(count_in(out@, id) + count_subsets(n as nat, pick) == count_in(start, id)
                + count_subsets(n as nat, with_motif(edges, n as nat, whole, id)));
        }
    }
}

/// The frequencies of the subgraphs of `k` nodes, found by growth from the
/// edges: every connected set of `k` nodes that holds an edge is counted
/// once, under the identity of the subgraph that it induces. From two
/// nodes on every connected set holds an edge; a set of one node is found
/// only where the node has an edge to itself.
pub fn all_motifs(k: usize, net: &Network) -> (out: BTreeMap<MotifId, usize>)
    requires
        k <= MAXN,
        forall|t: Set<usize>| #[trigger]
            seeded_sets(graph_edges(*net), graph_labels(*net).len(), k as nat)(t) ==> motif_of(
                graph_edges(*net),
                graph_labels(*net).len(),
                t,
            ) <= u64::MAX,
        forall|id: u64| #[trigger]
            count_subsets(
                graph_labels(*net).len(),
                with_motif(
                    graph_edges(*net),
                    graph_labels(*net).len(),
                    seeded_sets(graph_edges(*net), graph_labels(*net).len(), k as nat),
                    id,
                ),
            ) <= usize::MAX,
    ensures
        out@ == tally_of(
            graph_edges(*net),
            graph_labels(*net).len(),
            seeded_sets(graph_edges(*net), graph_labels(*net).len(), k as nat),
        ),
        is_tally(
            out@,
            graph_edges(*net),
            graph_labels(*net).len(),
            seeded_sets(graph_edges(*net), graph_labels(*net).len(), k as nat),
        ),
{
    let mut hash = Ledger::new();
    let mut out: BTreeMap<MotifId, usize> = BTreeMap::new();
    let n = node_count(net);
    let edges = raw_edges(net);
    let ghost seeded = seeded_sets(edges@, n as nat, k as nat);
    proof {
        let none = ledger_full(hash@, k as nat);
        assert forall|id: u64|
            {
                let found = count_subsets(n as nat, with_motif(edges@, n as nat, none, id));
                &&& #[trigger] count_in(out@, id) == found
                &&& out@.contains_key(id) <==> found > 0
            } by {
            let pick = with_motif(edges@, n as nat, none, id);
            assert forall|t: Set<usize>| !#[trigger] pick(t) by {
                assert(!none(t));
            }
            lemma_count_none(n as nat, Set::empty(), pick);
        }
    }
    let mut i: usize = 0;
    while i < edges.len()
        invariant
            i <= edges@.len(),
            k <= MAXN,
            n == graph_labels(*net).len(),
            edges@ == graph_edges(*net),
            edges_within(edges@, n as nat),
            seeded == seeded_sets(edges@, n as nat, k as nat),
            forall|t: Set<usize>| #[trigger]
                seeded(t) ==> motif_of(edges@, n as nat, t) <= u64::MAX,
            forall|id: u64| #[trigger]
                count_subsets(n as nat, with_motif(edges@, n as nat, seeded, id)) <= usize::MAX,
            hash.wf(),
            ledger_sound(hash@, edges@, n as nat, k as nat),
            ledger_closed(hash@, Set::empty(), edges@, k as nat),
            is_tally(out@, edges@, n as nat, ledger_full(hash@, k as nat)),
            forall|j: int|
                0 <= j < i && set![(#[trigger] edges@[j]).0, edges@[j].1].len() <= k
                    ==> hash@.contains(set![edges@[j].0, edges@[j].1]),
        decreases edges@.len() - i,
    {
        let (from, to, _) = edges[i];
        let mut s: BTreeSet<usize> = BTreeSet::new();
        s.insert(from);
        s.insert(to);
        let ghost before = hash@;
        proof {
            lemma_seed(edges@, n as nat, i as int);
            assert(s@ =~= set![from, to]);
        }
        search_subset(k, net, &mut s, &mut hash, &mut out, Ghost(Set::empty()));
        proof {
            assert forall|j: int|
                0 <= j < i + 1 && set![(#[trigger] edges@[j]).0, edges@[j].1].len() <= k
                    implies hash@.contains(set![edges@[j].0, edges@[j].1]) by {
                if j < i {
                    assert(before.contains(set![edges@[j].0, edges@[j].1]));
                }
            }
        }
        i += 1;
    }
    proof {
        lemma_ledger_complete(hash@, edges@, n as nat, k as nat);
        let full = ledger_full(hash@, k as nat);
        assert forall|id: u64|
            {
                let found = count_subsets(n as nat, with_motif(edges@, n as nat, seeded, id));
                &&& #[trigger] count_in(out@, id) == found
                &&& out@.contains_key(id) <==> found > 0
            } by {
            let p = with_motif(edges@, n as nat, full, id);
            let q = with_motif(edges@, n as nat, seeded, id);
            assert forall|t: Set<usize>| #[trigger] p(t) == q(t) by {
                assert(full(t) <==> seeded(t));
            }
            lemma_count_same(n as nat, Set::empty(), p, q);
            assert(count_in(out@, id) == count_subsets(n as nat, p));
        }
        assert(is_tally(out@, edges@, n as nat, seeded));
        lemma_tally_is_table(out@, edges@, n as nat, seeded);
    }
    out
}

/// Grows the set `s` by every neighbour of its nodes, as far as the ledger
/// does not hold the grown set yet, until the sets have `k` nodes; those
/// are counted. `s` is handed back as it came. `pending` are the sets whose
/// growth is under way further up.
fn search_subset(
    k: usize,
    net: &Network,
    s: &mut BTreeSet<usize>,
    hash: &mut Ledger,
    out: &mut BTreeMap<MotifId, usize>,
    Ghost(pending): Ghost<Set<Set<usize>>>,
)
    requires
        k <= MAXN,
        old(hash).wf(),
        is_grown_seed(graph_edges(*net), graph_labels(*net).len(), old(s)@),
        ledger_sound(old(hash)@, graph_edges(*net), graph_labels(*net).len(), k as nat),
        ledger_closed(old(hash)@, pending, graph_edges(*net), k as nat),
        forall|p: Set<usize>| #[trigger]
            pending.contains(p) ==> p.subset_of(old(s)@) && p != old(s)@,
        is_tally(
            old(out)@,
            graph_edges(*net),
            graph_labels(*net).len(),
            ledger_full(old(hash)@, k as nat),
        ),
        forall|t: Set<usize>| #[trigger]
            seeded_sets(graph_edges(*net), graph_labels(*net).len(), k as nat)(t) ==> motif_of(
                graph_edges(*net),
                graph_labels(*net).len(),
                t,
            ) <= u64::MAX,
        forall|id: u64| #[trigger]
            count_subsets(
                graph_labels(*net).len(),
                with_motif(
                    graph_edges(*net),
                    graph_labels(*net).len(),
                    seeded_sets(graph_edges(*net), graph_labels(*net).len(), k as nat),
                    id,
                ),
            ) <= usize::MAX,
    ensures
        final(s)@ == old(s)@,
        final(hash).wf(),
        old(hash)@.subset_of(final(hash)@),
        ledger_sound(final(hash)@, graph_edges(*net), graph_labels(*net).len(), k as nat),
        ledger_closed(final(hash)@, pending, graph_edges(*net), k as nat),
        is_tally(
            final(out)@,
            graph_edges(*net),
            graph_labels(*net).len(),
            ledger_full(final(hash)@, k as nat),
        ),
        old(s)@.len() <= k ==> final(hash)@.contains(old(s)@),
    decreases k - old(s)@.len(),
{
    let ghost edges = graph_edges(*net);
    let ghost s0 = s@;
    let ghost hash0 = hash@;
    let n = node_count(net);
    let ghost seeded = seeded_sets(edges, n as nat, k as nat);
    let size = s.len();
    if size == k {
        if !hash.contains(s) {
            hash.insert(s.clone());
            proof {
                lemma_motif_of_natural(edges, n as nat, s0);
                assert(seeded(s0));
                lemma_ledger_tally_more(out@, edges, n as nat, k as nat, hash0, s0);
            }
            tally_subgraph(net, s, out);
        }
        return ;
    }
    if size > k {
        return ;
    }
    hash.insert(s.clone());
    proof {
        lemma_ledger_tally_same(out@, edges, n as nat, k as nat, hash0, s0);
    }
    let ghost waiting = pending.insert(s0);
    let list = members(s);
    let mut i: usize = 0;
    while i < list.len()
        invariant
            i <= list@.len(),
            k <= MAXN,
            n == graph_labels(*net).len(),
            edges == graph_edges(*net),
            seeded == seeded_sets(edges, n as nat, k as nat),
            list@.to_set() == s0,
            s@ == s0,
            s0 == old(s)@,
            s0.len() < k,
            waiting == pending.insert(s0),
            is_grown_seed(edges, n as nat, s0),
            forall|p: Set<usize>| #[trigger] pending.contains(p) ==> p.subset_of(s0) && p != s0,
            forall|t: Set<usize>| #[trigger]
                seeded(t) ==> motif_of(edges, n as nat, t) <= u64::MAX,
            forall|id: u64| #[trigger]
                count_subsets(n as nat, with_motif(edges, n as nat, seeded, id)) <= usize::MAX,
            hash.wf(),
            hash0.subset_of(hash@),
            hash@.contains(s0),
            ledger_sound(hash@, edges, n as nat, k as nat),
            ledger_closed(hash@, waiting, edges, k as nat),
            is_tally(out@, edges, n as nat, ledger_full(hash@, k as nat)),
            forall|h: int, y: usize|
                0 <= h < i && !s0.contains(y) && #[trigger] adjacent(edges, list@[h], y)
                    ==> hash@.contains(s0.insert(y)),
        decreases list@.len() - i,
    {
        let u = list[i];
        proof {
            assert(list@.to_set().contains(u));
        }
        let found = neighbors_undirected(net, u);
        let mut j: usize = 0;
        while j < found.len()
            invariant
                j <= found@.len(),
                i < list@.len(),
                u == list@[i as int],
                s0.contains(u),
                s0 == old(s)@,
                k <= MAXN,
                n == graph_labels(*net).len(),
                edges == graph_edges(*net),
                seeded == seeded_sets(edges, n as nat, k as nat),
                s@ == s0,
                s0.len() < k,
                waiting == pending.insert(s0),
                is_grown_seed(edges, n as nat, s0),
                forall|x: usize| found@.contains(x) <==> adjacent(edges, u, x),
                forall|h: int| 0 <= h < found@.len() ==> found@[h] < n,
                forall|p: Set<usize>| #[trigger]
                    pending.contains(p) ==> p.subset_of(s0) && p != s0,
                forall|t: Set<usize>| #[trigger]
                    seeded(t) ==> motif_of(edges, n as nat, t) <= u64::MAX,
                forall|id: u64| #[trigger]
                    count_subsets(n as nat, with_motif(edges, n as nat, seeded, id))
                        <= usize::MAX,
                hash.wf(),
                hash0.subset_of(hash@),
                hash@.contains(s0),
                ledger_sound(hash@, edges, n as nat, k as nat),
                ledger_closed(hash@, waiting, edges, k as nat),
                is_tally(out@, edges, n as nat, ledger_full(hash@, k as nat)),
                forall|h: int, y: usize|
                    0 <= h < i && !s0.contains(y) && #[trigger] adjacent(edges, list@[h], y)
                        ==> hash@.contains(s0.insert(y)),
                forall|h: int|
                    0 <= h < j && !s0.contains(#[trigger] found@[h]) ==> hash@.contains(
                        s0.insert(found@[h]),
                    ),
            decreases found@.len() - j,
        {
            let y = found[j];
            let ghost before = hash@;
            if !s.contains(&y) {
                s.insert(y);
                proof {
                    assert(found@.contains(y));
                    lemma_seed_grows(edges, n as nat, s0, u, y);
                    assert(s0.insert(y).len() == s0.len() + 1);
                    assert forall|p: Set<usize>| #[trigger] waiting.contains(p) implies p.subset_of(
                        s@,
                    ) && p != s@ by {
                        assert(!p.contains(y));
                    }
                }
                if !hash.contains(s) {
                    search_subset(k, net, s, hash, out, Ghost(waiting));
                }
                s.remove(&y);
                proof {
                    assert(s@ =~= s0);
                }
            }
            proof {
                assert forall|h: int, z: usize|
                    0 <= h < i && !s0.contains(z) && #[trigger] adjacent(
                        edges,
                        list@[h],
                        z,
                    ) implies hash@.contains(s0.insert(z)) by {
                    assert(before.contains(s0.insert(z)));
                }
                assert forall|h: int|
                    0 <= h < j + 1 && !s0.contains(#[trigger] found@[h]) implies hash@.contains(
                    s0.insert(found@[h]),
                ) by {
                    if h < j {
                        assert(before.contains(s0.insert(found@[h])));
                    }
                }
            }
            j += 1;
        }
        proof {
            assert forall|h: int, y: usize|
                0 <= h < i + 1 && !s0.contains(y) && #[trigger] adjacent(
                    edges,
                    list@[h],
                    y,
                ) implies hash@.contains(s0.insert(y)) by {
                if h == i {
                    assert(found@.contains(y));
                    let g = choose|g: int| 0 <= g < found@.len() && found@[g] == y;
                    assert(!s0.contains(found@[g]));
                }
            }
        }
        i += 1;
    }
    proof {
        assert(closed_in(hash@, edges, s0)) by {
            assert forall|u: usize, y: usize|
                s0.contains(u) && !s0.contains(y) && #[trigger] adjacent(
                    edges,
                    u,
                    y,
                ) implies hash@.contains(s0.insert(y)) by {
                assert(list@.to_set().contains(u));
                let h = choose|h: int| 0 <= h < list@.len() && list@[h] == u;
                assert(adjacent(edges, list@[h], y));
            }
        }
        assert forall|x: Set<usize>|
            #[trigger] hash@.contains(x) && x.len() < k && !pending.contains(x) implies closed_in(
            hash@,
            edges,
            x,
        ) by {
            if x != s0 {
                assert(!waiting.contains(x));
            }
        }
    }
}

/// The frequencies of the subgraphs of `k` nodes: every connected set of
/// `k` nodes of the network is counted once, under the identity of the
/// subgraph that it induces. The sets are found by extension from their
/// least node.
pub fn enumerate_subgraphs(k: usize, net: &Network) -> (out: BTreeMap<MotifId, usize>)
    requires
        k <= MAXN,
        forall|t: Set<usize>|
            is_motif_set(graph_edges(*net), graph_labels(*net).len(), k as nat, t)
                ==> #[trigger] motif_of(graph_edges(*net), graph_labels(*net).len(), t)
                <= u64::MAX,
        forall|id: u64| #[trigger]
            motif_count(graph_edges(*net), graph_labels(*net).len(), k as nat, id) <= usize::MAX,
    ensures
        out@ == frequency_table(graph_edges(*net), graph_labels(*net).len(), k as nat),
        is_tally(
            out@,
            graph_edges(*net),
            graph_labels(*net).len(),
            motif_sets(graph_edges(*net), graph_labels(*net).len(), k as nat),
        ),
{
    let ghost edges = graph_edges(*net);
    let mut out: BTreeMap<MotifId, usize> = BTreeMap::new();
    let n = node_count(net);
    let ghost all = motif_sets(edges, n as nat, k as nat);
    proof {
        lemma_sets_before_ends(edges, n as nat, k as nat);
        let none = sets_before(edges, n as nat, k as nat, 0);
        assert forall|id: u64|
            {
                let found = count_subsets(n as nat, with_motif(edges, n as nat, none, id));
                &&& #[trigger] count_in(out@, id) == found
                &&& out@.contains_key(id) <==> found > 0
            } by {
            let pick = with_motif(edges, n as nat, none, id);
            assert forall|t: Set<usize>| !#[trigger] pick(t) by {
                assert(!none(t));
            }
            lemma_count_none(n as nat, Set::empty(), pick);
        }
    }
    let mut v: usize = 0;
    while v < n
        invariant
            v <= n,
            k <= MAXN,
            n == graph_labels(*net).len(),
            edges == graph_edges(*net),
            all == motif_sets(edges, n as nat, k as nat),
            forall|t: Set<usize>|
                is_motif_set(edges, n as nat, k as nat, t) ==> #[trigger] motif_of(
                    edges,
                    n as nat,
                    t,
                ) <= u64::MAX,
            forall|id: u64| #[trigger] motif_count(edges, n as nat, k as nat, id) <= usize::MAX,
            is_tally(out@, edges, n as nat, sets_before(edges, n as nat, k as nat, v as nat)),
        decreases n - v,
    {
        let found = neighbors_undirected(net, v);
        let mut v_subgraph: BTreeSet<usize> = BTreeSet::new();
        v_subgraph.insert(v);
        let mut v_subgraph_neighbours: BTreeSet<usize> = BTreeSet::new();
        let mut v_extension: BTreeSet<usize> = BTreeSet::new();
        let mut j: usize = 0;
        while j < found.len()
            invariant
                j <= found@.len(),
                v_extension@.finite(),
                forall|x: usize| #[trigger]
                    v_subgraph_neighbours@.contains(x) <==> listed(found@, j as int, x),
                forall|x: usize| #[trigger]
                    v_extension@.contains(x) <==> x > v && listed(found@, j as int, x),
            decreases found@.len() - j,
        {
            let u = found[j];
            let ghost neighbours_before = v_subgraph_neighbours@;
            let ghost extension_before = v_extension@;
            v_subgraph_neighbours.insert(u);
            if u > v {
                v_extension.insert(u);
            }
            proof {
                assert forall|x: usize| #[trigger]
                    v_subgraph_neighbours@.contains(x) <==> listed(found@, j + 1, x) by {
                    lemma_listed_step(found@, j as int, x);
                    assert(neighbours_before.contains(x) <==> listed(found@, j as int, x));
                }
                assert forall|x: usize| #[trigger]
                    v_extension@.contains(x) <==> x > v && listed(found@, j + 1, x) by {
                    lemma_listed_step(found@, j as int, x);
                    assert(extension_before.contains(x) <==> x > v && listed(
                        found@,
                        j as int,
                        x,
                    ));
                }
            }
            j += 1;
        }
        let ghost before = sets_before(edges, n as nat, k as nat, v as nat);
        let ghost next = sets_before(edges, n as nat, k as nat, (v + 1) as nat);
        let ghost rooted = rooted_sets(edges, n as nat, k as nat, v);
        let ghost domain = extension_domain(
            edges,
            n as nat,
            k as nat,
            v,
            v_subgraph@,
            v_subgraph_neighbours@,
            v_extension@,
        );
        let ghost table = out@;
        proof {
            assert(v_subgraph@ =~= set![v]);
            assert forall|x: usize| v_subgraph_neighbours@.contains(x) <==> adjacent(
                edges,
                v,
                x,
            ) by {
                lemma_listed_all(found@, x);
                assert(found@.contains(x) <==> adjacent(edges, v, x));
                assert(v_subgraph_neighbours@.contains(x) <==> listed(found@, j as int, x));
            }
            assert forall|x: usize| v_extension@.contains(x) <==> adjacent(edges, v, x) && v < x
                < n by {
                lemma_listed_all(found@, x);
                assert(found@.contains(x) <==> adjacent(edges, v, x));
                assert(v_extension@.contains(x) <==> x > v && listed(found@, j as int, x));
                if found@.contains(x) {
                    let i = choose|i: int| 0 <= i < found@.len() && found@[i] == x;
                    assert(found@[i] < n);
                }
            }
            lemma_root_state(
                edges,
                n as nat,
                k as nat,
                v,
                v_subgraph_neighbours@,
                v_extension@,
            );
            lemma_sets_before_step(edges, n as nat, k as nat, v);
            assert forall|t: Set<usize>| #[trigger] domain(t) implies motif_of(edges, n as nat, t)
                <= u64::MAX by {
                assert(domain(t) <==> rooted(t));
            }
            assert forall|id: u64|
                #![trigger count_subsets(n as nat, with_motif(edges, n as nat, domain, id))]
                count_subsets(n as nat, with_motif(edges, n as nat, next, id)) == count_subsets(
                    n as nat,
                    with_motif(edges, n as nat, before, id),
                ) + count_subsets(n as nat, with_motif(edges, n as nat, domain, id))
                    && count_subsets(n as nat, with_motif(edges, n as nat, next, id))
                    <= usize::MAX by {
                let r = with_motif(edges, n as nat, next, id);
                let p = with_motif(edges, n as nat, before, id);
                let q = with_motif(edges, n as nat, domain, id);
                let whole = with_motif(edges, n as nat, all, id);
                assert forall|t: Set<usize>|
                    (#[trigger] r(t) <==> p(t) || q(t)) && !(p(t) && q(t)) by {
                    assert(domain(t) <==> rooted(t));
                    assert((next(t) <==> before(t) || rooted(t)) && !(before(t) && rooted(t)));
                }
                lemma_count_split(n as nat, Set::empty(), r, p, q);
                assert forall|t: Set<usize>| #[trigger] r(t) implies whole(t) by {
                    assert(next(t) ==> is_motif_set(edges, n as nat, k as nat, t));
                }
                lemma_count_monotone(n as nat, Set::empty(), r, whole);
                assert(motif_count(edges, n as nat, k as nat, id) <= usize::MAX);
            }
            assert forall|id: u64|
                count_in(table, id) + #[trigger] count_subsets(
                    n as nat,
                    with_motif(edges, n as nat, domain, id),
                ) <= usize::MAX by {
                assert(count_in(table, id) == count_subsets(
                    n as nat,
                    with_motif(edges, n as nat, before, id),
                ));
            }
        }
        extend_subgraph(k, net, v, v_subgraph, v_subgraph_neighbours, v_extension, &mut out);
        proof {
            assert forall|id: u64|
                {
                    let found = count_subsets(n as nat, with_motif(edges, n as nat, next, id));
                    &&& #[trigger] count_in(out@, id) == found
                    &&& out@.contains_key(id) <==> found > 0
                } by {
                let more = count_subsets(n as nat, with_motif(edges, n as nat, domain, id));
                assert(count_in(table, id) == count_subsets(
                    n as nat,
                    with_motif(edges, n as nat, before, id),
                ));
                assert(table.contains_key(id) <==> count_in(table, id) > 0);
                assert(count_in(out@, id) == count_in(table, id) + more);
                assert(out@.contains_key(id) <==> table.contains_key(id) || more > 0);
            }
        }
        v += 1;
    }
    proof {
        let last = sets_before(edges, n as nat, k as nat, n as nat);
        assert forall|id: u64|
            {
                let found = count_subsets(n as nat, with_motif(edges, n as nat, all, id));
                &&& #[trigger] count_in(out@, id) == found
                &&& out@.contains_key(id) <==> found > 0
            } by {
            let p = with_motif(edges, n as nat, last, id);
            let q = with_motif(edges, n as nat, all, id);
            assert forall|t: Set<usize>| #[trigger] p(t) == q(t) by {
                assert(last(t) <==> is_motif_set(edges, n as nat, k as nat, t));
            }
            lemma_count_same(n as nat, Set::empty(), p, q);
            assert(count_in(out@, id) == count_subsets(n as nat, p));
        }
        assert(is_tally(out@, edges, n as nat, all));
        lemma_tally_is_table(out@, edges, n as nat, all);
    }
    out
}

/// The table `now` holds at least the counts of the table `start`, and the
/// entries of `start` besides those of the identities whose count grew.
pub open spec fn table_grew(start: Map<u64, usize>, now: Map<u64, usize>) -> bool {
    forall|id: u64|
        #![trigger count_in(now, id)]
        count_in(now, id) >= count_in(start, id) && (now.contains_key(id) <==> start.contains_key(
            id,
        ) || count_in(now, id) > count_in(start, id))
}

/// `x` is among the first `j` entries of the list.
pub open spec fn listed(list: Seq<usize>, j: int, x: usize) -> bool {
    exists|i: int| 0 <= i < j && list[i] == x
}

proof fn lemma_listed_step(list: Seq<usize>, j: int, x: usize)
    requires
        0 <= j < list.len(),
    ensures
        listed(list, j + 1, x) <==> listed(list, j, x) || x == list[j],
{
    if listed(list, j, x) {
        let i = choose|i: int| 0 <= i < j && list[i] == x;
        assert(0 <= i < j + 1 && list[i] == x);
    }
    if x == list[j] {
        assert(0 <= j < j + 1 && list[j] == x);
    }
}

proof fn lemma_listed_all(list: Seq<usize>, x: usize)
    ensures
        listed(list, list.len() as int, x) <==> list.contains(x),
{
}

} // verus!
