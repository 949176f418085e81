//! The network model: a directed graph of `petgraph` with string labels on
//! the nodes and small integer weights on the edges, seen through its list
//! of labels and its list of edges.

use petgraph::graph::Graph;
use petgraph::graph::NodeIndex;
use petgraph::Directed;
use std::collections::HashMap;
use vstd::prelude::*;

verus! {

broadcast use vstd::std_specs::hash::group_hash_axioms;

/// The kind of an edge; an absent edge is not stored.
pub type EdgeType = u8;

/// A directed network with labelled nodes and typed edges.
pub type Network = Graph<String, EdgeType, Directed, u32>;

/// An edge as (source, target, weight).
pub type Edge = (usize, usize, u8);

/// `petgraph::graph::Graph`, carried as it is: what a graph holds is told
/// by `graph_labels` and `graph_edges`, through the functions below.
#[verifier::external_type_specification]
#[verifier::external_body]
#[verifier::reject_recursive_types(N)]
#[verifier::reject_recursive_types(E)]
#[verifier::reject_recursive_types(Ty)]
#[verifier::reject_recursive_types(Ix)]
pub struct ExGraph<N, E, Ty, Ix>(Graph<N, E, Ty, Ix>);

/// `petgraph::Directed`, the marker of graphs whose edges have a direction.
#[verifier::external_type_specification]
#[verifier::external_body]
pub struct ExDirected(Directed);

/// The labels of a network's nodes, in index order.
pub uninterp spec fn graph_labels(g: Network) -> Seq<Seq<char>>;

/// The edges of a network as (source, target, weight), in the order of
/// `Graph::raw_edges`.
pub uninterp spec fn graph_edges(g: Network) -> Seq<(usize, usize, u8)>;

/// The most nodes, and the most edges, that a graph indexed by `u32` holds.
pub const INDEX_LIMIT: usize = 0xFFFF_FFFF;

/// The largest capacity that is asked of a new graph in advance.
pub const CAPACITY_LIMIT: usize = 0x10_0000;

/// Every edge of the list ends at nodes below `n`.
pub open spec fn edges_within(edges: Seq<Edge>, n: nat) -> bool {
    forall|i: int| 0 <= i < edges.len() ==> (#[trigger] edges[i]).0 < n && edges[i].1 < n
}

/// Some edge of the list leads from `a` to `b`.
pub open spec fn arc(edges: Seq<Edge>, a: usize, b: usize) -> bool {
    exists|i: int| 0 <= i < edges.len() && (#[trigger] edges[i]).0 == a && edges[i].1 == b
}

/// Some edge of the list joins `a` and `b`, in either direction.
pub open spec fn adjacent(edges: Seq<Edge>, a: usize, b: usize) -> bool {
    arc(edges, a, b) || arc(edges, b, a)
}

/// `Graph::new`: a directed graph without nodes and edges.
#[verifier::external_body]
pub(crate) fn new_network() -> (g: Network)
    ensures
        graph_labels(g) == Seq::<Seq<char>>::empty(),
        graph_edges(g) == Seq::<Edge>::empty(),
{
    Graph::new()
}

/// `Graph::with_capacity`: a graph without nodes and edges, with room for
/// the given numbers of them. The bound keeps the two allocations far below
/// the size at which `Vec::with_capacity` gives up.
#[verifier::external_body]
pub(crate) fn with_capacity(nodes: usize, edges: usize) -> (g: Network)
    requires
        nodes <= CAPACITY_LIMIT,
        edges <= CAPACITY_LIMIT,
    ensures
        graph_labels(g) == Seq::<Seq<char>>::empty(),
        graph_edges(g) == Seq::<Edge>::empty(),
{
    Graph::with_capacity(nodes, edges)
}

/// `Graph::node_count`: the number of nodes, which is the number of labels.
/// A graph indexed by `u32` refuses a node once it holds `INDEX_LIMIT`.
#[verifier::external_body]
pub(crate) fn node_count(g: &Network) -> (n: usize)
    ensures
        n == graph_labels(*g).len(),
        n <= INDEX_LIMIT,
{
    g.node_count()
}

/// `Graph::add_node`: appends a node with the given label and returns its
/// index; the edges stay. It panics only on a graph that is full.
#[verifier::external_body]
pub(crate) fn add_node(g: &mut Network, label: String) -> (index: usize)
    requires
        graph_labels(*old(g)).len() < INDEX_LIMIT,
    ensures
        index == graph_labels(*old(g)).len(),
        graph_labels(*final(g)) == graph_labels(*old(g)).push(label@),
        graph_edges(*final(g)) == graph_edges(*old(g)),
{
    g.add_node(label).index()
}

/// `Graph::add_edge`: appends an edge from `a` to `b`; parallel edges are
/// kept, the nodes stay. It panics where a node is missing or the graph
/// holds `INDEX_LIMIT` edges.
#[verifier::external_body]
pub(crate) fn add_edge(g: &mut Network, a: usize, b: usize, weight: EdgeType) -> (index: usize)
    requires
        a < graph_labels(*old(g)).len(),
        b < graph_labels(*old(g)).len(),
        graph_edges(*old(g)).len() < INDEX_LIMIT,
    ensures
        index == graph_edges(*old(g)).len(),
        graph_edges(*final(g)) == graph_edges(*old(g)).push((a, b, weight)),
        graph_labels(*final(g)) == graph_labels(*old(g)),
{
    g.add_edge(NodeIndex::new(a), NodeIndex::new(b), weight).index()
}

/// Indexing a graph by a node: the node's label, copied.
#[verifier::external_body]
pub(crate) fn node_label(g: &Network, a: usize) -> (label: String)
    requires
        a < graph_labels(*g).len(),
    ensures
        label@ == graph_labels(*g)[a as int],
{
    g[NodeIndex::new(a)].clone()
}

/// `Graph::raw_edges`: the edges in index order, each as (source, target,
/// weight). Both ends of every edge are nodes of the graph, and there are
/// at most `INDEX_LIMIT` edges.
#[verifier::external_body]
pub(crate) fn raw_edges(g: &Network) -> (edges: Vec<Edge>)
    ensures
        edges@ == graph_edges(*g),
        edges_within(edges@, graph_labels(*g).len()),
        edges@.len() <= INDEX_LIMIT,
{
    g.raw_edges().iter().map(|e| (e.source().index(), e.target().index(), e.weight)).collect()
}

/// `Graph::neighbors_undirected`: the nodes that an edge joins to `a`, in
/// either direction. A neighbour may be listed more than once; `a` itself
/// is listed where it has an edge to itself. All are nodes of the graph.
#[verifier::external_body]
pub(crate) fn neighbors_undirected(g: &Network, a: usize) -> (found: Vec<usize>)
    requires
        a < graph_labels(*g).len(),
    ensures
        forall|u: usize| found@.contains(u) <==> adjacent(graph_edges(*g), a, u),
        forall|i: int| 0 <= i < found@.len() ==> found@[i] < graph_labels(*g).len(),
{
    g.neighbors_undirected(NodeIndex::new(a)).map(|u| u.index()).collect()
}

/// Where `x` stands in the list `ns`: its last place, if it has any.
pub open spec fn position(ns: Seq<usize>, x: usize) -> Option<int>
    decreases ns.len(),
{
    if ns.len() == 0 {
        None
    } else if ns.last() == x {
        Some(ns.len() - 1)
    } else {
        position(ns.drop_last(), x)
    }
}

/// The edges that run between listed nodes, in their old order, each with
/// its ends replaced by their places in the list.
pub open spec fn induced_edges(edges: Seq<Edge>, ns: Seq<usize>) -> Seq<Edge>
    decreases edges.len(),
{
    if edges.len() == 0 {
        Seq::empty()
    } else {
        let rest = induced_edges(edges.drop_last(), ns);
        let e = edges.last();
        match (position(ns, e.0), position(ns, e.1)) {
            (Some(a), Some(b)) => rest.push((a as usize, b as usize, e.2)),
            _ => rest,
        }
    }
}

/// The labels of the listed nodes, in the list's order.
pub open spec fn selected_labels(labels: Seq<Seq<char>>, ns: Seq<usize>) -> Seq<Seq<char>> {
    Seq::new(ns.len(), |i: int| labels[ns[i] as int])
}

/// A place that `position` gives lies in the list and holds the node.
pub proof fn lemma_position_found(ns: Seq<usize>, x: usize)
    ensures
        match position(ns, x) {
            Some(p) => 0 <= p < ns.len() && ns[p] == x,
            None => !ns.contains(x),
        },
    decreases ns.len(),
{
    if ns.len() > 0 && ns.last() != x {
        lemma_position_found(ns.drop_last(), x);
        if position(ns, x) is None {
            assert forall|i: int| 0 <= i < ns.len() implies ns[i] != x by {
                if i < ns.len() - 1 {
                    assert(ns.drop_last()[i] == ns[i]);
                }
            }
        }
    }
}

/// In a list without repetition every node stands at its own place.
pub proof fn lemma_position_unique(ns: Seq<usize>, i: int)
    requires
        ns.no_duplicates(),
        0 <= i < ns.len(),
    ensures
        position(ns, ns[i]) == Some(i),
{
    lemma_position_found(ns, ns[i]);
}

/// The edge `e` runs between listed nodes and becomes the edge `to`.
pub open spec fn carried_to(ns: Seq<usize>, e: Edge, to: Edge) -> bool {
    &&& position(ns, e.0) == Some(to.0 as int)
    &&& position(ns, e.1) == Some(to.1 as int)
    &&& e.2 == to.2
}

/// The induced edges are what the edges between listed nodes become.
pub proof fn lemma_induced_members(edges: Seq<Edge>, ns: Seq<usize>, to: Edge)
    requires
        ns.len() <= usize::MAX,
    ensures
        induced_edges(edges, ns).contains(to) <==> exists|i: int|
            0 <= i < edges.len() && carried_to(ns, #[trigger] edges[i], to),
    decreases edges.len(),
{
    let list = induced_edges(edges, ns);
    if edges.len() > 0 {
        let rest = edges.drop_last();
        let short = induced_edges(rest, ns);
        let e = edges.last();
        lemma_induced_members(rest, ns, to);
        lemma_position_found(ns, e.0);
        lemma_position_found(ns, e.1);
        if list.contains(to) {
            let j = choose|j: int| 0 <= j < list.len() && list[j] == to;
            if j < short.len() {
                assert(short[j] == to);
                assert(short.contains(to));
                let i = choose|i: int|
                    0 <= i < rest.len() && carried_to(ns, #[trigger] rest[i], to);
                assert(edges[i] == rest[i]);
            } else {
                assert(carried_to(ns, edges[edges.len() - 1], to));
            }
        }
        if exists|i: int| 0 <= i < edges.len() && carried_to(ns, #[trigger] edges[i], to) {
            let i = choose|i: int| 0 <= i < edges.len() && carried_to(ns, #[trigger] edges[i], to);
            if i < rest.len() {
                assert(rest[i] == edges[i]);
                assert(short.contains(to));
                let j = choose|j: int| 0 <= j < short.len() && short[j] == to;
                assert(list[j] == to);
            } else {
                assert(list[list.len() - 1] == to);
            }
        }
    }
}

/// The induced edges end at places of the list.
pub proof fn lemma_induced_within(edges: Seq<Edge>, ns: Seq<usize>)
    requires
        ns.len() <= usize::MAX,
    ensures
        edges_within(induced_edges(edges, ns), ns.len()),
        induced_edges(edges, ns).len() <= edges.len(),
    decreases edges.len(),
{
    if edges.len() > 0 {
        lemma_induced_within(edges.drop_last(), ns);
        lemma_position_found(ns, edges.last().0);
        lemma_position_found(ns, edges.last().1);
    }
}

/// Networks from which an induced subnetwork can be taken.
pub trait SubNetwork {
    /// The labels of the nodes, in index order.
    spec fn labels(&self) -> Seq<Seq<char>>;

    /// The edges as (source, target, weight).
    spec fn edges(&self) -> Seq<Edge>;

    /// The subnetwork induced by the listed nodes: a network of its own
    /// whose node `i` is the node `ns[i]` of this one, with exactly the
    /// edges that run between listed nodes.
    fn subnet(&self, ns: &[usize]) -> (sub: Network)
        requires
            ns@.len() <= INDEX_LIMIT,
            forall|i: int| 0 <= i < ns@.len() ==> ns@[i] < self.labels().len(),
        ensures
            graph_labels(sub) == selected_labels(self.labels(), ns@),
            graph_edges(sub) == induced_edges(self.edges(), ns@),
    ;
}

/// The table holds for every listed node its place in the list, and
/// nothing for any other node.
pub open spec fn is_place_table(table: Map<usize, usize>, ns: Seq<usize>) -> bool {
    forall|x: usize|
        match #[trigger] position(ns, x) {
            Some(p) => table.contains_key(x) && table[x] == p,
            None => !table.contains_key(x),
        }
}

/// For every listed node its place in the list.
fn places_of(ns: &[usize]) -> (old_to_new: HashMap<usize, usize>)
    ensures
        is_place_table(old_to_new@, ns@),
{
    let mut old_to_new: HashMap<usize, usize> = HashMap::new();
    let mut i: usize = 0;
    while i < ns.len()
        invariant
            i <= ns@.len(),
            is_place_table(old_to_new@, ns@.take(i as int)),
        decreases ns@.len() - i,
    {
        proof {
            assert(ns@.take(i + 1).drop_last() == ns@.take(i as int));
        }
        let ghost before = old_to_new@;
        old_to_new.insert(ns[i], i);
        proof {
            assert forall|x: usize|
                match #[trigger] position(ns@.take(i + 1), x) {
                    Some(p) => old_to_new@.contains_key(x) && old_to_new@[x] == p,
                    None => !old_to_new@.contains_key(x),
                } by {
                if x != ns@[i as int] {
                    assert(position(ns@.take(i + 1), x) == position(ns@.take(i as int), x));
                }
            }
        }
        i += 1;
    }
    proof {
        assert(ns@.take(i as int) == ns@);
    }
    old_to_new
}

impl SubNetwork for Network {
    open spec fn labels(&self) -> Seq<Seq<char>> {
        graph_labels(*self)
    }

    open spec fn edges(&self) -> Seq<Edge> {
        graph_edges(*self)
    }

    fn subnet(&self, ns: &[usize]) -> (sub: Network) {
        let count = ns.len();
        let hint = if count <= CAPACITY_LIMIT / 2 { count } else { CAPACITY_LIMIT / 2 };
        let mut sub = with_capacity(hint, hint * 2);
        let mut i: usize = 0;
        while i < count
            invariant
                i <= count,
                count == ns@.len(),
                count <= INDEX_LIMIT,
                forall|j: int| 0 <= j < ns@.len() ==> ns@[j] < graph_labels(*self).len(),
                graph_labels(sub) == selected_labels(graph_labels(*self), ns@.take(i as int)),
                graph_edges(sub) == Seq::<Edge>::empty(),
            decreases count - i,
        {
            let label = node_label(self, ns[i]);
            add_node(&mut sub, label);
            i += 1;
            proof {
                assert(graph_labels(sub) == selected_labels(
                    graph_labels(*self),
                    ns@.take(i as int),
                ));
            }
        }
        proof {
            assert(ns@.take(i as int) == ns@);
        }
        let old_to_new = places_of(ns);
        let parent = raw_edges(self);
        let mut e: usize = 0;
        while e < parent.len()
            invariant
                e <= parent@.len(),
                parent@ == graph_edges(*self),
                parent@.len() <= INDEX_LIMIT,
                is_place_table(old_to_new@, ns@),
                graph_labels(sub) == selected_labels(graph_labels(*self), ns@),
                graph_edges(sub) == induced_edges(parent@.take(e as int), ns@),
                graph_edges(sub).len() <= e,
            decreases parent@.len() - e,
        {
            let (a, b, weight) = parent[e];
            proof {
                assert(parent@.take(e + 1).drop_last() == parent@.take(e as int));
                lemma_position_found(ns@, a);
                lemma_position_found(ns@, b);
            }
            match (old_to_new.get(&a), old_to_new.get(&b)) {
                (Some(from), Some(to)) => {
                    add_edge(&mut sub, *from, *to, weight);
                },
                _ => {},
            }
            e += 1;
        }
        proof {
            assert(parent@.take(e as int) == parent@);
        }
        sub
    }
}

/// The labels of the sixteen-node network of `network_from_paper`.
pub open spec fn paper_labels() -> Seq<Seq<char>> {
    seq![
        "1"@,
        "2"@,
        "3"@,
        "4"@,
        "5"@,
        "6"@,
        "7"@,
        "8"@,
        "9"@,
        "10"@,
        "11"@,
        "12"@,
        "13"@,
        "14"@,
        "15"@,
        "16"@,
    ]
}

/// The edges of the sixteen-node network of `network_from_paper`.
pub open spec fn paper_edges() -> Seq<Edge> {
    seq![
        (0usize, 15usize, 1u8),
        (1usize, 0usize, 1u8),
        (2usize, 11usize, 1u8),
        (2usize, 12usize, 1u8),
        (3usize, 9usize, 1u8),
        (3usize, 10usize, 1u8),
        (4usize, 5usize, 1u8),
        (4usize, 9usize, 1u8),
        (4usize, 12usize, 1u8),
        (5usize, 8usize, 1u8),
        (5usize, 9usize, 1u8),
        (6usize, 7usize, 1u8),
        (7usize, 0usize, 1u8),
        (7usize, 1usize, 1u8),
        (9usize, 10usize, 1u8),
        (12usize, 11usize, 1u8),
        (14usize, 13usize, 1u8),
        (15usize, 13usize, 1u8),
        (15usize, 14usize, 1u8),
    ]
}

/// The network of figure 2 of Milo et al., "Network Motifs: Simple
/// Building Blocks of Complex Networks" (2002), rich in feed-forward loops.
pub fn network_from_paper() -> (net: Network)
    ensures
        graph_labels(net) == paper_labels(),
        graph_edges(net) == paper_edges(),
{
    let mut net = new_network();
    let a = add_node(&mut net, "1".to_owned());
    let b = add_node(&mut net, "2".to_owned());
    let c = add_node(&mut net, "3".to_owned());
    let d = add_node(&mut net, "4".to_owned());
    let e = add_node(&mut net, "5".to_owned());
    let f = add_node(&mut net, "6".to_owned());
    let g = add_node(&mut net, "7".to_owned());
    let h = add_node(&mut net, "8".to_owned());
    let i = add_node(&mut net, "9".to_owned());
    let j = add_node(&mut net, "10".to_owned());
    let k = add_node(&mut net, "11".to_owned());
    let l = add_node(&mut net, "12".to_owned());
    let m = add_node(&mut net, "13".to_owned());
    let n = add_node(&mut net, "14".to_owned());
    let o = add_node(&mut net, "15".to_owned());
    let p = add_node(&mut net, "16".to_owned());
    proof {
        assert(graph_labels(net) =~= paper_labels());
    }

    add_edge(&mut net, a, p, 1);

    add_edge(&mut net, b, a, 1);

    add_edge(&mut net, c, l, 1);
    add_edge(&mut net, c, m, 1);

    add_edge(&mut net, d, j, 1);
    add_edge(&mut net, d, k, 1);

    add_edge(&mut net, e, f, 1);
    add_edge(&mut net, e, j, 1);
    add_edge(&mut net, e, m, 1);

    add_edge(&mut net, f, i, 1);
    add_edge(&mut net, f, j, 1);

    add_edge(&mut net, g, h, 1);

    add_edge(&mut net, h, a, 1);
    add_edge(&mut net, h, b, 1);

    add_edge(&mut net, j, k, 1);

    add_edge(&mut net, m, l, 1);

    add_edge(&mut net, o, n, 1);

    add_edge(&mut net, p, n, 1);
    add_edge(&mut net, p, o, 1);
    proof {
        assert(graph_edges(net) =~= paper_edges());
    }
    net
}

} // verus!
