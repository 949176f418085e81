//! Canonical labelling of small directed graphs.
//!
//! A graph of at most `MAXN` nodes is held densely, one machine word of
//! adjacency bits per node. Every numbering of its nodes has a rank; the
//! canonical labelling is the numbering of least rank, found by trying them
//! all. The work grows with the factorial of the node count, which suits
//! the handful of nodes of a motif.

use crate::lex::as_ints;
use crate::lex::lemma_lex_antisymmetric;
use crate::lex::lemma_lex_le_transitive;
use crate::lex::lemma_lex_total;
use crate::lex::lex_le;
use crate::lex::lex_less;
use crate::network::arc;
use crate::network::edges_within;
use crate::network::graph_edges;
use crate::network::graph_labels;
use crate::network::induced_edges;
use crate::network::node_count;
use crate::network::raw_edges;
use crate::network::selected_labels;
use crate::network::Edge;
use crate::network::Network;
use crate::network::SubNetwork;
use vstd::arithmetic::power2::lemma2_to64;
use vstd::arithmetic::power2::lemma_pow2_strictly_increases;
use vstd::arithmetic::power2::lemma_pow2_unfold;
use vstd::arithmetic::power2::pow2;
use vstd::prelude::*;

verus! {

/// The most nodes that a graph to be labelled may have.
pub const MAXN: usize = 32;

/// The number of adjacency bits in a row of a dense graph.
pub const WORDSIZE: usize = 64;

/// What a labelling run is asked to do.
#[derive(Clone, Copy, Debug)]
pub struct Options {
    /// Look for the canonical labelling; without it the nodes keep their order.
    pub getcanon: bool,
    /// Read the rows as arcs with a direction; without it an arc joins its
    /// ends both ways.
    pub digraph: bool,
}

/// The options for a graph without directions.
pub fn default_options_graph() -> (options: Options)
    ensures
        !options.getcanon,
        !options.digraph,
{
    Options { getcanon: false, digraph: false }
}

/// The options for a directed graph.
pub fn default_options_digraph() -> (options: Options)
    ensures
        !options.getcanon,
        options.digraph,
{
    let plain = default_options_graph();
    Options { digraph: true, ..plain }
}

/// The word with only the bit of column `n` set; column 0 is the top bit.
pub open spec fn bit_of(n: usize) -> u64 {
    1u64 << ((63 - n) as u64)
}

/// The dense graph `g` has an arc from `a` to `b`.
pub open spec fn dense_arc(g: Seq<u64>, a: usize, b: usize) -> bool {
    a < g.len() && b < WORDSIZE && g[a as int] & bit_of(b) != 0
}

/// The relation that a dense graph stands for under the given reading.
pub open spec fn dense_relation(g: Seq<u64>, digraph: bool) -> spec_fn(usize, usize) -> bool {
    |a: usize, b: usize| dense_arc(g, a, b) || (!digraph && dense_arc(g, b, a))
}

/// The relation of a list of edges: whether some edge leads from one node
/// to the other.
pub open spec fn arcs_of(edges: Seq<Edge>) -> spec_fn(usize, usize) -> bool {
    |a: usize, b: usize| arc(edges, a, b)
}

/// The word with only the bit of column `n` set.
pub fn bit(n: usize) -> (word: u64)
    requires
        n < WORDSIZE,
    ensures
        word == bit_of(n),
{
    let shift: u64 = (WORDSIZE - 1 - n) as u64;
    1u64 << shift
}

/// Adds the arc from `v` to `w` to a dense graph.
pub fn add_one_arc(g: &mut Vec<u64>, v: usize, w: usize)
    requires
        v < old(g)@.len(),
        w < WORDSIZE,
    ensures
        final(g)@ == old(g)@.update(v as int, old(g)@[v as int] | bit_of(w)),
        forall|a: usize, b: usize|
            dense_arc(final(g)@, a, b) <==> dense_arc(old(g)@, a, b) || (a == v && b == w),
{
    let word = g[v] | bit(w);
    proof {
        let row = g@[v as int];
        assert forall|b: usize| b < WORDSIZE implies ((row | bit_of(w)) & bit_of(b) != 0 <==> row
            & bit_of(b) != 0 || b == w) by {
            lemma_bit_added(row, w as u64, b as u64);
        }
    }
    g.set(v, word);
}

/// Setting the bit of one column shows in that column and in no other.
proof fn lemma_bit_added(row: u64, w: u64, b: u64)
    requires
        w < 64,
        b < 64,
    ensures
        ((row | (1u64 << ((63 - w) as u64))) & (1u64 << ((63 - b) as u64)) != 0) <==> (row & (1u64
            << ((63 - b) as u64)) != 0 || b == w),
{
    assert(((row | (1u64 << ((63 - w) as u64))) & (1u64 << ((63 - b) as u64)) != 0) <==> (row & (
    1u64 << ((63 - b) as u64)) != 0 || b == w)) by (bit_vector)
        requires
            w < 64,
            b < 64,
    ;
}

/// A dense graph of `MAXN` rows without arcs.
pub fn empty_dense() -> (g: Vec<u64>)
    ensures
        g@ == Seq::new(MAXN as nat, |i: int| 0u64),
        forall|a: usize, b: usize| !dense_arc(g@, a, b),
{
    let mut g: Vec<u64> = Vec::new();
    let mut i: usize = 0;
    while i < MAXN
        invariant
            i <= MAXN,
            g@.len() == i,
            forall|a: int| 0 <= a < i ==> g@[a] == 0,
        decreases MAXN - i,
    {
        g.push(0);
        i += 1;
    }
    proof {
        assert(g@ =~= Seq::new(MAXN as nat, |i: int| 0u64));
        assert forall|a: usize, b: usize| !dense_arc(g@, a, b) by {
            if a < g@.len() && b < WORDSIZE {
                lemma_no_bit(b as u64);
            }
        }
    }
    g
}

/// The empty row has no bit set.
proof fn lemma_no_bit(b: u64)
    requires
        b < 64,
    ensures
        0u64 & (1u64 << ((63 - b) as u64)) == 0,
{
    assert(0u64 & (1u64 << ((63 - b) as u64)) == 0) by (bit_vector);
}

/// A numbering of `n` nodes: every entry is a node, and none comes twice.
pub open spec fn is_numbering(lab: Seq<usize>, n: nat) -> bool {
    &&& lab.len() == n
    &&& forall|i: int| 0 <= i < n ==> lab[i] < n
    &&& lab.no_duplicates()
}

/// The numbering under which every node keeps its index.
pub open spec fn identity_numbering(n: nat) -> Seq<usize> {
    Seq::new(n, |i: int| i as usize)
}

/// The first `c` arcs of row `i` under the numbering `lab`, read as a
/// binary number: the arc to the last position is the top bit, then the one
/// to the position before it, and so on.
pub open spec fn row_value(
    rel: spec_fn(usize, usize) -> bool,
    lab: Seq<usize>,
    i: int,
    c: nat,
) -> int
    decreases c,
{
    if c == 0 {
        0
    } else {
        2 * row_value(rel, lab, i, (c - 1) as nat) + if rel(lab[i], lab[lab.len() - c]) {
            1int
        } else {
            0int
        }
    }
}

/// The rank of a numbering: the values of its rows from the first position
/// on, then the numbering itself. Numberings are ordered by rank.
pub open spec fn rank(rel: spec_fn(usize, usize) -> bool, lab: Seq<usize>) -> Seq<int> {
    Seq::new(
        2 * lab.len(),
        |p: int|
            if p < lab.len() {
                row_value(rel, lab, p, lab.len())
            } else {
                lab[p - lab.len()] as int
            },
    )
}

/// `lab` is the canonical labelling of the relation on `n` nodes: the
/// numbering whose rank no other numbering undercuts. Entry `i` is the node
/// that takes position `i`.
pub open spec fn is_canonical(rel: spec_fn(usize, usize) -> bool, n: nat, lab: Seq<usize>) -> bool {
    &&& is_numbering(lab, n)
    &&& forall|q: Seq<usize>| is_numbering(q, n) ==> lex_le(rank(rel, lab), #[trigger] rank(rel, q))
}

/// A row of `c` arcs is a number of `c` bits.
pub proof fn lemma_row_value_bound(
    rel: spec_fn(usize, usize) -> bool,
    lab: Seq<usize>,
    i: int,
    c: nat,
)
    ensures
        0 <= row_value(rel, lab, i, c) < pow2(c),
    decreases c,
{
    if c == 0 {
        lemma2_to64();
    } else {
        lemma_row_value_bound(rel, lab, i, (c - 1) as nat);
        lemma_pow2_unfold(c);
    }
}

/// Two relations that agree on the nodes below `n` give every numbering of
/// those nodes the same rank.
pub proof fn lemma_rank_agrees(
    r1: spec_fn(usize, usize) -> bool,
    r2: spec_fn(usize, usize) -> bool,
    n: nat,
    lab: Seq<usize>,
)
    requires
        is_numbering(lab, n),
        forall|a: usize, b: usize| a < n && b < n ==> #[trigger] r1(a, b) == r2(a, b),
    ensures
        rank(r1, lab) == rank(r2, lab),
{
    assert forall|p: int| 0 <= p < n implies row_value(r1, lab, p, n) == row_value(
        r2,
        lab,
        p,
        n,
    ) by {
        lemma_row_agrees(r1, r2, n, lab, p, n);
    }
    assert(rank(r1, lab) =~= rank(r2, lab));
}

proof fn lemma_row_agrees(
    r1: spec_fn(usize, usize) -> bool,
    r2: spec_fn(usize, usize) -> bool,
    n: nat,
    lab: Seq<usize>,
    i: int,
    c: nat,
)
    requires
        is_numbering(lab, n),
        0 <= i < n,
        c <= n,
        forall|a: usize, b: usize| a < n && b < n ==> #[trigger] r1(a, b) == r2(a, b),
    ensures
        row_value(r1, lab, i, c) == row_value(r2, lab, i, c),
    decreases c,
{
    if c > 0 {
        lemma_row_agrees(r1, r2, n, lab, i, (c - 1) as nat);
    }
}

/// A relation has one canonical labelling.
pub proof fn lemma_canonical_unique(
    rel: spec_fn(usize, usize) -> bool,
    n: nat,
    a: Seq<usize>,
    b: Seq<usize>,
)
    requires
        is_canonical(rel, n, a),
        is_canonical(rel, n, b),
    ensures
        a == b,
{
    lemma_lex_antisymmetric(rank(rel, a), rank(rel, b));
    assert forall|i: int| 0 <= i < n implies a[i] == b[i] by {
        assert(rank(rel, a)[n + i] == rank(rel, b)[n + i]);
    }
    assert(a =~= b);
}

/// Whether position `a` is joined to position `b` in the dense graph.
fn joined(g: &Vec<u64>, options: &Options, a: usize, b: usize) -> (yes: bool)
    requires
        a < g@.len(),
        b < g@.len(),
        g@.len() <= WORDSIZE,
    ensures
        yes == dense_relation(g@, options.digraph)(a, b),
{
    if g[a] & bit(b) != 0 {
        true
    } else if options.digraph {
        false
    } else {
        g[b] & bit(a) != 0
    }
}

/// The rank of the numbering `lab` of the first `n` nodes of `g`.
fn rank_of(g: &Vec<u64>, n: usize, options: &Options, lab: &Vec<usize>) -> (found: Vec<u64>)
    requires
        n <= MAXN,
        n <= g@.len() <= WORDSIZE,
        is_numbering(lab@, n as nat),
    ensures
        as_ints(found@) == rank(dense_relation(g@, options.digraph), lab@),
{
    let ghost rel = dense_relation(g@, options.digraph);
    let mut found: Vec<u64> = Vec::new();
    let mut i: usize = 0;
    while i < n
        invariant
            i <= n,
            n <= MAXN,
            n <= g@.len() <= WORDSIZE,
            is_numbering(lab@, n as nat),
            rel == dense_relation(g@, options.digraph),
            found@.len() == i,
            forall|p: int| 0 <= p < i ==> found@[p] as int == row_value(rel, lab@, p, n as nat),
        decreases n - i,
    {
        let mut row: u64 = 0;
        let mut c: usize = 0;
        while c < n
            invariant
                c <= n,
                i < n,
                n <= MAXN,
                n <= g@.len() <= WORDSIZE,
                is_numbering(lab@, n as nat),
                rel == dense_relation(g@, options.digraph),
                row as int == row_value(rel, lab@, i as int, c as nat),
            decreases n - c,
        {
            proof {
                lemma_row_value_bound(rel, lab@, i as int, c as nat);
                lemma_row_value_bound(rel, lab@, i as int, (c + 1) as nat);
                lemma2_to64();
                if c + 1 < 32 {
                    lemma_pow2_strictly_increases((c + 1) as nat, 32);
                }
            }
            let digit: u64 = if joined(g, options, lab[i], lab[n - c - 1]) {
                1
            } else {
                0
            };
            row = 2 * row + digit;
            c += 1;
        }
        found.push(row);
        i += 1;
    }
    let mut j: usize = 0;
    while j < n
        invariant
            j <= n,
            lab@.len() == n,
            found@.len() == n + j,
            forall|p: int| 0 <= p < n ==> found@[p] as int == row_value(rel, lab@, p, n as nat),
            forall|p: int| 0 <= p < j ==> found@[n + p] as int == lab@[p] as int,
        decreases n - j,
    {
        found.push(lab[j] as u64);
        j += 1;
    }
    proof {
        assert(as_ints(found@) =~= rank(rel, lab@));
    }
    found
}

/// Tries every numbering that begins with `prefix` and keeps in `best` the
/// one of least rank among them and the numbering that `best` held.
fn search(
    g: &Vec<u64>,
    n: usize,
    options: &Options,
    prefix: &mut Vec<usize>,
    used: &mut Vec<bool>,
    best: &mut Vec<usize>,
    best_rank: &mut Vec<u64>,
)
    requires
        n <= MAXN,
        n <= g@.len() <= WORDSIZE,
        old(prefix)@.len() <= n,
        old(prefix)@.no_duplicates(),
        forall|i: int| 0 <= i < old(prefix)@.len() ==> old(prefix)@[i] < n,
        old(used)@.len() == n,
        forall|v: int| 0 <= v < n ==> (old(used)@[v] <==> old(prefix)@.contains(v as usize)),
        is_numbering(old(best)@, n as nat),
        as_ints(old(best_rank)@) == rank(dense_relation(g@, options.digraph), old(best)@),
    ensures
        final(prefix)@ == old(prefix)@,
        final(used)@ == old(used)@,
        is_numbering(final(best)@, n as nat),
        as_ints(final(best_rank)@) == rank(dense_relation(g@, options.digraph), final(best)@),
        lex_le(
            rank(dense_relation(g@, options.digraph), final(best)@),
            rank(dense_relation(g@, options.digraph), old(best)@),
        ),
        forall|q: Seq<usize>|
            is_numbering(q, n as nat) && q.take(old(prefix)@.len() as int) == old(prefix)@
                ==> lex_le(
                rank(dense_relation(g@, options.digraph), final(best)@),
                #[trigger] rank(dense_relation(g@, options.digraph), q),
            ),
    decreases n - old(prefix)@.len(),
{
    let ghost rel = dense_relation(g@, options.digraph);
    let ghost first_best = best@;
    let ghost start = prefix@;
    let ghost marks = used@;
    let depth = prefix.len();
    if depth == n {
        let found = rank_of(g, n, options, prefix);
        proof {
            assert(as_ints(found@).len() == found@.len());
            assert(as_ints(best_rank@).len() == best_rank@.len());
            lemma_lex_total(as_ints(found@), as_ints(best_rank@));
            assert forall|q: Seq<usize>|
                is_numbering(q, n as nat) && q.take(depth as int) == start implies q == start by {
                assert(q.take(depth as int) =~= q);
            }
        }
        if lex_less(&found, best_rank) {
            *best = prefix.clone();
            *best_rank = found;
        }
        return ;
    }
    let mut v: usize = 0;
    while v < n
        invariant
            v <= n,
            n <= MAXN,
            n <= g@.len() <= WORDSIZE,
            depth < n,
            depth == old(prefix)@.len(),
            rel == dense_relation(g@, options.digraph),
            prefix@ == start,
            used@ == marks,
            start.len() == depth,
            start.no_duplicates(),
            forall|i: int| 0 <= i < start.len() ==> start[i] < n,
            marks.len() == n,
            forall|u: int| 0 <= u < n ==> (marks[u] <==> start.contains(u as usize)),
            is_numbering(best@, n as nat),
            as_ints(best_rank@) == rank(rel, best@),
            lex_le(rank(rel, best@), rank(rel, first_best)),
            forall|q: Seq<usize>|
                is_numbering(q, n as nat) && q.take(depth as int) == start && q[depth as int] < v
                    ==> lex_le(rank(rel, best@), #[trigger] rank(rel, q)),
        decreases n - v,
    {
        let ghost before = best@;
        if !used[v] {
            prefix.push(v);
            used.set(v, true);
            proof {
                let longer = prefix@;
                assert forall|i: int, j: int|
                    0 <= i < longer.len() && 0 <= j < longer.len() && i != j implies longer[i]
                    != longer[j] by {
                    if i < depth {
                        assert(start[i] == longer[i]);
                    }
                    if j < depth {
                        assert(start[j] == longer[j]);
                    }
                }
                assert forall|u: int| 0 <= u < n implies (used@[u] <==> longer.contains(
                    u as usize,
                )) by {
                    if longer.contains(u as usize) {
                        let i = choose|i: int| 0 <= i < longer.len() && longer[i] == u as usize;
                        if i < depth {
                            assert(start[i] == u as usize);
                        }
                    }
                    if marks[u] {
                        let i = choose|i: int| 0 <= i < start.len() && start[i] == u as usize;
                        assert(longer[i] == u as usize);
                    }
                    if u == v {
                        assert(longer[depth as int] == v);
                    }
                }
            }
            search(g, n, options, prefix, used, best, best_rank);
            prefix.pop();
            used.set(v, false);
            proof {
                assert(prefix@ =~= start);
                assert(used@ =~= marks);
                lemma_lex_le_transitive(rank(rel, best@), rank(rel, before), rank(rel, first_best));
                assert forall|q: Seq<usize>|
                    is_numbering(q, n as nat) && q.take(depth as int) == start && q[depth as int]
                        < v + 1 implies lex_le(rank(rel, best@), #[trigger] rank(rel, q)) by {
                    if q[depth as int] < v {
                        lemma_lex_le_transitive(rank(rel, best@), rank(rel, before), rank(rel, q));
                    } else {
                        assert(q.take(depth + 1) =~= start.push(v));
                    }
                }
            }
        } else {
            proof {
                assert forall|q: Seq<usize>|
                    is_numbering(q, n as nat) && q.take(depth as int) == start && q[depth as int]
                        < v + 1 implies lex_le(rank(rel, best@), #[trigger] rank(rel, q)) by {
                    if q[depth as int] == v {
                        let i = choose|i: int| 0 <= i < start.len() && start[i] == v;
                        assert(q.take(depth as int)[i] == q[i]);
                    }
                }
            }
        }
        v += 1;
    }
}

/// The labelling of the first `n` nodes of a dense graph: the canonical
/// one where the options ask for it, else the nodes in their own order.
pub fn dense_labelling(g: &Vec<u64>, n: usize, options: &Options) -> (lab: Vec<usize>)
    requires
        n <= MAXN,
        n <= g@.len() <= WORDSIZE,
    ensures
        options.getcanon ==> is_canonical(dense_relation(g@, options.digraph), n as nat, lab@),
        !options.getcanon ==> lab@ == identity_numbering(n as nat),
{
    let mut lab: Vec<usize> = Vec::new();
    let mut used: Vec<bool> = Vec::new();
    let mut i: usize = 0;
    while i < n
        invariant
            i <= n,
            lab@ == identity_numbering(i as nat),
            used@.len() == i,
            forall|v: int| 0 <= v < i ==> !used@[v],
        decreases n - i,
    {
        lab.push(i);
        used.push(false);
        i += 1;
        proof {
            assert(lab@ =~= identity_numbering(i as nat));
        }
    }
    if !options.getcanon {
        return lab;
    }
    let mut prefix: Vec<usize> = Vec::new();
    let mut best_rank = rank_of(g, n, options, &lab);
    search(g, n, options, &mut prefix, &mut used, &mut lab, &mut best_rank);
    proof {
        let rel = dense_relation(g@, options.digraph);
        assert forall|q: Seq<usize>| is_numbering(q, n as nat) implies lex_le(
            rank(rel, lab@),
            #[trigger] rank(rel, q),
        ) by {
            assert(q.take(0) =~= Seq::<usize>::empty());
        }
    }
    lab
}

/// The canonical labelling of a relation on `n` nodes.
pub open spec fn canonical_order(rel: spec_fn(usize, usize) -> bool, n: nat) -> Seq<usize> {
    choose|lab: Seq<usize>| is_canonical(rel, n, lab)
}

/// The edges of the canonical form of a network of `n` nodes: its edges
/// with every node replaced by its position in the canonical labelling.
pub open spec fn canonical_edges(edges: Seq<Edge>, n: nat) -> Seq<Edge> {
    induced_edges(edges, canonical_order(arcs_of(edges), n))
}

/// An arc of a list that grew by one edge is that edge or an arc of before.
pub proof fn lemma_arc_push(edges: Seq<Edge>, e: Edge, a: usize, b: usize)
    ensures
        arc(edges.push(e), a, b) <==> arc(edges, a, b) || (e.0 == a && e.1 == b),
{
    let longer = edges.push(e);
    if arc(edges, a, b) {
        let i = choose|i: int|
            0 <= i < edges.len() && (#[trigger] edges[i]).0 == a && edges[i].1 == b;
        assert(longer[i] == edges[i]);
    }
    if e.0 == a && e.1 == b {
        assert(longer[edges.len() as int] == e);
    }
    if arc(longer, a, b) {
        let i = choose|i: int|
            0 <= i < longer.len() && (#[trigger] longer[i]).0 == a && longer[i].1 == b;
        if i < edges.len() {
            assert(longer[i] == edges[i]);
        }
    }
}

/// The canonical labelling of a network, read as a directed graph without
/// regard to the weights of its edges: entry `i` is the node that takes
/// position `i` of the canonical form.
pub fn canonical_labelling(net: &Network) -> (lab: Vec<usize>)
    requires
        graph_labels(*net).len() <= MAXN,
    ensures
        is_canonical(arcs_of(graph_edges(*net)), graph_labels(*net).len(), lab@),
{
    let mut g = empty_dense();
    let mut options = default_options_digraph();
    options.getcanon = true;
    let n = node_count(net);
    let edges = raw_edges(net);
    let mut i: usize = 0;
    while i < edges.len()
        invariant
            i <= edges@.len(),
            n <= MAXN,
            g@.len() == MAXN,
            edges_within(edges@, n as nat),
            forall|a: usize, b: usize| dense_arc(g@, a, b) <==> arc(edges@.take(i as int), a, b),
        decreases edges@.len() - i,
    {
        let (from, to, _) = edges[i];
        let ghost before = g@;
        add_one_arc(&mut g, from, to);
        proof {
            assert(edges@.take(i + 1) =~= edges@.take(i as int).push(edges@[i as int]));
            assert forall|a: usize, b: usize| dense_arc(g@, a, b) <==> arc(
                edges@.take(i + 1),
                a,
                b,
            ) by {
                lemma_arc_push(edges@.take(i as int), edges@[i as int], a, b);
                assert(dense_arc(before, a, b) <==> arc(edges@.take(i as int), a, b));
            }
        }
        i += 1;
    }
    let lab = dense_labelling(&g, n, &options);
    proof {
        assert(edges@.take(i as int) =~= edges@);
        let dense = dense_relation(g@, true);
        let rel = arcs_of(edges@);
        assert forall|q: Seq<usize>| is_numbering(q, n as nat) implies lex_le(
            rank(rel, lab@),
            #[trigger] rank(rel, q),
        ) by {
            lemma_rank_agrees(dense, rel, n as nat, q);
            lemma_rank_agrees(dense, rel, n as nat, lab@);
            assert(lex_le(rank(dense, lab@), rank(dense, q)));
        }
    }
    lab
}

/// The canonical form of a network: the same network with its nodes in
/// the order of the canonical labelling.
pub fn canonicalize(net: Network) -> (canon: Network)
    requires
        graph_labels(net).len() <= MAXN,
    ensures
        graph_labels(canon) == selected_labels(
            graph_labels(net),
            canonical_order(arcs_of(graph_edges(net)), graph_labels(net).len()),
        ),
        graph_edges(canon) == canonical_edges(graph_edges(net), graph_labels(net).len()),
        graph_labels(canon).len() == graph_labels(net).len(),
{
    let lab = canonical_labelling(&net);
    proof {
        let rel = arcs_of(graph_edges(net));
        let n = graph_labels(net).len();
        lemma_canonical_unique(rel, n, lab@, canonical_order(rel, n));
    }
    net.subnet(lab.as_slice())
}

} // verus!
