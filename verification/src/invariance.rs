//! The canonical form of a network does not depend on how its nodes are
//! numbered.

use crate::canon::arcs_of;
use crate::canon::canonical_edges;
use crate::canon::canonical_order;
use crate::canon::identity_numbering;
use crate::canon::is_canonical;
use crate::canon::is_numbering;
use crate::canon::lemma_rank_agrees;
use crate::canon::rank;
use crate::canon::row_value;
use crate::lex::lemma_lex_antisymmetric;
use crate::lex::lemma_lex_le_transitive;
use crate::lex::lemma_lex_prefix;
use crate::lex::lemma_lex_total;
use crate::lex::lex_le;
use crate::lex::lex_lt;
use crate::network::arc;
use crate::digits::has_digit_weights;
use crate::digits::is_simple;
use crate::digits::lemma_code_digits;
use crate::digits::lemma_same_edges_same_code;
use crate::digits::well_formed;
use crate::identity::base_pow;
use crate::identity::lemma_base_pow_increases;
use crate::identity::lemma_base_pow_word;
use crate::identity::motif_code;
use crate::network::carried_to;
use crate::network::induced_edges;
use crate::network::lemma_induced_members;
use crate::network::lemma_induced_within;
use crate::network::lemma_position_found;
use crate::network::lemma_position_unique;
use crate::network::position;
use crate::network::Edge;
use crate::subgraphs::ascending;
use crate::subgraphs::lemma_ascending_len;
use crate::subgraphs::motif_of;
use crate::subsets::below;
use vstd::prelude::*;

verus! {

/// The numbering of least rank among `best` and the numberings that begin
/// with `prefix` and go on with a node from `v` on.
proof fn lemma_best_from(
    rel: spec_fn(usize, usize) -> bool,
    n: nat,
    prefix: Seq<usize>,
    best: Seq<usize>,
    v: nat,
) -> (found: Seq<usize>)
    requires
        n <= usize::MAX,
        prefix.len() <= n,
        prefix.no_duplicates(),
        forall|i: int| 0 <= i < prefix.len() ==> prefix[i] < n,
        is_numbering(best, n),
    ensures
        is_numbering(found, n),
        lex_le(rank(rel, found), rank(rel, best)),
        forall|q: Seq<usize>|
            is_numbering(q, n) && q.take(prefix.len() as int) == prefix && (prefix.len() < n
                ==> q[prefix.len() as int] >= v) ==> lex_le(
                rank(rel, found),
                #[trigger] rank(rel, q),
            ),
    decreases n - prefix.len(), n - v,
{
    let depth = prefix.len() as int;
    if prefix.len() == n {
        lemma_lex_total(rank(rel, prefix), rank(rel, best));
        assert forall|q: Seq<usize>| is_numbering(q, n) && q.take(depth) == prefix implies q
            == prefix by {
            assert(q.take(depth) =~= q);
        }
        if lex_lt(rank(rel, prefix), rank(rel, best)) {
            prefix
        } else {
            best
        }
    } else if v >= n {
        best
    } else if prefix.contains(v as usize) {
        let found = lemma_best_from(rel, n, prefix, best, v + 1);
        assert forall|q: Seq<usize>|
            is_numbering(q, n) && q.take(depth) == prefix && q[depth] >= v implies lex_le(
            rank(rel, found),
            #[trigger] rank(rel, q),
        ) by {
            if q[depth] == v {
                let i = choose|i: int| 0 <= i < prefix.len() && prefix[i] == v as usize;
                assert(q.take(depth)[i] == q[i]);
            }
        }
        found
    } else {
        let longer = prefix.push(v as usize);
        assert(longer.no_duplicates()) by {
            assert forall|i: int, j: int|
                0 <= i < longer.len() && 0 <= j < longer.len() && i != j implies longer[i]
                != longer[j] by {
                if i < depth {
                    assert(prefix[i] == longer[i]);
                    assert(prefix.contains(longer[i]));
                }
                if j < depth {
                    assert(prefix[j] == longer[j]);
                    assert(prefix.contains(longer[j]));
                }
            }
        }
        let first = lemma_best_from(rel, n, longer, best, 0);
        let found = lemma_best_from(rel, n, prefix, first, v + 1);
        lemma_lex_le_transitive(rank(rel, found), rank(rel, first), rank(rel, best));
        assert forall|q: Seq<usize>|
            is_numbering(q, n) && q.take(depth) == prefix && q[depth] >= v implies lex_le(
            rank(rel, found),
            #[trigger] rank(rel, q),
        ) by {
            if q[depth] == v {
                assert(q.take(depth + 1) =~= longer);
                lemma_lex_le_transitive(rank(rel, found), rank(rel, first), rank(rel, q));
            }
        }
        found
    }
}

/// Every relation on `n` nodes has a canonical labelling.
pub proof fn lemma_canonical_exists(rel: spec_fn(usize, usize) -> bool, n: nat)
    requires
        n <= usize::MAX,
    ensures
        is_canonical(rel, n, canonical_order(rel, n)),
{
    let start = identity_numbering(n);
    assert(is_numbering(start, n));
    let found = lemma_best_from(rel, n, Seq::empty(), start, 0);
    assert forall|q: Seq<usize>| is_numbering(q, n) implies lex_le(
        rank(rel, found),
        #[trigger] rank(rel, q),
    ) by {
        assert(q.take(0) =~= Seq::<usize>::empty());
    }
    assert(is_canonical(rel, n, found));
}

/// The rows of the relation under a numbering, each as a number: the rank
/// without the numbering itself.
pub open spec fn key(rel: spec_fn(usize, usize) -> bool, lab: Seq<usize>) -> Seq<int> {
    Seq::new(lab.len(), |i: int| row_value(rel, lab, i, lab.len()))
}

/// The relation between the nodes after they are renumbered: node `a` of
/// the new relation is the node `p[a]` of the old.
pub open spec fn relabelled(rel: spec_fn(usize, usize) -> bool, p: Seq<usize>) -> spec_fn(
    usize,
    usize,
) -> bool {
    |a: usize, b: usize| rel(p[a as int], p[b as int])
}

/// The numbering `q` of the nodes that `p` has renumbered, as a numbering
/// of the nodes before.
pub open spec fn composed(p: Seq<usize>, q: Seq<usize>) -> Seq<usize> {
    Seq::new(q.len(), |i: int| p[q[i] as int])
}

/// The numbering that undoes `p`.
pub open spec fn inverse(p: Seq<usize>) -> Seq<usize> {
    Seq::new(p.len(), |v: int| (choose|i: int| 0 <= i < p.len() && p[i] == v) as usize)
}

/// A finite set of `n` nodes below `n` holds every node below `n`.
proof fn lemma_full_set(set: Set<usize>, n: nat, v: usize)
    requires
        n <= usize::MAX,
        set.finite(),
        below(set, n),
        set.len() == n,
        v < n,
    ensures
        set.contains(v),
    decreases n,
{
    let top = (n - 1) as usize;
    if !set.contains(top) {
        assert(below(set, (n - 1) as nat));
        lemma_ascending_len(set, (n - 1) as nat);
    } else if v != top {
        let rest = set.remove(top);
        lemma_full_set(rest, (n - 1) as nat, v);
    }
}

/// A numbering of `n` nodes holds every node below `n`.
pub proof fn lemma_numbering_onto(p: Seq<usize>, n: nat, v: usize)
    requires
        n <= usize::MAX,
        is_numbering(p, n),
        v < n,
    ensures
        exists|i: int| 0 <= i < n && p[i] == v,
{
    p.unique_seq_to_set();
    vstd::seq_lib::seq_to_set_is_finite(p);
    assert(below(p.to_set(), n)) by {
        assert forall|x: usize| p.to_set().contains(x) implies x < n by {
            let i = choose|i: int| 0 <= i < p.len() && p[i] == x;
        }
    }
    lemma_full_set(p.to_set(), n, v);
    assert(p.contains(v));
}

/// The numbering that undoes `p` is a numbering, and it undoes `p`.
pub proof fn lemma_inverse(p: Seq<usize>, n: nat)
    requires
        n <= usize::MAX,
        is_numbering(p, n),
    ensures
        is_numbering(inverse(p), n),
        forall|v: int| 0 <= v < n ==> p[#[trigger] inverse(p)[v] as int] == v,
        forall|i: int| 0 <= i < n ==> inverse(p)[#[trigger] p[i] as int] == i,
{
    let back = inverse(p);
    assert forall|v: int| 0 <= v < n implies 0 <= #[trigger] back[v] < n && p[back[v] as int]
        == v by {
        lemma_numbering_onto(p, n, v as usize);
    }
    assert forall|i: int, j: int| 0 <= i < n && 0 <= j < n && i != j implies back[i]
        != back[j] by {
        assert(p[back[i] as int] == i);
        assert(p[back[j] as int] == j);
    }
    assert forall|i: int| 0 <= i < n implies back[#[trigger] p[i] as int] == i by {
        let v = p[i] as int;
        assert(p[back[v] as int] == v);
    }
}

/// A numbering of renumbered nodes is a numbering of the nodes before.
pub proof fn lemma_composed_numbering(p: Seq<usize>, q: Seq<usize>, n: nat)
    requires
        is_numbering(p, n),
        is_numbering(q, n),
    ensures
        is_numbering(composed(p, q), n),
{
}

/// The rows of a renumbered relation under a numbering are the rows of the
/// relation under the numbering of the nodes before.
pub proof fn lemma_key_of_composed(
    rel: spec_fn(usize, usize) -> bool,
    p: Seq<usize>,
    q: Seq<usize>,
    n: nat,
)
    requires
        is_numbering(p, n),
        is_numbering(q, n),
    ensures
        key(relabelled(rel, p), q) == key(rel, composed(p, q)),
{
    assert forall|i: int| 0 <= i < n implies row_value(relabelled(rel, p), q, i, n) == row_value(
        rel,
        composed(p, q),
        i,
        n,
    ) by {
        lemma_row_of_composed(rel, p, q, n, i, n);
    }
    assert(key(relabelled(rel, p), q) =~= key(rel, composed(p, q)));
}

proof fn lemma_row_of_composed(
    rel: spec_fn(usize, usize) -> bool,
    p: Seq<usize>,
    q: Seq<usize>,
    n: nat,
    i: int,
    c: nat,
)
    requires
        is_numbering(p, n),
        is_numbering(q, n),
        0 <= i < n,
        c <= n,
    ensures
        row_value(relabelled(rel, p), q, i, c) == row_value(rel, composed(p, q), i, c),
    decreases c,
{
    if c > 0 {
        lemma_row_of_composed(rel, p, q, n, i, (c - 1) as nat);
    }
}

/// Two rows of the same value hold the same arcs.
proof fn lemma_row_digits(
    r1: spec_fn(usize, usize) -> bool,
    a: Seq<usize>,
    r2: spec_fn(usize, usize) -> bool,
    b: Seq<usize>,
    i: int,
    c: nat,
    j: int,
)
    requires
        a.len() == b.len(),
        c <= a.len(),
        row_value(r1, a, i, c) == row_value(r2, b, i, c),
        a.len() - c <= j < a.len(),
    ensures
        r1(a[i], a[j]) == r2(b[i], b[j]),
    decreases c,
{
    if c > 0 {
        if j > a.len() - c {
            lemma_row_digits(r1, a, r2, b, i, (c - 1) as nat, j);
        }
    }
}

/// Two numberings with the same rows give the same relation.
pub proof fn lemma_same_key_same_relation(
    r1: spec_fn(usize, usize) -> bool,
    a: Seq<usize>,
    r2: spec_fn(usize, usize) -> bool,
    b: Seq<usize>,
)
    requires
        a.len() == b.len(),
        key(r1, a) == key(r2, b),
    ensures
        forall|i: int, j: int|
            0 <= i < a.len() && 0 <= j < a.len() ==> #[trigger] r1(a[i], a[j]) == r2(b[i], b[j]),
{
    assert forall|i: int, j: int| 0 <= i < a.len() && 0 <= j < a.len() implies #[trigger] r1(
        a[i],
        a[j],
    ) == r2(b[i], b[j]) by {
        assert(key(r1, a)[i] == row_value(r1, a, i, a.len()));
        assert(key(r2, b)[i] == row_value(r2, b, i, b.len()));
        lemma_row_digits(r1, a, r2, b, i, a.len(), j);
    }
}

/// The rows under the canonical labelling are the least rows of all
/// numberings.
pub proof fn lemma_canonical_key(
    rel: spec_fn(usize, usize) -> bool,
    n: nat,
    lab: Seq<usize>,
    q: Seq<usize>,
)
    requires
        is_canonical(rel, n, lab),
        is_numbering(q, n),
    ensures
        lex_le(key(rel, lab), key(rel, q)),
{
    lemma_lex_prefix(rank(rel, lab), rank(rel, q), n as int);
    assert(rank(rel, lab).take(n as int) =~= key(rel, lab));
    assert(rank(rel, q).take(n as int) =~= key(rel, q));
}

/// The canonical labelling of a relation and that of the relation with its
/// nodes renumbered give the same rows: the canonical form of a relation
/// does not depend on the numbering of its nodes.
pub proof fn lemma_canonical_relation_invariant(
    rel: spec_fn(usize, usize) -> bool,
    n: nat,
    p: Seq<usize>,
    lab: Seq<usize>,
    lab2: Seq<usize>,
)
    requires
        n <= usize::MAX,
        is_numbering(p, n),
        is_canonical(rel, n, lab),
        is_canonical(relabelled(rel, p), n, lab2),
    ensures
        forall|i: int, j: int|
            0 <= i < n && 0 <= j < n ==> #[trigger] rel(lab[i], lab[j]) == relabelled(rel, p)(
                lab2[i],
                lab2[j],
            ),
{
    let rel2 = relabelled(rel, p);
    let back = inverse(p);
    lemma_inverse(p, n);
    // The canonical labelling of the renumbered relation, seen from before.
    let there = composed(p, lab2);
    lemma_composed_numbering(p, lab2, n);
    lemma_key_of_composed(rel, p, lab2, n);
    lemma_canonical_key(rel, n, lab, there);
    // The canonical labelling of the relation, seen from after.
    let here = composed(back, lab);
    lemma_composed_numbering(back, lab, n);
    lemma_key_of_composed(rel, p, here, n);
    assert(composed(p, here) =~= lab);
    lemma_canonical_key(rel2, n, lab2, here);
    lemma_lex_antisymmetric(key(rel, lab), key(rel2, lab2));
    lemma_same_key_same_relation(rel, lab, rel2, lab2);
}

/// A canonical labelling of one relation is a canonical labelling of every
/// relation that agrees with it on the nodes below `n`.
pub proof fn lemma_canonical_agrees(
    r1: spec_fn(usize, usize) -> bool,
    r2: spec_fn(usize, usize) -> bool,
    n: nat,
    lab: Seq<usize>,
)
    requires
        is_canonical(r1, n, lab),
        forall|a: usize, b: usize| a < n && b < n ==> #[trigger] r1(a, b) == r2(a, b),
    ensures
        is_canonical(r2, n, lab),
{
    assert forall|q: Seq<usize>| is_numbering(q, n) implies lex_le(
        rank(r2, lab),
        #[trigger] rank(r2, q),
    ) by {
        lemma_rank_agrees(r1, r2, n, q);
        lemma_rank_agrees(r1, r2, n, lab);
        assert(lex_le(rank(r1, lab), rank(r1, q)));
    }
}

/// Under a numbering the induced edges are the edges between the numbered
/// nodes: position `a` has an edge to position `b` of some weight exactly
/// if node `p[a]` has one of that weight to node `p[b]`.
pub proof fn lemma_renumbered_edges(edges: Seq<Edge>, n: nat, p: Seq<usize>, to: Edge)
    requires
        n <= usize::MAX,
        is_numbering(p, n),
    ensures
        induced_edges(edges, p).contains(to) <==> to.0 < n && to.1 < n && edges.contains(
            (p[to.0 as int], p[to.1 as int], to.2),
        ),
{
    lemma_induced_members(edges, p, to);
    if induced_edges(edges, p).contains(to) {
        let i = choose|i: int| 0 <= i < edges.len() && carried_to(p, #[trigger] edges[i], to);
        lemma_position_found(p, edges[i].0);
        lemma_position_found(p, edges[i].1);
        assert(edges[i] == (p[to.0 as int], p[to.1 as int], to.2));
    }
    if to.0 < n && to.1 < n && edges.contains((p[to.0 as int], p[to.1 as int], to.2)) {
        let from = (p[to.0 as int], p[to.1 as int], to.2);
        let i = choose|i: int| 0 <= i < edges.len() && edges[i] == from;
        lemma_position_unique(p, to.0 as int);
        lemma_position_unique(p, to.1 as int);
        assert(carried_to(p, edges[i], to));
    }
}

/// Under a numbering position `a` has an arc to position `b` exactly if
/// node `p[a]` has one to node `p[b]`.
pub proof fn lemma_renumbered_arcs(edges: Seq<Edge>, n: nat, p: Seq<usize>, a: usize, b: usize)
    requires
        n <= usize::MAX,
        is_numbering(p, n),
    ensures
        arc(induced_edges(edges, p), a, b) <==> a < n && b < n && arc(
            edges,
            p[a as int],
            p[b as int],
        ),
{
    let list = induced_edges(edges, p);
    if arc(list, a, b) {
        let i = choose|i: int| 0 <= i < list.len() && (#[trigger] list[i]).0 == a && list[i].1 == b;
        lemma_renumbered_edges(edges, n, p, list[i]);
        assert(list.contains(list[i]));
        let from = (p[a as int], p[b as int], list[i].2);
        let j = choose|j: int| 0 <= j < edges.len() && edges[j] == from;
        assert(edges[j].0 == p[a as int] && edges[j].1 == p[b as int]);
    }
    if a < n && b < n && arc(edges, p[a as int], p[b as int]) {
        let j = choose|j: int|
            0 <= j < edges.len() && (#[trigger] edges[j]).0 == p[a as int] && edges[j].1
                == p[b as int];
        let to = (a, b, edges[j].2);
        assert(edges.contains((p[a as int], p[b as int], to.2))) by {
            assert(edges[j] == (p[a as int], p[b as int], to.2));
        }
        lemma_renumbered_edges(edges, n, p, to);
        let i = choose|i: int| 0 <= i < list.len() && list[i] == to;
        assert(list[i].0 == a && list[i].1 == b);
    }
}

/// The canonical form of a network does not depend on the numbering of its
/// nodes: the network and the network with its nodes renumbered by `p`
/// have canonical forms with the same arcs.
pub proof fn lemma_canonical_form_invariant(
    edges: Seq<Edge>,
    n: nat,
    p: Seq<usize>,
    a: usize,
    b: usize,
)
    requires
        n <= usize::MAX,
        is_numbering(p, n),
    ensures
        arc(canonical_edges(edges, n), a, b) == arc(
            canonical_edges(induced_edges(edges, p), n),
            a,
            b,
        ),
{
    let rel = arcs_of(edges);
    let renumbered = induced_edges(edges, p);
    let rel2 = arcs_of(renumbered);
    let lab = canonical_order(rel, n);
    let lab2 = canonical_order(rel2, n);
    lemma_canonical_exists(rel, n);
    lemma_canonical_exists(rel2, n);
    assert forall|x: usize, y: usize| x < n && y < n implies #[trigger] rel2(x, y) == relabelled(
        rel,
        p,
    )(x, y) by {
        lemma_renumbered_arcs(edges, n, p, x, y);
    }
    lemma_canonical_agrees(rel2, relabelled(rel, p), n, lab2);
    lemma_canonical_relation_invariant(rel, n, p, lab, lab2);
    lemma_renumbered_arcs(edges, n, lab, a, b);
    lemma_renumbered_arcs(renumbered, n, lab2, a, b);
    if a < n && b < n {
        lemma_renumbered_arcs(edges, n, p, lab2[a as int], lab2[b as int]);
        assert(rel(lab[a as int], lab[b as int]) == relabelled(rel, p)(
            lab2[a as int],
            lab2[b as int],
        ));
    }
}

/// Where all edges of a network have one weight, the network and the
/// network with its nodes renumbered by `p` have canonical forms with the
/// same edges.
pub proof fn lemma_canonical_edges_invariant(edges: Seq<Edge>, n: nat, p: Seq<usize>, w: u8)
    requires
        n <= usize::MAX,
        is_numbering(p, n),
        forall|i: int| 0 <= i < edges.len() ==> (#[trigger] edges[i]).2 == w,
    ensures
        canonical_edges(edges, n).to_set() == canonical_edges(induced_edges(edges, p), n).to_set(),
{
    let renumbered = induced_edges(edges, p);
    let lab = canonical_order(arcs_of(edges), n);
    let lab2 = canonical_order(arcs_of(renumbered), n);
    let c1 = canonical_edges(edges, n);
    let c2 = canonical_edges(renumbered, n);
    lemma_canonical_exists(arcs_of(edges), n);
    lemma_canonical_exists(arcs_of(renumbered), n);
    assert forall|e: Edge| c1.contains(e) <==> c2.contains(e) by {
        lemma_canonical_form_invariant(edges, n, p, e.0, e.1);
        lemma_renumbered_edges(edges, n, lab, e);
        lemma_renumbered_edges(renumbered, n, lab2, e);
        lemma_renumbered_arcs(edges, n, lab, e.0, e.1);
        lemma_renumbered_arcs(renumbered, n, lab2, e.0, e.1);
        if c1.contains(e) {
            let i = choose|i: int| 0 <= i < c1.len() && c1[i] == e;
            assert(arc(c1, e.0, e.1));
            let from = (lab[e.0 as int], lab[e.1 as int], e.2);
            let j = choose|j: int| 0 <= j < edges.len() && edges[j] == from;
            assert(e.2 == w);
            // The other form has an arc there, and its weight is the one weight.
            let h = choose|h: int|
                0 <= h < c2.len() && (#[trigger] c2[h]).0 == e.0 && c2[h].1 == e.1;
            lemma_renumbered_edges(renumbered, n, lab2, c2[h]);
            assert(c2.contains(c2[h]));
            let mid = (lab2[e.0 as int], lab2[e.1 as int], c2[h].2);
            lemma_renumbered_edges(edges, n, p, mid);
            let g = choose|g: int|
                0 <= g < edges.len() && edges[g] == (
                    p[mid.0 as int],
                    p[mid.1 as int],
                    mid.2,
                );
            assert(c2[h].2 == w);
            assert(c2[h] == e);
        }
        if c2.contains(e) {
            let i = choose|i: int| 0 <= i < c2.len() && c2[i] == e;
            assert(arc(c2, e.0, e.1));
            let mid = (lab2[e.0 as int], lab2[e.1 as int], e.2);
            lemma_renumbered_edges(edges, n, p, mid);
            let g = choose|g: int|
                0 <= g < edges.len() && edges[g] == (
                    p[mid.0 as int],
                    p[mid.1 as int],
                    mid.2,
                );
            assert(e.2 == w);
            let h = choose|h: int|
                0 <= h < c1.len() && (#[trigger] c1[h]).0 == e.0 && c1[h].1 == e.1;
            lemma_renumbered_edges(edges, n, lab, c1[h]);
            assert(c1.contains(c1[h]));
            let from = (lab[e.0 as int], lab[e.1 as int], c1[h].2);
            let j = choose|j: int| 0 <= j < edges.len() && edges[j] == from;
            assert(c1[h].2 == w);
            assert(c1[h] == e);
        }
    }
    assert(c1.to_set() =~= c2.to_set());
}

/// The induced edges of a list without parallel edges and with digits for
/// weights are well formed on the places of the node list.
pub proof fn lemma_induced_well_formed(edges: Seq<Edge>, ns: Seq<usize>)
    requires
        ns.len() <= usize::MAX,
        is_simple(edges),
        has_digit_weights(edges),
    ensures
        well_formed(induced_edges(edges, ns), ns.len()),
    decreases edges.len(),
{
    let list = induced_edges(edges, ns);
    lemma_induced_within(edges, ns);
    if edges.len() > 0 {
        let rest = edges.drop_last();
        let short = induced_edges(rest, ns);
        let e = edges.last();
        assert(e == edges[edges.len() - 1]);
        assert forall|i: int| 0 <= i < rest.len() implies rest[i] == edges[i] by {
        }
        assert(is_simple(rest)) by {
            assert forall|i: int, j: int| 0 <= i < j < rest.len() implies (#[trigger] rest[i]).0
                != (#[trigger] rest[j]).0 || rest[i].1 != rest[j].1 by {
                assert(rest[i] == edges[i] && rest[j] == edges[j]);
            }
        }
        assert(has_digit_weights(rest)) by {
            assert forall|i: int| 0 <= i < rest.len() implies 1 <= (#[trigger] rest[i]).2
                <= 3 by {
                assert(rest[i] == edges[i]);
            }
        }
        lemma_induced_well_formed(rest, ns);
        if list.len() > short.len() {
            let last = list[list.len() - 1];
            lemma_position_found(ns, e.0);
            lemma_position_found(ns, e.1);
            assert forall|i: int, j: int| 0 <= i < j < list.len() implies (#[trigger] list[i]).0
                != (#[trigger] list[j]).0 || list[i].1 != list[j].1 by {
                if j < short.len() {
                    assert(short[i] == list[i] && short[j] == list[j]);
                } else {
                    assert(short[i] == list[i]);
                    assert(short.contains(short[i]));
                    lemma_induced_members(rest, ns, short[i]);
                    let h = choose|h: int|
                        0 <= h < rest.len() && carried_to(ns, #[trigger] rest[h], short[i]);
                    lemma_position_found(ns, rest[h].0);
                    lemma_position_found(ns, rest[h].1);
                    assert(rest[h] == edges[h]);
                    if list[i].0 == last.0 && list[i].1 == last.1 {
                        assert(edges[h].0 == e.0 && edges[h].1 == e.1);
                    }
                }
            }
            assert forall|i: int| 0 <= i < list.len() implies 1 <= (#[trigger] list[i]).2
                <= 3 by {
                if i < short.len() {
                    assert(short[i] == list[i]);
                }
            }
        }
    }
}

/// The canonical form of a well-formed network is well formed.
pub proof fn lemma_canonical_well_formed(edges: Seq<Edge>, n: nat)
    requires
        n <= usize::MAX,
        is_simple(edges),
        has_digit_weights(edges),
    ensures
        well_formed(canonical_edges(edges, n), n),
{
    lemma_canonical_exists(arcs_of(edges), n);
    lemma_induced_well_formed(edges, canonical_order(arcs_of(edges), n));
}

/// Where all edges of a well-formed network have one weight, the network
/// and the network with its nodes renumbered by `p` have canonical forms
/// of one identity.
pub proof fn lemma_identity_invariant(edges: Seq<Edge>, n: nat, p: Seq<usize>, w: u8)
    requires
        n <= usize::MAX,
        is_numbering(p, n),
        well_formed(edges, n),
        forall|i: int| 0 <= i < edges.len() ==> (#[trigger] edges[i]).2 == w,
    ensures
        motif_code(canonical_edges(edges, n), n) == motif_code(
            canonical_edges(induced_edges(edges, p), n),
            n,
        ),
{
    let renumbered = induced_edges(edges, p);
    lemma_induced_well_formed(edges, p);
    lemma_canonical_well_formed(edges, n);
    lemma_canonical_well_formed(renumbered, n);
    lemma_canonical_edges_invariant(edges, n, p, w);
    lemma_same_edges_same_code(canonical_edges(edges, n), canonical_edges(renumbered, n), n);
}

/// In a well-formed network the identity of a subgraph of `k` nodes has
/// `k * k` digits; with up to five nodes it fits a machine word.
pub proof fn lemma_small_motifs_fit(edges: Seq<Edge>, n: nat, k: nat, set: Set<usize>)
    requires
        n <= usize::MAX,
        well_formed(edges, n),
        set.finite(),
        below(set, n),
        set.len() == k,
    ensures
        0 <= motif_of(edges, n, set) < base_pow(k * k),
        k * k <= 32 ==> motif_of(edges, n, set) <= u64::MAX,
{
    let list = ascending(set, n);
    lemma_ascending_len(set, n);
    lemma_induced_well_formed(edges, list);
    lemma_canonical_well_formed(induced_edges(edges, list), k);
    lemma_code_digits(canonical_edges(induced_edges(edges, list), k), k);
    if k * k <= 32 {
        lemma_base_pow_increases(k * k, 32);
        lemma_base_pow_word();
    }
}

} // verus!
