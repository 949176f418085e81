//! The search for connected sets by extension from a root.
//!
//! A search state is a connected set `sub` whose least node is the root
//! `v`, the set `seen` of all neighbours of its nodes, and the set `ext` of
//! neighbours above the root by which it may still grow. The sets that a
//! state leads to are the connected sets of `k` nodes that hold `sub`, hold
//! no node below the root, and among the nodes of `seen` only those of
//! `sub` and `ext`.

use crate::network::adjacent;
use crate::network::Edge;
use crate::subgraphs::connected;
use crate::subgraphs::inhabited;
use crate::subgraphs::is_motif_set;
use crate::subgraphs::lemma_connected_reaches_out;
use crate::subgraphs::lemma_grown_connected;
use crate::subgraphs::lemma_single_connected;
use vstd::prelude::*;
use vstd::set_lib::lemma_subset_equality;

verus! {

/// The invariant of a search state.
pub open spec fn extension_state(
    edges: Seq<Edge>,
    n: nat,
    v: usize,
    sub: Set<usize>,
    seen: Set<usize>,
    ext: Set<usize>,
) -> bool {
    &&& sub.finite()
    &&& ext.finite()
    &&& sub.contains(v)
    &&& forall|x: usize| sub.contains(x) ==> v <= x < n
    &&& forall|x: usize| sub.contains(x) && x != v ==> seen.contains(x)
    &&& connected(edges, sub)
    &&& forall|u: usize|
        seen.contains(u) <==> exists|s: usize| sub.contains(s) && #[trigger] adjacent(edges, s, u)
    &&& forall|x: usize| ext.contains(x) ==> seen.contains(x) && v < x < n && !sub.contains(x)
}

/// The sets that a search state leads to.
pub open spec fn extension_domain(
    edges: Seq<Edge>,
    n: nat,
    k: nat,
    v: usize,
    sub: Set<usize>,
    seen: Set<usize>,
    ext: Set<usize>,
) -> spec_fn(Set<usize>) -> bool {
    |t: Set<usize>|
        {
            &&& is_motif_set(edges, n, k, t)
            &&& sub.subset_of(t)
            &&& forall|x: usize| t.contains(x) ==> x >= v
            &&& forall|x: usize|
                t.contains(x) && seen.contains(x) ==> sub.contains(x) || ext.contains(x)
        }
}

/// The connected sets of `k` nodes whose least node is `v`.
pub open spec fn rooted_sets(edges: Seq<Edge>, n: nat, k: nat, v: usize) -> spec_fn(
    Set<usize>,
) -> bool {
    |t: Set<usize>|
        is_motif_set(edges, n, k, t) && t.contains(v) && forall|x: usize| t.contains(x) ==> x >= v
}

/// The connected sets of `k` nodes that hold a node below `v`.
pub open spec fn sets_before(edges: Seq<Edge>, n: nat, k: nat, v: nat) -> spec_fn(
    Set<usize>,
) -> bool {
    |t: Set<usize>| is_motif_set(edges, n, k, t) && exists|x: usize| t.contains(x) && x < v
}

/// A state whose set has `k` nodes leads to that set and to no other.
pub proof fn lemma_full_state(
    edges: Seq<Edge>,
    n: nat,
    k: nat,
    v: usize,
    sub: Set<usize>,
    seen: Set<usize>,
    ext: Set<usize>,
)
    requires
        extension_state(edges, n, v, sub, seen, ext),
        sub.len() == k,
    ensures
        forall|t: Set<usize>| #[trigger]
            extension_domain(edges, n, k, v, sub, seen, ext)(t) <==> t == sub,
{
    let domain = extension_domain(edges, n, k, v, sub, seen, ext);
    assert(domain(sub));
    assert forall|t: Set<usize>| #[trigger] domain(t) implies t == sub by {
        lemma_subset_equality(sub, t);
    }
}

/// A state with nothing left to grow by, whose set has not `k` nodes,
/// leads to no set.
pub proof fn lemma_spent_state(
    edges: Seq<Edge>,
    n: nat,
    k: nat,
    v: usize,
    sub: Set<usize>,
    seen: Set<usize>,
    ext: Set<usize>,
)
    requires
        extension_state(edges, n, v, sub, seen, ext),
        sub.len() != k,
        forall|x: usize| !ext.contains(x),
    ensures
        forall|t: Set<usize>| !#[trigger] extension_domain(edges, n, k, v, sub, seen, ext)(t),
{
    let domain = extension_domain(edges, n, k, v, sub, seen, ext);
    assert forall|t: Set<usize>| !#[trigger] domain(t) by {
        if domain(t) {
            let (a, b) = lemma_connected_reaches_out(edges, t, sub);
            assert(seen.contains(b));
        }
    }
}

/// Growing a state by a node of its extension gives a state.
pub proof fn lemma_step_state(
    edges: Seq<Edge>,
    n: nat,
    v: usize,
    sub: Set<usize>,
    seen: Set<usize>,
    ext: Set<usize>,
    w: usize,
    seen2: Set<usize>,
    ext2: Set<usize>,
)
    requires
        extension_state(edges, n, v, sub, seen, ext),
        ext.contains(w),
        ext2.finite(),
        forall|x: usize| seen2.contains(x) <==> seen.contains(x) || adjacent(edges, w, x),
        forall|x: usize|
            ext2.contains(x) <==> (ext.contains(x) && x != w) || (adjacent(edges, w, x) && v < x
                < n && !seen.contains(x)),
    ensures
        extension_state(edges, n, v, sub.insert(w), seen2, ext2),
{
    let sub2 = sub.insert(w);
    let s = choose|s: usize| sub.contains(s) && #[trigger] adjacent(edges, s, w);
    lemma_grown_connected(edges, sub, s, w);
    assert forall|u: usize| seen2.contains(u) <==> exists|s: usize|
        sub2.contains(s) && #[trigger] adjacent(edges, s, u) by {
        if seen.contains(u) {
            let s = choose|s: usize| sub.contains(s) && #[trigger] adjacent(edges, s, u);
            assert(sub2.contains(s));
        }
        if adjacent(edges, w, u) {
            assert(sub2.contains(w));
        }
    }
}

/// The sets that a state leads to are those that the state grown by `w`
/// leads to, which hold `w`, and those that the state without `w` in its
/// extension leads to, which do not.
pub proof fn lemma_step_domain(
    edges: Seq<Edge>,
    n: nat,
    k: nat,
    v: usize,
    sub: Set<usize>,
    seen: Set<usize>,
    ext: Set<usize>,
    w: usize,
    seen2: Set<usize>,
    ext2: Set<usize>,
)
    requires
        extension_state(edges, n, v, sub, seen, ext),
        ext.contains(w),
        forall|x: usize| seen2.contains(x) <==> seen.contains(x) || adjacent(edges, w, x),
        forall|x: usize|
            ext2.contains(x) <==> (ext.contains(x) && x != w) || (adjacent(edges, w, x) && v < x
                < n && !seen.contains(x)),
    ensures
        forall|t: Set<usize>| #[trigger]
            extension_domain(edges, n, k, v, sub.insert(w), seen2, ext2)(t) <==> extension_domain(
                edges,
                n,
                k,
                v,
                sub,
                seen,
                ext,
            )(t) && t.contains(w),
        forall|t: Set<usize>| #[trigger]
            extension_domain(edges, n, k, v, sub, seen, ext.remove(w))(t) <==> extension_domain(
                edges,
                n,
                k,
                v,
                sub,
                seen,
                ext,
            )(t) && !t.contains(w),
{
    let whole = extension_domain(edges, n, k, v, sub, seen, ext);
    let grown = extension_domain(edges, n, k, v, sub.insert(w), seen2, ext2);
    let rest = extension_domain(edges, n, k, v, sub, seen, ext.remove(w));
    assert forall|t: Set<usize>| #[trigger] grown(t) <==> whole(t) && t.contains(w) by {
        if grown(t) {
            assert(sub.insert(w).contains(w));
            assert forall|x: usize| t.contains(x) && seen.contains(x) implies sub.contains(x)
                || ext.contains(x) by {
                assert(seen2.contains(x));
            }
        }
        if whole(t) && t.contains(w) {
            assert forall|x: usize| t.contains(x) && seen2.contains(x) implies sub.insert(
                w,
            ).contains(x) || ext2.contains(x) by {
                if !seen.contains(x) && x != v {
                    assert(adjacent(edges, w, x));
                    assert(x < n);
                }
            }
        }
    }
    assert forall|t: Set<usize>| #[trigger] rest(t) <==> whole(t) && !t.contains(w) by {
        if rest(t) {
            if t.contains(w) {
                assert(seen.contains(w));
            }
        }
    }
}

/// A root with its neighbours is a state, and it leads to the connected
/// sets of `k` nodes whose least node is the root.
pub proof fn lemma_root_state(
    edges: Seq<Edge>,
    n: nat,
    k: nat,
    v: usize,
    seen: Set<usize>,
    ext: Set<usize>,
)
    requires
        v < n,
        ext.finite(),
        forall|x: usize| seen.contains(x) <==> adjacent(edges, v, x),
        forall|x: usize| ext.contains(x) <==> adjacent(edges, v, x) && v < x < n,
    ensures
        extension_state(edges, n, v, set![v], seen, ext),
        forall|t: Set<usize>| #[trigger]
            extension_domain(edges, n, k, v, set![v], seen, ext)(t) <==> rooted_sets(
                edges,
                n,
                k,
                v,
            )(t),
{
    let sub = set![v];
    lemma_single_connected(edges, v);
    assert forall|u: usize| seen.contains(u) <==> exists|s: usize|
        sub.contains(s) && #[trigger] adjacent(edges, s, u) by {
        if adjacent(edges, v, u) {
            assert(sub.contains(v));
        }
    }
    let domain = extension_domain(edges, n, k, v, sub, seen, ext);
    let rooted = rooted_sets(edges, n, k, v);
    assert forall|t: Set<usize>| #[trigger] domain(t) <==> rooted(t) by {
        if domain(t) {
            assert(sub.contains(v));
        }
    }
}

/// The sets that hold a node below `v + 1` are those that hold one below
/// `v` and those whose least node is `v`.
pub proof fn lemma_sets_before_step(edges: Seq<Edge>, n: nat, k: nat, v: usize)
    ensures
        forall|t: Set<usize>|
            (#[trigger] sets_before(edges, n, k, (v + 1) as nat)(t) <==> sets_before(
                edges,
                n,
                k,
                v as nat,
            )(t) || rooted_sets(edges, n, k, v)(t)) && !(sets_before(edges, n, k, v as nat)(t)
                && rooted_sets(edges, n, k, v)(t)),
{
    let next = sets_before(edges, n, k, (v + 1) as nat);
    let before = sets_before(edges, n, k, v as nat);
    let rooted = rooted_sets(edges, n, k, v);
    assert forall|t: Set<usize>|
        (#[trigger] next(t) <==> before(t) || rooted(t)) && !(before(t) && rooted(t)) by {
        if next(t) && !before(t) {
            let x = choose|x: usize| t.contains(x) && x < v + 1;
            assert(x == v);
        }
        if rooted(t) {
            assert(t.contains(v) && v < v + 1);
        }
    }
}

/// Every connected set of `k` nodes holds a node below `n`, and none holds
/// a node below 0.
pub proof fn lemma_sets_before_ends(edges: Seq<Edge>, n: nat, k: nat)
    ensures
        forall|t: Set<usize>| !#[trigger] sets_before(edges, n, k, 0)(t),
        forall|t: Set<usize>| #[trigger]
            sets_before(edges, n, k, n)(t) <==> is_motif_set(edges, n, k, t),
{
    let all = sets_before(edges, n, k, n);
    assert forall|t: Set<usize>| #[trigger] all(t) <==> is_motif_set(edges, n, k, t) by {
        if is_motif_set(edges, n, k, t) {
            assert(inhabited(t));
            let x = choose|x: usize| t.contains(x);
            assert(t.contains(x) && x < n);
        }
    }
}

} // verus!
