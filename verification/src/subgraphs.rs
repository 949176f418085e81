//! What the enumeration of subgraphs is to find: the connected sets of `k`
//! nodes of a network, the identity of the subgraph that each induces, and
//! the number of sets of each identity.

use crate::canon::canonical_edges;
use crate::identity::lemma_code_grows;
use crate::identity::motif_code;
use crate::network::adjacent;
use crate::network::induced_edges;
use crate::network::Edge;
use crate::subsets::below;
use crate::subsets::count_subsets;
use vstd::prelude::*;

verus! {

/// Some edge joins a node of `part` to a node of `whole` outside `part`.
pub open spec fn crossed(edges: Seq<Edge>, part: Set<usize>, whole: Set<usize>) -> bool {
    exists|a: usize, b: usize|
        part.contains(a) && whole.contains(b) && !part.contains(b) && #[trigger] adjacent(
            edges,
            a,
            b,
        )
}

/// The set has a member.
pub open spec fn inhabited(set: Set<usize>) -> bool {
    exists|x: usize| set.contains(x)
}

/// The nodes of `set` hang together: the set is not empty, and however it
/// is split in two parts that are not empty, an edge joins the parts. The
/// direction of the edges plays no role. By `lemma_connected_by_walks` this
/// is to say that a walk through the set leads from every node to every
/// other.
pub open spec fn connected(edges: Seq<Edge>, set: Set<usize>) -> bool {
    &&& inhabited(set)
    &&& forall|part: Set<usize>|
        part.subset_of(set) && inhabited(part) && part != set ==> #[trigger] crossed(
            edges,
            part,
            set,
        )
}

/// `set` is a connected set of `k` nodes of a network of `n` nodes.
pub open spec fn is_motif_set(edges: Seq<Edge>, n: nat, k: nat, set: Set<usize>) -> bool {
    &&& below(set, n)
    &&& set.finite()
    &&& set.len() == k
    &&& connected(edges, set)
}

/// The members of `set` below `n`, in ascending order.
pub open spec fn ascending(set: Set<usize>, n: nat) -> Seq<usize>
    decreases n,
{
    if n == 0 {
        Seq::empty()
    } else if set.contains((n - 1) as usize) {
        ascending(set, (n - 1) as nat).push((n - 1) as usize)
    } else {
        ascending(set, (n - 1) as nat)
    }
}

/// The identity of the subgraph that `set` induces in a network of `n`
/// nodes: the code of the canonical form of the induced subnetwork whose
/// nodes are the members of `set` in ascending order.
pub open spec fn motif_of(edges: Seq<Edge>, n: nat, set: Set<usize>) -> int {
    let list = ascending(set, n);
    motif_code(canonical_edges(induced_edges(edges, list), list.len()), list.len())
}

/// The sets that `domain` accepts and whose subgraph has the identity `id`.
pub open spec fn with_motif(
    edges: Seq<Edge>,
    n: nat,
    domain: spec_fn(Set<usize>) -> bool,
    id: u64,
) -> spec_fn(Set<usize>) -> bool {
    |t: Set<usize>| domain(t) && motif_of(edges, n, t) == id
}

/// The connected sets of `k` nodes.
pub open spec fn motif_sets(edges: Seq<Edge>, n: nat, k: nat) -> spec_fn(Set<usize>) -> bool {
    |t: Set<usize>| is_motif_set(edges, n, k, t)
}

/// The number of connected sets of `k` nodes whose subgraph has the
/// identity `id`.
pub open spec fn motif_count(edges: Seq<Edge>, n: nat, k: nat, id: u64) -> nat {
    count_subsets(n, with_motif(edges, n, motif_sets(edges, n, k), id))
}

/// The count that a frequency table holds for an identity; an identity
/// without an entry counts 0.
pub open spec fn count_in(table: Map<u64, usize>, id: u64) -> nat {
    if table.contains_key(id) {
        table[id] as nat
    } else {
        0
    }
}

/// The table `after` is the table `before` with one more for every set of
/// `domain`, under the identity of that set's subgraph. An identity enters
/// the table with its first set.
pub open spec fn adds_tally(
    before: Map<u64, usize>,
    after: Map<u64, usize>,
    edges: Seq<Edge>,
    n: nat,
    domain: spec_fn(Set<usize>) -> bool,
) -> bool {
    forall|id: u64|
        {
            let more = count_subsets(n, with_motif(edges, n, domain, id));
            &&& #[trigger] count_in(after, id) == count_in(before, id) + more
            &&& after.contains_key(id) <==> before.contains_key(id) || more > 0
        }
}

/// The table holds, for every identity, the number of sets of `domain`
/// whose subgraph has that identity, and no entry for an identity that no
/// set has.
pub open spec fn is_tally(
    table: Map<u64, usize>,
    edges: Seq<Edge>,
    n: nat,
    domain: spec_fn(Set<usize>) -> bool,
) -> bool {
    forall|id: u64|
        {
            let found = count_subsets(n, with_motif(edges, n, domain, id));
            &&& #[trigger] count_in(table, id) == found
            &&& table.contains_key(id) <==> found > 0
        }
}

/// The table of the sets of `domain`: for every identity that a set has,
/// the number of sets that have it.
pub open spec fn tally_of(edges: Seq<Edge>, n: nat, domain: spec_fn(Set<usize>) -> bool) -> Map<
    u64,
    usize,
> {
    Map::new(
        |id: u64| count_subsets(n, with_motif(edges, n, domain, id)) > 0,
        |id: u64| count_subsets(n, with_motif(edges, n, domain, id)) as usize,
    )
}

/// The frequencies of the subgraphs of `k` nodes of a network: for every
/// identity the number of connected sets of `k` nodes whose subgraph has
/// it, without an entry where there is no such set.
pub open spec fn frequency_table(edges: Seq<Edge>, n: nat, k: nat) -> Map<u64, usize> {
    tally_of(edges, n, motif_sets(edges, n, k))
}

/// A tally whose counts fit the machine's numbers is the table of its sets.
pub proof fn lemma_tally_is_table(
    table: Map<u64, usize>,
    edges: Seq<Edge>,
    n: nat,
    domain: spec_fn(Set<usize>) -> bool,
)
    requires
        is_tally(table, edges, n, domain),
    ensures
        table == tally_of(edges, n, domain),
{
    let other = tally_of(edges, n, domain);
    assert forall|id: u64| table.contains_key(id) == other.contains_key(id) by {
        assert(count_in(table, id) == count_subsets(n, with_motif(edges, n, domain, id)));
    }
    assert forall|id: u64| table.contains_key(id) implies table[id] == other[id] by {
        assert(count_in(table, id) == count_subsets(n, with_motif(edges, n, domain, id)));
    }
    assert(table =~= other);
}

/// The list of a set's members holds each member below `n` and nothing else.
pub proof fn lemma_ascending_members(set: Set<usize>, n: nat)
    requires
        n <= usize::MAX,
    ensures
        forall|x: usize| ascending(set, n).contains(x) <==> set.contains(x) && x < n,
        forall|i: int| 0 <= i < ascending(set, n).len() ==> ascending(set, n)[i] < n,
        ascending(set, n).len() <= n,
        ascending(set, n).no_duplicates(),
    decreases n,
{
    if n > 0 {
        let m = (n - 1) as nat;
        let shorter = ascending(set, m);
        let list = ascending(set, n);
        lemma_ascending_members(set, m);
        assert forall|x: usize| list.contains(x) <==> set.contains(x) && x < n by {
            if list.contains(x) {
                let i = choose|i: int| 0 <= i < list.len() && list[i] == x;
                if i < shorter.len() {
                    assert(shorter.contains(x));
                }
            }
            if set.contains(x) && x < n {
                if x < m {
                    assert(shorter.contains(x));
                    let i = choose|i: int| 0 <= i < shorter.len() && shorter[i] == x;
                    assert(list[i] == x);
                } else {
                    assert(list[list.len() - 1] == x);
                }
            }
        }
    }
}

/// A finite set of nodes below `n` has as many members as its list.
pub proof fn lemma_ascending_len(set: Set<usize>, n: nat)
    requires
        n <= usize::MAX,
        set.finite(),
        below(set, n),
    ensures
        ascending(set, n).len() == set.len(),
        set.len() <= n,
    decreases n,
{
    lemma_ascending_members(set, n);
    if n == 0 {
        assert(set =~= Set::<usize>::empty());
    } else {
        let m = (n - 1) as nat;
        let top = m as usize;
        let rest = set.remove(top);
        lemma_ascending_len(rest, m);
        lemma_ascending_same(set, rest, m);
    }
}

/// Two sets with the same members below `n` have the same list.
pub proof fn lemma_ascending_same(a: Set<usize>, b: Set<usize>, n: nat)
    requires
        forall|x: usize| x < n ==> a.contains(x) == b.contains(x),
    ensures
        ascending(a, n) == ascending(b, n),
    decreases n,
{
    if n > 0 {
        lemma_ascending_same(a, b, (n - 1) as nat);
    }
}

/// A set of one node is connected.
pub proof fn lemma_single_connected(edges: Seq<Edge>, v: usize)
    ensures
        connected(edges, set![v]),
{
    let one = set![v];
    assert(one.contains(v));
    assert forall|part: Set<usize>|
        part.subset_of(one) && inhabited(part) && part != one implies #[trigger] crossed(
        edges,
        part,
        one,
    ) by {
        assert(part =~= one);
    }
}

/// A connected set stays connected when a neighbour of one of its nodes
/// joins it.
pub proof fn lemma_grown_connected(edges: Seq<Edge>, set: Set<usize>, s: usize, w: usize)
    requires
        connected(edges, set),
        set.contains(s),
        adjacent(edges, s, w),
    ensures
        connected(edges, set.insert(w)),
{
    let more = set.insert(w);
    assert(more.contains(w));
    assert forall|part: Set<usize>|
        part.subset_of(more) && inhabited(part) && part != more implies #[trigger] crossed(
        edges,
        part,
        more,
    ) by {
        let old_part = part.intersect(set);
        if set.contains(w) {
            assert(more =~= set);
        } else if !inhabited(old_part) {
            // The part is the new node alone.
            let x = choose|x: usize| part.contains(x);
            assert(!old_part.contains(x));
            assert(x == w);
            assert(!part.contains(s)) by {
                assert(!old_part.contains(s));
            }
            lemma_adjacent_symmetric(edges, s, w);
            assert(adjacent(edges, w, s));
        } else if old_part =~= set {
            // The part is the old set; only the new node is left out.
            assert(!part.contains(w)) by {
                if part.contains(w) {
                    assert(part =~= more);
                }
            }
            assert(adjacent(edges, s, w));
        } else {
            assert(old_part.subset_of(set));
            assert(old_part != set);
            assert(crossed(edges, old_part, set));
            let (a, b) = choose|a: usize, b: usize|
                old_part.contains(a) && set.contains(b) && !old_part.contains(b)
                    && #[trigger] adjacent(edges, a, b);
            assert(part.contains(a) && more.contains(b) && !part.contains(b));
        }
    }
}

/// Being joined by an edge does not depend on the side one starts from.
pub proof fn lemma_adjacent_symmetric(edges: Seq<Edge>, a: usize, b: usize)
    ensures
        adjacent(edges, a, b) == adjacent(edges, b, a),
{
}

/// A connected set that holds more than a given part of it, which is not
/// empty, has a node outside the part that an edge joins to the part.
pub proof fn lemma_connected_reaches_out(
    edges: Seq<Edge>,
    set: Set<usize>,
    part: Set<usize>,
) -> (pair: (usize, usize))
    requires
        connected(edges, set),
        part.subset_of(set),
        inhabited(part),
        part != set,
    ensures
        part.contains(pair.0),
        set.contains(pair.1),
        !part.contains(pair.1),
        adjacent(edges, pair.0, pair.1),
{
    assert(crossed(edges, part, set));
    choose|a: usize, b: usize|
        part.contains(a) && set.contains(b) && !part.contains(b) && #[trigger] adjacent(
            edges,
            a,
            b,
        )
}

/// The identity of a subgraph is a natural number.
pub proof fn lemma_motif_of_natural(edges: Seq<Edge>, n: nat, set: Set<usize>)
    ensures
        0 <= motif_of(edges, n, set),
{
    let list = ascending(set, n);
    let canon = canonical_edges(induced_edges(edges, list), list.len());
    lemma_code_grows(canon, list.len(), 0);
    assert(canon.take(0) =~= Seq::<Edge>::empty());
}

/// A walk through the set: a list of nodes of the set in which every node
/// is joined by an edge to the next.
pub open spec fn is_walk(edges: Seq<Edge>, set: Set<usize>, walk: Seq<usize>) -> bool {
    &&& walk.len() >= 1
    &&& forall|i: int| 0 <= i < walk.len() ==> set.contains(#[trigger] walk[i])
    &&& forall|i: int| 0 <= i < walk.len() - 1 ==> adjacent(edges, #[trigger] walk[i], walk[i + 1])
}

/// Some walk through the set leads from `a` to `b`.
pub open spec fn reaches(edges: Seq<Edge>, set: Set<usize>, a: usize, b: usize) -> bool {
    exists|walk: Seq<usize>| #[trigger]
        is_walk(edges, set, walk) && walk[0] == a && walk[walk.len() - 1] == b
}

/// Every node of the set is reached from every other by a walk through
/// the set, and the set is not empty.
pub open spec fn walk_connected(edges: Seq<Edge>, set: Set<usize>) -> bool {
    &&& inhabited(set)
    &&& forall|a: usize, b: usize|
        set.contains(a) && set.contains(b) ==> #[trigger] reaches(edges, set, a, b)
}

/// A walk that begins in a part of the set and ends outside it has a step
/// that leaves the part.
proof fn lemma_walk_leaves(edges: Seq<Edge>, set: Set<usize>, part: Set<usize>, walk: Seq<usize>)
    requires
        is_walk(edges, set, walk),
        part.contains(walk[0]),
        !part.contains(walk[walk.len() - 1]),
    ensures
        crossed(edges, part, set),
    decreases walk.len(),
{
    if part.contains(walk[1]) {
        let rest = walk.subrange(1, walk.len() as int);
        assert forall|i: int| 0 <= i < rest.len() implies set.contains(#[trigger] rest[i]) by {
            assert(rest[i] == walk[i + 1]);
        }
        assert forall|i: int| 0 <= i < rest.len() - 1 implies adjacent(
            edges,
            #[trigger] rest[i],
            rest[i + 1],
        ) by {
            assert(rest[i] == walk[i + 1]);
            assert(rest[i + 1] == walk[i + 2]);
        }
        lemma_walk_leaves(edges, set, part, rest);
    } else {
        assert(adjacent(edges, walk[0], walk[1]));
        assert(set.contains(walk[1]));
    }
}

/// A set is connected exactly if every node of it is reached from every
/// other by a walk through the set.
pub proof fn lemma_connected_by_walks(edges: Seq<Edge>, set: Set<usize>)
    ensures
        connected(edges, set) <==> walk_connected(edges, set),
{
    if connected(edges, set) {
        assert forall|a: usize, b: usize|
            set.contains(a) && set.contains(b) implies #[trigger] reaches(edges, set, a, b) by {
            let reached = Set::new(|x: usize| set.contains(x) && reaches(edges, set, a, x));
            let alone = seq![a];
            assert(is_walk(edges, set, alone) && alone[0] == a && alone[alone.len() - 1] == a);
            assert(reached.contains(a));
            if !reached.contains(b) {
                let (r, y) = lemma_connected_reaches_out(edges, set, reached);
                let walk = choose|walk: Seq<usize>| #[trigger]
                    is_walk(edges, set, walk) && walk[0] == a && walk[walk.len() - 1] == r;
                let longer = walk.push(y);
                assert forall|i: int| 0 <= i < longer.len() implies set.contains(
                    #[trigger] longer[i],
                ) by {
                    if i < walk.len() {
                        assert(longer[i] == walk[i]);
                    }
                }
                assert forall|i: int| 0 <= i < longer.len() - 1 implies adjacent(
                    edges,
                    #[trigger] longer[i],
                    longer[i + 1],
                ) by {
                    assert(longer[i] == walk[i]);
                    if i + 1 < walk.len() {
                        assert(longer[i + 1] == walk[i + 1]);
                    }
                }
                assert(is_walk(edges, set, longer) && longer[0] == a && longer[longer.len() - 1]
                    == y);
                assert(reached.contains(y));
            }
        }
    }
    if walk_connected(edges, set) {
        assert forall|part: Set<usize>|
            part.subset_of(set) && inhabited(part) && part != set implies #[trigger] crossed(
            edges,
            part,
            set,
        ) by {
            let a = choose|a: usize| part.contains(a);
            if forall|x: usize| part.contains(x) == set.contains(x) {
                assert(part =~= set);
            }
            let b = choose|b: usize| part.contains(b) != set.contains(b);
            assert(reaches(edges, set, a, b));
            let walk = choose|walk: Seq<usize>| #[trigger]
                is_walk(edges, set, walk) && walk[0] == a && walk[walk.len() - 1] == b;
            lemma_walk_leaves(edges, set, part, walk);
        }
    }
}

} // verus!
