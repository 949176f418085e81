//! The digits of a motif identity.
//!
//! The code of a list of edges is a sum over the edges. Read place by
//! place it is a number in the base of the identities whose digit at a
//! place is the weight found there, as long as no place holds more than one
//! digit can take.

use crate::identity::base_pow;
use crate::identity::decoded_edges;
use crate::identity::digit;
use crate::identity::lemma_base_pow_increases;
use crate::identity::motif_code;
use crate::identity::place_of;
use crate::network::edges_within;
use crate::network::Edge;
use vstd::arithmetic::div_mod::lemma_fundamental_div_mod;
use vstd::arithmetic::div_mod::lemma_fundamental_div_mod_converse;
use vstd::arithmetic::div_mod::lemma_hoist_over_denominator;
use vstd::arithmetic::div_mod::lemma_mod_breakdown;
use vstd::arithmetic::div_mod::lemma_mod_multiples_vanish;
use vstd::arithmetic::div_mod::lemma_small_mod;
use vstd::prelude::*;

verus! {

/// The sum of the weights of the edges that count at the place `p`.
pub open spec fn weight_at(edges: Seq<Edge>, n: nat, p: nat) -> int
    decreases edges.len(),
{
    if edges.len() == 0 {
        0
    } else {
        weight_at(edges.drop_last(), n, p) + if place_of(n, edges.last()) == p {
            edges.last().2 as int
        } else {
            0
        }
    }
}

/// The number whose digits below the place `upto` are the weights at those
/// places.
pub open spec fn value_upto(edges: Seq<Edge>, n: nat, upto: nat) -> int
    decreases upto,
{
    if upto == 0 {
        0
    } else {
        value_upto(edges, n, (upto - 1) as nat) + weight_at(edges, n, (upto - 1) as nat)
            * base_pow((upto - 1) as nat)
    }
}

/// No two edges of the list join the same nodes in the same direction.
pub open spec fn is_simple(edges: Seq<Edge>) -> bool {
    forall|i: int, j: int|
        0 <= i < j < edges.len() ==> (#[trigger] edges[i]).0 != (#[trigger] edges[j]).0
            || edges[i].1 != edges[j].1
}

/// Every weight is a digit other than 0.
pub open spec fn has_digit_weights(edges: Seq<Edge>) -> bool {
    forall|i: int| 0 <= i < edges.len() ==> 1 <= (#[trigger] edges[i]).2 <= 3
}

/// The edges of a network whose identity tells it from every other: they
/// end at nodes below `n`, no two join the same nodes in the same
/// direction, and every weight is a digit other than 0.
pub open spec fn well_formed(edges: Seq<Edge>, n: nat) -> bool {
    &&& edges_within(edges, n)
    &&& is_simple(edges)
    &&& has_digit_weights(edges)
}

/// Powers of the base multiply as their exponents add.
pub proof fn lemma_base_pow_adds(a: nat, b: nat)
    ensures
        base_pow(a + b) == base_pow(a) * base_pow(b),
    decreases a,
{
    if a == 0 {
        assert(base_pow(0) == 1);
        assert(1 * base_pow(b) == base_pow(b));
    } else {
        lemma_base_pow_adds((a - 1) as nat, b);
        assert(base_pow(a + b) == 4 * base_pow((a + b - 1) as nat));
        assert(4 * (base_pow((a - 1) as nat) * base_pow(b)) == (4 * base_pow((a - 1) as nat))
            * base_pow(b)) by (nonlinear_arith);
    }
}

/// The place of an edge between nodes below `n` lies below `n * n` and
/// gives the two nodes back.
pub proof fn lemma_place(n: nat, e: Edge)
    requires
        e.0 < n,
        e.1 < n,
    ensures
        place_of(n, e) < n * n,
        place_of(n, e) / n == e.0,
        place_of(n, e) % n == e.1,
{
    let a = e.0 as int;
    let b = e.1 as int;
    assert(n * a + b < n * n) by (nonlinear_arith)
        requires
            0 <= a < n,
            0 <= b < n,
    ;
    assert(n * a == a * n) by (nonlinear_arith);
    lemma_fundamental_div_mod_converse(place_of(n, e) as int, n as int, a, b);
}

/// Without edges no place holds a weight.
proof fn lemma_value_of_none(n: nat, upto: nat)
    ensures
        value_upto(Seq::<Edge>::empty(), n, upto) == 0,
    decreases upto,
{
    if upto > 0 {
        lemma_value_of_none(n, (upto - 1) as nat);
        assert(weight_at(Seq::<Edge>::empty(), n, (upto - 1) as nat) == 0);
        assert(0 * base_pow((upto - 1) as nat) == 0);
    }
}

/// One more edge adds its weight at its place, where that lies below `upto`.
proof fn lemma_value_of_more(edges: Seq<Edge>, n: nat, upto: nat)
    requires
        edges.len() > 0,
    ensures
        value_upto(edges, n, upto) == value_upto(edges.drop_last(), n, upto) + if place_of(
            n,
            edges.last(),
        ) < upto {
            edges.last().2 * base_pow(place_of(n, edges.last()))
        } else {
            0
        },
    decreases upto,
{
    if upto > 0 {
        let p = (upto - 1) as nat;
        lemma_value_of_more(edges, n, p);
        let w = edges.last().2 as int;
        let rest = weight_at(edges.drop_last(), n, p);
        let unit = base_pow(p) as int;
        if place_of(n, edges.last()) == p {
            assert((rest + w) * unit == rest * unit + w * unit) by (nonlinear_arith);
        }
    }
}

/// The code of a list of edges is the number whose digits are the weights
/// at the places, taken up to a place above all edges.
pub proof fn lemma_code_by_places(edges: Seq<Edge>, n: nat, upto: nat)
    requires
        forall|i: int| 0 <= i < edges.len() ==> place_of(n, #[trigger] edges[i]) < upto,
    ensures
        motif_code(edges, n) == value_upto(edges, n, upto),
    decreases edges.len(),
{
    if edges.len() == 0 {
        lemma_value_of_none(n, upto);
        assert(edges =~= Seq::<Edge>::empty());
    } else {
        let rest = edges.drop_last();
        assert forall|i: int| 0 <= i < rest.len() implies place_of(n, #[trigger] rest[i])
            < upto by {
            assert(rest[i] == edges[i]);
        }
        lemma_code_by_places(rest, n, upto);
        lemma_value_of_more(edges, n, upto);
        assert(place_of(n, edges[edges.len() - 1]) < upto);
    }
}

/// Where every place holds a digit, the number of the places below `upto`
/// has `upto` digits, and they are the weights at the places.
pub proof fn lemma_digits_are_weights(edges: Seq<Edge>, n: nat, upto: nat)
    requires
        forall|p: nat| p < upto ==> 0 <= #[trigger] weight_at(edges, n, p) <= 3,
    ensures
        0 <= value_upto(edges, n, upto) < base_pow(upto),
        forall|p: nat|
            p < upto ==> #[trigger] digit(value_upto(edges, n, upto) as nat, p) == weight_at(
                edges,
                n,
                p,
            ),
    decreases upto,
{
    if upto == 0 {
        assert(base_pow(0) == 1);
    } else {
        let top = (upto - 1) as nat;
        let low = value_upto(edges, n, top);
        let w = weight_at(edges, n, top);
        let unit = base_pow(top) as int;
        let all = value_upto(edges, n, upto);
        lemma_digits_are_weights(edges, n, top);
        lemma_base_pow_increases(top, top);
        assert(0 <= w * unit <= 3 * unit) by (nonlinear_arith)
            requires
                0 <= w <= 3,
                0 < unit,
        ;
        assert(base_pow(upto) == 4 * base_pow(top));
        assert forall|p: nat| p < upto implies #[trigger] digit(all as nat, p) == weight_at(
            edges,
            n,
            p,
        ) by {
            if p == top {
                lemma_fundamental_div_mod_converse(all, unit, w, low);
                lemma_small_mod(w as nat, 4);
            } else {
                let step = base_pow(p) as int;
                let gap = (top - p) as nat;
                lemma_base_pow_increases(p, p);
                lemma_base_pow_adds(gap, p);
                assert(top == gap + p);
                assert(base_pow(gap) == 4 * base_pow((gap - 1) as nat));
                let lift = w * base_pow(gap);
                assert(w * unit == lift * step) by (nonlinear_arith)
                    requires
                        unit == base_pow(gap) * step,
                        lift == w * base_pow(gap),
                ;
                lemma_hoist_over_denominator(low, lift, step as nat);
                assert(all / step == low / step + lift);
                let higher = w * base_pow((gap - 1) as nat);
                assert(lift == 4 * higher) by (nonlinear_arith)
                    requires
                        lift == w * base_pow(gap),
                        base_pow(gap) == 4 * base_pow((gap - 1) as nat),
                        higher == w * base_pow((gap - 1) as nat),
                ;
                lemma_mod_multiples_vanish(higher, low / step, 4);
                assert(digit(low as nat, p) == weight_at(edges, n, p));
            }
        }
    }
}

/// Reading a number place by place and writing the digits as edges gives
/// a code that is the number, as far as the places go.
pub proof fn lemma_code_of_decoded(n: nat, id: nat, upto: nat)
    requires
        0 < n <= usize::MAX,
        upto <= n * n,
    ensures
        motif_code(decoded_edges(n, id, upto), n) == id % base_pow(upto),
    decreases upto,
{
    if upto == 0 {
        assert(base_pow(0) == 1);
        assert(id % 1 == 0);
    } else {
        let p = (upto - 1) as nat;
        lemma_code_of_decoded(n, id, p);
        let d = digit(id, p);
        let unit = base_pow(p) as int;
        lemma_base_pow_increases(p, p);
        lemma_mod_breakdown(id as int, unit, 4);
        assert(base_pow(upto) == 4 * base_pow(p));
        assert(unit * 4 == 4 * unit);
        assert(unit * d == d * unit) by (nonlinear_arith);
        if d != 0 {
            let a = p / n;
            let b = p % n;
            lemma_fundamental_div_mod(p as int, n as int);
            assert(a < n) by (nonlinear_arith)
                requires
                    p < n * n,
                    p == n * a + b,
                    b >= 0,
                    n > 0,
                    a >= 0,
            ;
            let e = (a as usize, b as usize, d as u8);
            assert(place_of(n, e) == p);
            let list = decoded_edges(n, id, upto);
            assert(list.drop_last() =~= decoded_edges(n, id, p));
            assert(list.last() == e);
        }
    }
}

/// The edge that the digit of `id` at the place `p` stands for is `e`.
pub open spec fn decodes_to(n: nat, id: nat, p: nat, e: Edge) -> bool {
    digit(id, p) != 0 && e == ((p / n) as usize, (p % n) as usize, digit(id, p) as u8)
}

/// The edges read off a number are those that its digits stand for.
pub proof fn lemma_decoded_members(n: nat, id: nat, upto: nat, e: Edge)
    requires
        n > 0,
    ensures
        decoded_edges(n, id, upto).contains(e) <==> exists|p: nat|
            p < upto && #[trigger] decodes_to(n, id, p, e),
    decreases upto,
{
    let list = decoded_edges(n, id, upto);
    if upto == 0 {
    } else {
        let top = (upto - 1) as nat;
        let rest = decoded_edges(n, id, top);
        lemma_decoded_members(n, id, top, e);
        if list.contains(e) {
            let i = choose|i: int| 0 <= i < list.len() && list[i] == e;
            if i < rest.len() {
                assert(rest[i] == e);
                assert(rest.contains(e));
                let p = choose|p: nat| p < top && #[trigger] decodes_to(n, id, p, e);
                assert(p < upto && decodes_to(n, id, p, e));
            } else {
                assert(decodes_to(n, id, top, e));
            }
        }
        if exists|p: nat| p < upto && #[trigger] decodes_to(n, id, p, e) {
            let p = choose|p: nat| p < upto && #[trigger] decodes_to(n, id, p, e);
            if p < top {
                assert(rest.contains(e));
                let i = choose|i: int| 0 <= i < rest.len() && rest[i] == e;
                assert(list[i] == e);
            } else {
                assert(list[list.len() - 1] == e);
            }
        }
    }
}

/// In a well-formed list the weight at a place is the weight of the edge
/// that counts there, and 0 where none does.
pub proof fn lemma_weight_of_place(edges: Seq<Edge>, n: nat, p: nat)
    requires
        well_formed(edges, n),
    ensures
        forall|i: int|
            0 <= i < edges.len() && place_of(n, #[trigger] edges[i]) == p ==> weight_at(
                edges,
                n,
                p,
            ) == edges[i].2,
        (forall|i: int| 0 <= i < edges.len() ==> place_of(n, #[trigger] edges[i]) != p)
            ==> weight_at(edges, n, p) == 0,
        0 <= weight_at(edges, n, p) <= 3,
    decreases edges.len(),
{
    if edges.len() > 0 {
        let rest = edges.drop_last();
        let last = edges.last();
        assert forall|i: int| 0 <= i < rest.len() implies rest[i] == edges[i] by {
        }
        assert(well_formed(rest, n)) by {
            assert forall|i: int, j: int| 0 <= i < j < rest.len() implies (#[trigger] rest[i]).0
                != (#[trigger] rest[j]).0 || rest[i].1 != rest[j].1 by {
                assert(rest[i] == edges[i] && rest[j] == edges[j]);
            }
            assert forall|i: int| 0 <= i < rest.len() implies (#[trigger] rest[i]).0 < n
                && rest[i].1 < n by {
                assert(rest[i] == edges[i]);
            }
            assert forall|i: int| 0 <= i < rest.len() implies 1 <= (#[trigger] rest[i]).2
                <= 3 by {
                assert(rest[i] == edges[i]);
            }
        }
        lemma_weight_of_place(rest, n, p);
        assert(last == edges[edges.len() - 1]);
        if place_of(n, last) == p {
            lemma_place(n, last);
            assert forall|i: int| 0 <= i < rest.len() implies place_of(n, #[trigger] rest[i])
                != p by {
                lemma_place(n, rest[i]);
                assert(rest[i] == edges[i]);
            }
            assert forall|i: int|
                0 <= i < edges.len() && place_of(n, #[trigger] edges[i]) == p implies weight_at(
                edges,
                n,
                p,
            ) == edges[i].2 by {
                if i < rest.len() {
                    assert(rest[i] == edges[i]);
                }
            }
        } else {
            assert forall|i: int|
                0 <= i < edges.len() && place_of(n, #[trigger] edges[i]) == p implies weight_at(
                edges,
                n,
                p,
            ) == edges[i].2 by {
                assert(rest[i] == edges[i]);
            }
            if forall|i: int| 0 <= i < edges.len() ==> place_of(n, #[trigger] edges[i]) != p {
                assert forall|i: int| 0 <= i < rest.len() implies place_of(
                    n,
                    #[trigger] rest[i],
                ) != p by {
                    assert(rest[i] == edges[i]);
                }
            }
        }
    }
}

/// The code of a well-formed list of edges on `n` nodes has `n * n`
/// digits, and its digit at a place is the weight at that place.
pub proof fn lemma_code_digits(edges: Seq<Edge>, n: nat)
    requires
        well_formed(edges, n),
    ensures
        0 <= motif_code(edges, n) < base_pow(n * n),
        forall|p: nat|
            p < n * n ==> #[trigger] digit(motif_code(edges, n) as nat, p) == weight_at(
                edges,
                n,
                p,
            ),
{
    assert forall|i: int| 0 <= i < edges.len() implies place_of(n, #[trigger] edges[i]) < n
        * n by {
        lemma_place(n, edges[i]);
    }
    lemma_code_by_places(edges, n, n * n);
    assert forall|p: nat| p < n * n implies 0 <= #[trigger] weight_at(edges, n, p) <= 3 by {
        lemma_weight_of_place(edges, n, p);
    }
    lemma_digits_are_weights(edges, n, n * n);
}

/// Decoding the identity of a well-formed network gives its edges back:
/// an edge is read off the code of the list exactly if the list holds it.
pub proof fn lemma_decode_inverts_encode(edges: Seq<Edge>, n: nat, e: Edge)
    requires
        n <= usize::MAX,
        well_formed(edges, n),
    ensures
        decoded_edges(n, motif_code(edges, n) as nat, n * n).contains(e) <==> edges.contains(e),
{
    let id = motif_code(edges, n) as nat;
    let list = decoded_edges(n, id, n * n);
    if n == 0 {
        if edges.contains(e) {
            let i = choose|i: int| 0 <= i < edges.len() && edges[i] == e;
            assert(edges[i].0 < n);
        }
    } else {
        lemma_code_digits(edges, n);
        lemma_decoded_members(n, id, n * n, e);
        if list.contains(e) {
            let p = choose|p: nat| p < n * n && #[trigger] decodes_to(n, id, p, e);
            lemma_weight_of_place(edges, n, p);
            assert(digit(id, p) == weight_at(edges, n, p));
            let i = choose|i: int| 0 <= i < edges.len() && place_of(n, #[trigger] edges[i]) == p;
            lemma_place(n, edges[i]);
            assert(edges[i] == e);
        }
        if edges.contains(e) {
            let i = choose|i: int| 0 <= i < edges.len() && edges[i] == e;
            let p = place_of(n, e);
            lemma_place(n, edges[i]);
            lemma_weight_of_place(edges, n, p);
            assert(digit(id, p) == weight_at(edges, n, p));
            assert(decodes_to(n, id, p, e));
        }
    }
}

/// Encoding what an identity decodes to gives the identity back, as long
/// as the identity has no digit beyond the last pair of nodes.
pub proof fn lemma_encode_inverts_decode(n: nat, id: nat)
    requires
        n <= usize::MAX,
        id < base_pow(n * n),
    ensures
        motif_code(decoded_edges(n, id, n * n), n) == id,
{
    if n == 0 {
        assert(n * n == 0);
        assert(base_pow(0) == 1);
    } else {
        lemma_code_of_decoded(n, id, n * n);
        lemma_small_mod(id, base_pow(n * n));
    }
}

/// Two well-formed networks on `n` nodes have the same identity exactly if
/// they have the same edges.
pub proof fn lemma_identity_tells_apart(a: Seq<Edge>, b: Seq<Edge>, n: nat)
    requires
        n <= usize::MAX,
        well_formed(a, n),
        well_formed(b, n),
    ensures
        motif_code(a, n) == motif_code(b, n) <==> a.to_set() == b.to_set(),
{
    if motif_code(a, n) == motif_code(b, n) {
        assert forall|e: Edge| a.to_set().contains(e) == b.to_set().contains(e) by {
            lemma_decode_inverts_encode(a, n, e);
            lemma_decode_inverts_encode(b, n, e);
        }
        assert(a.to_set() =~= b.to_set());
    }
    if a.to_set() == b.to_set() {
        lemma_same_edges_same_code(a, b, n);
    }
}

/// Two well-formed lists with the same edges have the same code.
pub proof fn lemma_same_edges_same_code(a: Seq<Edge>, b: Seq<Edge>, n: nat)
    requires
        well_formed(a, n),
        well_formed(b, n),
        a.to_set() == b.to_set(),
    ensures
        motif_code(a, n) == motif_code(b, n),
{
    assert forall|p: nat| weight_at(a, n, p) == weight_at(b, n, p) by {
        lemma_weight_of_place(a, n, p);
        lemma_weight_of_place(b, n, p);
        if exists|i: int| 0 <= i < a.len() && place_of(n, #[trigger] a[i]) == p {
            let i = choose|i: int| 0 <= i < a.len() && place_of(n, #[trigger] a[i]) == p;
            assert(a.to_set().contains(a[i]));
            assert(b.contains(a[i]));
            let j = choose|j: int| 0 <= j < b.len() && b[j] == a[i];
            assert(place_of(n, b[j]) == p);
        } else if exists|j: int| 0 <= j < b.len() && place_of(n, #[trigger] b[j]) == p {
            let j = choose|j: int| 0 <= j < b.len() && place_of(n, #[trigger] b[j]) == p;
            assert(b.to_set().contains(b[j]));
            assert(a.contains(b[j]));
            let i = choose|i: int| 0 <= i < a.len() && a[i] == b[j];
            assert(place_of(n, a[i]) == p);
        }
    }
    assert forall|i: int| 0 <= i < a.len() implies place_of(n, #[trigger] a[i]) < n * n by {
        lemma_place(n, a[i]);
    }
    assert forall|i: int| 0 <= i < b.len() implies place_of(n, #[trigger] b[i]) < n * n by {
        lemma_place(n, b[i]);
    }
    lemma_code_by_places(a, n, n * n);
    lemma_code_by_places(b, n, n * n);
    lemma_same_weights_same_value(a, b, n, n * n);
}

/// Two lists with the same weights at all places give the same number.
proof fn lemma_same_weights_same_value(a: Seq<Edge>, b: Seq<Edge>, n: nat, upto: nat)
    requires
        forall|p: nat| weight_at(a, n, p) == weight_at(b, n, p),
    ensures
        value_upto(a, n, upto) == value_upto(b, n, upto),
    decreases upto,
{
    if upto > 0 {
        lemma_same_weights_same_value(a, b, n, (upto - 1) as nat);
    }
}

} // verus!
