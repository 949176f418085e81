//! Motif identities: a graph on `n` nodes as one number, and back.
//!
//! The identity is a number in base `MOTIF_BASE` with one digit for every
//! ordered pair of nodes: the digit at the place `n * i + j` is the weight of
//! the edge from `i` to `j`, and 0 where there is none. The same number
//! stands for different graphs on different numbers of nodes.

use crate::network::add_edge;
use crate::network::add_node;
use crate::network::graph_edges;
use crate::network::graph_labels;
use crate::network::node_count;
use crate::network::raw_edges;
use crate::network::with_capacity;
use crate::network::Edge;
use crate::network::EdgeType;
use crate::network::Network;
use crate::network::CAPACITY_LIMIT;
use crate::network::INDEX_LIMIT;
use vstd::arithmetic::div_mod::lemma_basic_div;
use vstd::arithmetic::div_mod::lemma_div_denominator;
use vstd::arithmetic::div_mod::lemma_fundamental_div_mod_converse;
use vstd::prelude::*;
use vstd::string::StringSliceAdditionalSpecFns;

verus! {

/// The identity of a motif: the adjacency of its canonical form as a number.
pub type MotifId = u64;

/// The base of the identity's digits; an edge's weight is one digit.
pub const MOTIF_BASE: u64 = 4;

/// `MOTIF_BASE` to the power `e`.
pub open spec fn base_pow(e: nat) -> nat
    decreases e,
{
    if e == 0 {
        1
    } else {
        4 * base_pow((e - 1) as nat)
    }
}

/// The digit at which an edge counts in a graph of `n` nodes.
pub open spec fn place_of(n: nat, e: Edge) -> nat {
    (n * e.0 + e.1) as nat
}

/// The number that stands for a list of edges on `n` nodes: every edge
/// adds its weight at the digit `n * source + target`.
pub open spec fn motif_code(edges: Seq<Edge>, n: nat) -> int
    decreases edges.len(),
{
    if edges.len() == 0 {
        0
    } else {
        let e = edges.last();
        motif_code(edges.drop_last(), n) + e.2 * base_pow(place_of(n, e))
    }
}

/// The digit of `id` at place `p`.
pub open spec fn digit(id: nat, p: nat) -> nat {
    (id / base_pow(p)) % 4
}

/// The edges that the digits of `id` below place `upto` stand for on `n`
/// nodes: place `p` is the edge from `p / n` to `p % n`, a digit 0 none.
pub open spec fn decoded_edges(n: nat, id: nat, upto: nat) -> Seq<Edge>
    decreases upto,
{
    if upto == 0 || n == 0 {
        Seq::empty()
    } else {
        let p = (upto - 1) as nat;
        let rest = decoded_edges(n, id, p);
        let d = digit(id, p);
        if d != 0 {
            rest.push(((p / n) as usize, (p % n) as usize, d as u8))
        } else {
            rest
        }
    }
}

/// Powers of the base grow with the exponent.
pub proof fn lemma_base_pow_increases(a: nat, b: nat)
    requires
        a <= b,
    ensures
        0 < base_pow(a) <= base_pow(b),
    decreases b,
{
    if a < b {
        lemma_base_pow_increases(a, (b - 1) as nat);
    } else if a > 0 {
        lemma_base_pow_increases((a - 1) as nat, (a - 1) as nat);
    }
}

/// Thirty-two digits fill a machine word.
pub proof fn lemma_base_pow_word()
    ensures
        base_pow(32) == 0x1_0000_0000_0000_0000,
{
    assert(base_pow(4) == 256) by {
        reveal_with_fuel(base_pow, 5);
    }
    assert(base_pow(8) == 65536) by {
        reveal_with_fuel(base_pow, 5);
    }
    assert(base_pow(12) == 0x100_0000) by {
        reveal_with_fuel(base_pow, 5);
    }
    assert(base_pow(16) == 0x1_0000_0000) by {
        reveal_with_fuel(base_pow, 5);
    }
    assert(base_pow(20) == 0x100_0000_0000) by {
        reveal_with_fuel(base_pow, 5);
    }
    assert(base_pow(24) == 0x1_0000_0000_0000) by {
        reveal_with_fuel(base_pow, 5);
    }
    assert(base_pow(28) == 0x100_0000_0000_0000) by {
        reveal_with_fuel(base_pow, 5);
    }
    assert(base_pow(32) == 0x1_0000_0000_0000_0000) by {
        reveal_with_fuel(base_pow, 5);
    }
}

/// A power of the base that fits a machine word has an exponent below 32.
pub proof fn lemma_base_pow_fits(e: nat)
    requires
        base_pow(e) <= u64::MAX,
    ensures
        e < 32,
{
    if e >= 32 {
        lemma_base_pow_word();
        lemma_base_pow_increases(32, e);
    }
}

/// The code of the first edges of a list is at most the code of the list.
pub proof fn lemma_code_grows(edges: Seq<Edge>, n: nat, i: int)
    requires
        0 <= i <= edges.len(),
    ensures
        motif_code(edges.take(i), n) <= motif_code(edges, n),
    decreases edges.len() - i,
{
    if i < edges.len() {
        lemma_code_grows(edges, n, i + 1);
        assert(edges.take(i + 1).drop_last() =~= edges.take(i));
        let e = edges[i];
        assert(e.2 * base_pow(place_of(n, e)) >= 0) by (nonlinear_arith)
            requires
                e.2 >= 0,
                base_pow(place_of(n, e)) >= 0,
        ;
    } else {
        assert(edges.take(i) =~= edges);
    }
}

/// `MOTIF_BASE` to the power `e`, where that fits a machine word.
fn power(e: u64) -> (value: u64)
    requires
        base_pow(e as nat) <= u64::MAX,
    ensures
        value == base_pow(e as nat),
{
    let mut value: u64 = 1;
    let mut i: u64 = 0;
    while i < e
        invariant
            i <= e,
            value == base_pow(i as nat),
            base_pow(e as nat) <= u64::MAX,
        decreases e - i,
    {
        proof {
            lemma_base_pow_increases((i + 1) as nat, e as nat);
        }
        value = value * MOTIF_BASE;
        i += 1;
    }
    value
}

/// The identity of a motif: the code of its edges on its nodes.
pub fn motif_id(motif: &Network) -> (id: MotifId)
    requires
        motif_code(graph_edges(*motif), graph_labels(*motif).len()) <= u64::MAX,
    ensures
        id == motif_code(graph_edges(*motif), graph_labels(*motif).len()),
{
    let mut id: u64 = 0;
    let n = node_count(motif);
    let edges = raw_edges(motif);
    let mut i: usize = 0;
    while i < edges.len()
        invariant
            i <= edges@.len(),
            n <= INDEX_LIMIT,
            id == motif_code(edges@.take(i as int), n as nat),
            motif_code(edges@, n as nat) <= u64::MAX,
        decreases edges@.len() - i,
    {
        let (from, to, weight) = edges[i];
        proof {
            lemma_code_grows(edges@, n as nat, i + 1);
            assert(edges@.take(i + 1).drop_last() =~= edges@.take(i as int));
            assert(edges@.take(i + 1).last() == edges@[i as int]);
            assert(motif_code(edges@.take(i + 1), n as nat) == id + weight * base_pow(
                place_of(n as nat, edges@[i as int]),
            ));
        }
        if weight != 0 {
            let ghost place = place_of(n as nat, edges@[i as int]);
            proof {
                assert(base_pow(place) <= weight * base_pow(place)) by (nonlinear_arith)
                    requires
                        weight >= 1,
                        base_pow(place) >= 0,
                ;
                lemma_base_pow_fits(place);
                assert(n * from >= 0) by (nonlinear_arith)
                    requires
                        n >= 0,
                        from >= 0,
                ;
            }
            let place: u64 = (n as u64) * (from as u64) + (to as u64);
            let unit = power(place);
            proof {
                assert(unit * weight == weight * unit) by (nonlinear_arith);
            }
            let edge_id = unit * (weight as u64);
            id += edge_id;
        } else {
            proof {
                let unit = base_pow(place_of(n as nat, edges@[i as int]));
                assert(weight * unit == 0) by (nonlinear_arith)
                    requires
                        weight == 0,
                ;
            }
        }
        i += 1;
    }
    proof {
        assert(edges@.take(i as int) =~= edges@);
    }
    id
}

/// The labels of `n` nodes without a name.
pub open spec fn blank_labels(n: nat) -> Seq<Seq<char>> {
    Seq::new(n, |i: int| Seq::<char>::empty())
}

/// The network on `n` nodes that the identity `id` stands for: the digits
/// of `id` are read from the lowest on, one for every ordered pair of nodes
/// row by row, and every digit but 0 becomes an edge of that weight.
pub fn id_to_network(n: usize, id: MotifId) -> (net: Network)
    requires
        n <= INDEX_LIMIT,
    ensures
        graph_labels(net) == blank_labels(n as nat),
        graph_edges(net) == decoded_edges(n as nat, id as nat, (n * n) as nat),
{
    let hint = if n <= CAPACITY_LIMIT { n } else { CAPACITY_LIMIT };
    let mut net = with_capacity(hint, 0);
    let mut k: usize = 0;
    while k < n
        invariant
            k <= n,
            n <= INDEX_LIMIT,
            graph_labels(net) == blank_labels(k as nat),
            graph_edges(net) == Seq::<Edge>::empty(),
        decreases n - k,
    {
        add_node(&mut net, String::new());
        k += 1;
        proof {
            assert(graph_labels(net) =~= blank_labels(k as nat));
        }
    }
    let mut rest: u64 = id;
    let ghost mut p: nat = 0;
    let mut i: usize = 0;
    proof {
        assert(base_pow(0) == 1);
        assert(id as nat / 1 == id as nat);
    }
    while i < n
        invariant
            i <= n,
            n <= INDEX_LIMIT,
            p == i * n,
            rest as nat == id as nat / base_pow(p),
            p >= 32 ==> rest == 0,
            graph_labels(net) == blank_labels(n as nat),
            graph_edges(net) == decoded_edges(n as nat, id as nat, p),
            graph_edges(net).len() <= 32,
            graph_edges(net).len() <= p,
        decreases n - i,
    {
        let mut j: usize = 0;
        while j < n
            invariant
                j <= n,
                i < n,
                n <= INDEX_LIMIT,
                p == i * n + j,
                rest as nat == id as nat / base_pow(p),
                p >= 32 ==> rest == 0,
                graph_labels(net) == blank_labels(n as nat),
                graph_edges(net) == decoded_edges(n as nat, id as nat, p),
                graph_edges(net).len() <= 32,
                graph_edges(net).len() <= p,
            decreases n - j,
        {
            let e = rest % MOTIF_BASE;
            proof {
                lemma_base_pow_increases(p, p);
                lemma_div_denominator(id as int, base_pow(p) as int, 4);
                assert(base_pow(p + 1) == 4 * base_pow(p));
                assert(base_pow(p) * 4 == 4 * base_pow(p));
                lemma_fundamental_div_mod_converse(p as int, n as int, i as int, j as int);
                if p == 31 {
                    lemma_base_pow_word();
                    lemma_basic_div(id as int, base_pow(32) as int);
                }
                assert(digit(id as nat, p) == e);
            }
            rest = rest / MOTIF_BASE;
            if e != 0 {
                add_edge(&mut net, i, j, e as EdgeType);
            }
            j += 1;
            proof {
                p = p + 1;
            }
        }
        proof {
            assert((i + 1) * n == i * n + n) by (nonlinear_arith);
        }
        i += 1;
    }
    net
}

/// The part of a numeral that holds its digits: all of it, but for a plus
/// sign in front.
pub open spec fn numeral_digits(bytes: Seq<u8>) -> Seq<u8> {
    if bytes.len() > 0 && bytes[0] == 43 {
        bytes.skip(1)
    } else {
        bytes
    }
}

/// The bytes are digits of the base, at least one.
pub open spec fn is_digits(bytes: Seq<u8>) -> bool {
    bytes.len() > 0 && forall|i: int| 0 <= i < bytes.len() ==> 48 <= #[trigger] bytes[i] <= 51
}

/// The number that a string of digits of the base spells, the first digit
/// being the highest.
pub open spec fn digits_value(bytes: Seq<u8>) -> int
    decreases bytes.len(),
{
    if bytes.len() == 0 {
        0
    } else {
        4 * digits_value(bytes.drop_last()) + (bytes.last() - 48)
    }
}

/// The first digits of a string spell at most what the string spells.
pub proof fn lemma_digits_grow(bytes: Seq<u8>, i: int)
    requires
        0 <= i <= bytes.len(),
        forall|j: int| 0 <= j < bytes.len() ==> 48 <= #[trigger] bytes[j] <= 51,
    ensures
        0 <= digits_value(bytes.take(i)) <= digits_value(bytes),
    decreases bytes.len() - i,
{
    if i < bytes.len() {
        lemma_digits_grow(bytes, i + 1);
        assert(bytes.take(i + 1).drop_last() =~= bytes.take(i));
        lemma_digits_nonnegative(bytes.take(i));
    } else {
        assert(bytes.take(i) =~= bytes);
        lemma_digits_nonnegative(bytes);
    }
}

proof fn lemma_digits_nonnegative(bytes: Seq<u8>)
    requires
        forall|j: int| 0 <= j < bytes.len() ==> 48 <= #[trigger] bytes[j] <= 51,
    ensures
        0 <= digits_value(bytes),
    decreases bytes.len(),
{
    if bytes.len() > 0 {
        lemma_digits_nonnegative(bytes.drop_last());
    }
}

/// The identity that a numeral in the base spells, such as `"0100"`.
pub fn motif_str(s: &str) -> (id: MotifId)
    requires
        is_digits(numeral_digits(s.spec_bytes())),
        digits_value(numeral_digits(s.spec_bytes())) <= u64::MAX,
    ensures
        id == digits_value(numeral_digits(s.spec_bytes())),
{
    let bytes = s.as_bytes();
    let start: usize = if bytes[0] == 43 { 1 } else { 0 };
    let ghost digits = numeral_digits(bytes@);
    let mut id: u64 = 0;
    let mut i: usize = start;
    while i < bytes.len()
        invariant
            start <= i <= bytes@.len(),
            digits == bytes@.skip(start as int),
            is_digits(digits),
            digits_value(digits) <= u64::MAX,
            id == digits_value(digits.take(i - start)),
        decreases bytes@.len() - i,
    {
        proof {
            lemma_digits_grow(digits, i - start + 1);
            assert(digits.take(i - start + 1).drop_last() =~= digits.take(i - start));
            assert(digits[i - start] == bytes@[i as int]);
        }
        id = MOTIF_BASE * id + (bytes[i] - 48) as u64;
        i += 1;
    }
    proof {
        assert(digits.take(i - start) =~= digits);
    }
    id
}

} // verus!
