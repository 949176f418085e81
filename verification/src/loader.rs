//! Networks from adjacency matrices written as text.
//!
//! The text holds the entries of a square matrix row by row, parted by
//! white space: `0` for no edge, `1` and `2` for edges of those kinds and
//! `-1` for an edge of the third kind.

use crate::digits::well_formed;
use crate::identity::place_of;
use crate::network::add_edge;
use crate::network::add_node;
use crate::network::graph_edges;
use crate::network::graph_labels;
use crate::network::with_capacity;
use crate::network::Edge;
use crate::network::EdgeType;
use crate::network::Network;
use crate::network::CAPACITY_LIMIT;
use crate::network::INDEX_LIMIT;
use vstd::arithmetic::div_mod::lemma_fundamental_div_mod;
use vstd::arithmetic::div_mod::lemma_fundamental_div_mod_converse;
use vstd::prelude::*;
use vstd::string::StringExecFns;

verus! {

/// The words of a text: what `str::split_whitespace` finds in it.
pub uninterp spec fn whitespace_words(text: Seq<char>) -> Seq<Seq<char>>;

/// `str::split_whitespace`: the words of the text, in their order, each as
/// a string of its own.
#[verifier::external_body]
fn split_whitespace(text: &str) -> (words: Vec<String>)
    ensures
        words@.len() == whitespace_words(text@).len(),
        forall|i: int|
            0 <= i < words@.len() ==> (#[trigger] words@[i])@ == whitespace_words(text@)[i],
{
    text.split_whitespace().map(|word| word.to_owned()).collect()
}

/// The entry that a word stands for, where it stands for one.
pub open spec fn entry_of(word: Seq<char>) -> Option<EdgeType> {
    if word == "1"@ {
        Some(1u8)
    } else if word == "2"@ {
        Some(2u8)
    } else if word == "-1"@ {
        Some(3u8)
    } else if word == "0"@ {
        Some(0u8)
    } else {
        None
    }
}

/// The entries that the words stand for, where each stands for one.
pub open spec fn entries_of(words: Seq<Seq<char>>) -> Option<Seq<EdgeType>> {
    if forall|i: int| 0 <= i < words.len() ==> entry_of(#[trigger] words[i]) is Some {
        Some(Seq::new(words.len(), |i: int| entry_of(words[i])->0))
    } else {
        None
    }
}

/// The entry that a word stands for.
fn read_entry(word: &String) -> (entry: Option<EdgeType>)
    ensures
        entry == entry_of(word@),
{
    if *word == String::from_str("1") {
        Some(1)
    } else if *word == String::from_str("2") {
        Some(2)
    } else if *word == String::from_str("-1") {
        Some(3)
    } else if *word == String::from_str("0") {
        Some(0)
    } else {
        None
    }
}

/// The entries that words stand for are digits.
pub proof fn lemma_entries_are_digits(words: Seq<Seq<char>>)
    requires
        entries_of(words) is Some,
    ensures
        forall|i: int| 0 <= i < words.len() ==> #[trigger] entries_of(words)->0[i] <= 3,
{
}

/// The entries of the matrix that the words of a text stand for; nothing
/// where a word is none of `0`, `1`, `2` and `-1`.
pub fn read_entries(words: &Vec<String>) -> (entries: Option<Vec<EdgeType>>)
    ensures
        match entries {
            Some(list) => entries_of(Seq::new(words@.len(), |i: int| words@[i]@)) == Some(list@),
            None => entries_of(Seq::new(words@.len(), |i: int| words@[i]@)) is None,
        },
{
    let ghost texts = Seq::new(words@.len(), |i: int| words@[i]@);
    let mut list: Vec<EdgeType> = Vec::new();
    let mut i: usize = 0;
    while i < words.len()
        invariant
            i <= words@.len(),
            texts == Seq::new(words@.len(), |i: int| words@[i]@),
            list@.len() == i,
            forall|h: int| 0 <= h < i ==> entry_of(#[trigger] texts[h]) == Some(list@[h]),
        decreases words@.len() - i,
    {
        match read_entry(&words[i]) {
            Some(entry) => {
                list.push(entry);
            },
            None => {
                proof {
                    assert(entry_of(texts[i as int]) is None);
                }
                return None;
            },
        }
        i += 1;
    }
    proof {
        assert(list@ =~= Seq::new(texts.len(), |i: int| entry_of(texts[i])->0));
    }
    Some(list)
}

/// The entries of the matrix that a text holds; nothing where a word of
/// the text is none of `0`, `1`, `2` and `-1`.
pub fn parse_adjacency(text: &str) -> (entries: Option<Vec<EdgeType>>)
    ensures
        match entries {
            Some(list) => entries_of(whitespace_words(text@)) == Some(list@) && forall|i: int|
                0 <= i < list@.len() ==> #[trigger] list@[i] <= 3,
            None => entries_of(whitespace_words(text@)) is None,
        },
{
    let words = split_whitespace(text);
    proof {
        assert(Seq::new(words@.len(), |i: int| words@[i]@) =~= whitespace_words(text@));
        if entries_of(whitespace_words(text@)) is Some {
            lemma_entries_are_digits(whitespace_words(text@));
        }
    }
    read_entries(&words)
}

/// The size of the square matrix that `count` entries fill: the greatest
/// `n` whose square is at most `count + 1`.
pub fn matrix_size(count: usize) -> (n: usize)
    ensures
        n * n <= count + 1,
        count + 1 < (n + 1) * (n + 1),
{
    let limit: u64 = count as u64;
    if limit == u64::MAX {
        let all: u64 = 0x1_0000_0000;
        proof {
            assert(all * all == count + 1) by (nonlinear_arith)
                requires
                    all == 0x1_0000_0000,
                    count == 0xFFFF_FFFF_FFFF_FFFF,
            ;
            assert(count + 1 < (all + 1) * (all + 1)) by (nonlinear_arith)
                requires
                    all == 0x1_0000_0000,
                    count == 0xFFFF_FFFF_FFFF_FFFF,
            ;
        }
        return all as usize;
    }
    let mut n: u64 = 0;
    let mut done = false;
    while !done
        invariant
            n <= 0xFFFF_FFFF,
            limit == count,
            limit < u64::MAX,
            n * n <= limit + 1,
            done ==> limit + 1 < (n + 1) * (n + 1),
        decreases
                0xFFFF_FFFF - n + if done {
                    0int
                } else {
                    1int
                },
    {
        if n == 0xFFFF_FFFF {
            proof {
                assert((n + 1) * (n + 1) == 0x1_0000_0000_0000_0000) by (nonlinear_arith)
                    requires
                        n == 0xFFFF_FFFF,
                ;
            }
            done = true;
        } else {
            let next = n + 1;
            proof {
                assert(next * next <= 0xFFFF_FFFF * 0xFFFF_FFFF) by (nonlinear_arith)
                    requires
                        1 <= next <= 0xFFFF_FFFF,
                ;
                assert(next <= next * next) by (nonlinear_arith)
                    requires
                        1 <= next,
                ;
            }
            let square = next * next;
            if square - 1 > limit {
                done = true;
            } else {
                n = next;
            }
        }
    }
    n as usize
}

/// The character of a decimal digit.
pub open spec fn digit_char(d: nat) -> char {
    if d == 0 {
        '0'
    } else if d == 1 {
        '1'
    } else if d == 2 {
        '2'
    } else if d == 3 {
        '3'
    } else if d == 4 {
        '4'
    } else if d == 5 {
        '5'
    } else if d == 6 {
        '6'
    } else if d == 7 {
        '7'
    } else if d == 8 {
        '8'
    } else {
        '9'
    }
}

/// A number written in decimal digits.
pub open spec fn decimal_text(i: nat) -> Seq<char>
    decreases i,
{
    if i < 10 {
        seq![digit_char(i)]
    } else {
        decimal_text(i / 10).push(digit_char(i % 10))
    }
}

/// The labels of `n` nodes numbered from 1 on.
pub open spec fn numbered_labels(n: nat) -> Seq<Seq<char>> {
    Seq::new(n, |i: int| decimal_text((i + 1) as nat))
}

/// The edges that the entries of a matrix below the place `upto` stand
/// for on `n` nodes: the entry at the place `p` is the weight of the edge
/// from `p / n` to `p % n`; an entry 0 stands for no edge, and so does every
/// entry on the diagonal.
pub open spec fn matrix_edges(n: nat, entries: Seq<EdgeType>, upto: nat) -> Seq<Edge>
    decreases upto,
{
    if upto == 0 || n == 0 {
        Seq::empty()
    } else {
        let p = (upto - 1) as nat;
        let rest = matrix_edges(n, entries, p);
        if p / n != p % n && entries[p as int] != 0 {
            rest.push(((p / n) as usize, (p % n) as usize, entries[p as int]))
        } else {
            rest
        }
    }
}

/// The edges of the first places are among the edges of all places.
pub proof fn lemma_matrix_edges_grow(n: nat, entries: Seq<EdgeType>, a: nat, b: nat)
    requires
        a <= b,
    ensures
        matrix_edges(n, entries, a).len() <= matrix_edges(n, entries, b).len(),
    decreases b,
{
    if a < b {
        lemma_matrix_edges_grow(n, entries, a, (b - 1) as nat);
    }
}

/// The edges of a matrix whose entries are digits are well formed, and
/// each counts at the place of its entry.
pub proof fn lemma_matrix_well_formed(n: nat, entries: Seq<EdgeType>, upto: nat)
    requires
        n <= usize::MAX,
        upto <= n * n,
        forall|p: int| 0 <= p < upto ==> #[trigger] entries[p] <= 3,
    ensures
        well_formed(matrix_edges(n, entries, upto), n),
        forall|i: int|
            0 <= i < matrix_edges(n, entries, upto).len() ==> place_of(
                n,
                #[trigger] matrix_edges(n, entries, upto)[i],
            ) < upto,
    decreases upto,
{
    let list = matrix_edges(n, entries, upto);
    if upto > 0 && n > 0 {
        let p = (upto - 1) as nat;
        let rest = matrix_edges(n, entries, p);
        lemma_matrix_well_formed(n, entries, p);
        if list.len() > rest.len() {
            let a = p / n;
            let b = p % n;
            lemma_fundamental_div_mod(p as int, n as int);
            assert(a < n) by (nonlinear_arith)
                requires
                    p < n * n,
                    p == n * a + b,
                    b >= 0,
                    n > 0,
                    a >= 0,
            ;
            let e = list[list.len() - 1];
            assert(place_of(n, e) == p);
            assert forall|i: int| 0 <= i < list.len() implies place_of(n, #[trigger] list[i])
                < upto by {
                if i < rest.len() {
                    assert(list[i] == rest[i]);
                }
            }
            assert forall|i: int, j: int| 0 <= i < j < list.len() implies (#[trigger] list[i]).0
                != (#[trigger] list[j]).0 || list[i].1 != list[j].1 by {
                assert(list[i] == rest[i]);
                if j < rest.len() {
                    assert(list[j] == rest[j]);
                } else {
                    assert(place_of(n, rest[i]) < p);
                }
            }
            assert forall|i: int| 0 <= i < list.len() implies (#[trigger] list[i]).0 < n
                && list[i].1 < n by {
                if i < rest.len() {
                    assert(list[i] == rest[i]);
                }
            }
            assert forall|i: int| 0 <= i < list.len() implies 1 <= (#[trigger] list[i]).2
                <= 3 by {
                if i < rest.len() {
                    assert(list[i] == rest[i]);
                }
            }
        }
    }
}

/// A decimal digit as text.
fn digit_text(d: usize) -> (text: &'static str)
    requires
        d < 10,
    ensures
        text@ == seq![digit_char(d as nat)],
{
    proof {
        reveal_strlit("0");
        reveal_strlit("1");
        reveal_strlit("2");
        reveal_strlit("3");
        reveal_strlit("4");
        reveal_strlit("5");
        reveal_strlit("6");
        reveal_strlit("7");
        reveal_strlit("8");
        reveal_strlit("9");
    }
    let text = match d {
        0 => "0",
        1 => "1",
        2 => "2",
        3 => "3",
        4 => "4",
        5 => "5",
        6 => "6",
        7 => "7",
        8 => "8",
        _ => "9",
    };
    proof {
        assert(text@ =~= seq![digit_char(d as nat)]);
    }
    text
}

/// A number in decimal digits.
pub fn decimal(i: usize) -> (text: String)
    ensures
        text@ == decimal_text(i as nat),
    decreases i,
{
    if i < 10 {
        String::from_str(digit_text(i))
    } else {
        let mut text = decimal(i / 10);
        text.append(digit_text(i % 10));
        proof {
            assert(text@ =~= decimal_text(i as nat));
        }
        text
    }
}

/// The network of an adjacency matrix: `n` nodes numbered from 1 on, and
/// an edge from `i` to `j`, for `i` other than `j`, wherever the entry in
/// row `i` and column `j` is not 0, with that entry as its weight.
pub fn network_from_matrix(n: usize, adj: &Vec<EdgeType>) -> (net: Network)
    requires
        n <= INDEX_LIMIT,
        n * n <= adj@.len(),
        matrix_edges(n as nat, adj@, (n * n) as nat).len() <= INDEX_LIMIT,
    ensures
        graph_labels(net) == numbered_labels(n as nat),
        graph_edges(net) == matrix_edges(n as nat, adj@, (n * n) as nat),
        (forall|p: int| 0 <= p < n * n ==> #[trigger] adj@[p] <= 3) ==> well_formed(
            graph_edges(net),
            n as nat,
        ),
{
    proof {
        if forall|p: int| 0 <= p < n * n ==> #[trigger] adj@[p] <= 3 {
            lemma_matrix_well_formed(n as nat, adj@, (n * n) as nat);
        }
    }
    let hint = if n <= CAPACITY_LIMIT { n } else { CAPACITY_LIMIT };
    let mut net = with_capacity(hint, hint);
    let mut k: usize = 0;
    while k < n
        invariant
            k <= n,
            n <= INDEX_LIMIT,
            graph_labels(net) == numbered_labels(k as nat),
            graph_edges(net) == Seq::<Edge>::empty(),
        decreases n - k,
    {
        add_node(&mut net, decimal(k + 1));
        k += 1;
        proof {
            assert(graph_labels(net) =~= numbered_labels(k as nat));
        }
    }
    let ghost mut p: nat = 0;
    let mut i: usize = 0;
    while i < n
        invariant
            i <= n,
            n <= INDEX_LIMIT,
            n * n <= adj@.len(),
            p == i * n,
            matrix_edges(n as nat, adj@, (n * n) as nat).len() <= INDEX_LIMIT,
            graph_labels(net) == numbered_labels(n as nat),
            graph_edges(net) == matrix_edges(n as nat, adj@, p),
        decreases n - i,
    {
        let mut j: usize = 0;
        while j < n
            invariant
                j <= n,
                i < n,
                n <= INDEX_LIMIT,
                n * n <= adj@.len(),
                p == i * n + j,
                matrix_edges(n as nat, adj@, (n * n) as nat).len() <= INDEX_LIMIT,
                graph_labels(net) == numbered_labels(n as nat),
                graph_edges(net) == matrix_edges(n as nat, adj@, p),
            decreases n - j,
        {
            proof {
                assert(i * n + j < n * n) by (nonlinear_arith)
                    requires
                        i < n,
                        j < n,
                ;
                assert(n * i == i * n) by (nonlinear_arith);
                lemma_fundamental_div_mod_converse(p as int, n as int, i as int, j as int);
                lemma_matrix_edges_grow(n as nat, adj@, p + 1, (n * n) as nat);
                assert(n * i + j < adj@.len());
                assert(adj@.len() == adj.len());
                assert(n * i >= 0) by (nonlinear_arith)
                    requires
                        n >= 0,
                        i >= 0,
                ;
            }
            let w = adj[n * i + j];
            if i != j && w != 0 {
                add_edge(&mut net, i, j, w);
            }
            j += 1;
            proof {
                p = p + 1;
            }
        }
        proof {
            assert((i + 1) * n == i * n + n) by (nonlinear_arith);
        }
        i += 1;
    }
    net
}

} // verus!
