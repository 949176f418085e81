//! The lexicographic order on integer sequences of one length.

use vstd::prelude::*;

verus! {

/// `a` and `b` agree before place `k`, and there `a` is smaller.
pub open spec fn differs_at(a: Seq<int>, b: Seq<int>, k: int) -> bool {
    &&& 0 <= k < a.len()
    &&& a[k] < b[k]
    &&& forall|j: int| 0 <= j < k ==> a[j] == b[j]
}

/// `a` comes strictly before `b`.
pub open spec fn lex_lt(a: Seq<int>, b: Seq<int>) -> bool {
    a.len() == b.len() && exists|k: int| differs_at(a, b, k)
}

/// `a` comes before `b`, or is `b`.
pub open spec fn lex_le(a: Seq<int>, b: Seq<int>) -> bool {
    a == b || lex_lt(a, b)
}

/// The numbers of a vector as integers.
pub open spec fn as_ints(v: Seq<u64>) -> Seq<int> {
    Seq::new(v.len(), |i: int| v[i] as int)
}

/// Of two sequences of one length, one comes before the other or they are equal.
pub proof fn lemma_lex_total(a: Seq<int>, b: Seq<int>)
    requires
        a.len() == b.len(),
    ensures
        lex_le(a, b) || lex_lt(b, a),
{
    if a != b {
        let k = first_difference(a, b, 0);
        if a[k] < b[k] {
            assert(differs_at(a, b, k));
        } else {
            assert(differs_at(b, a, k));
        }
    }
}

/// The first place from `from` on at which two different sequences differ.
pub proof fn first_difference(a: Seq<int>, b: Seq<int>, from: int) -> (k: int)
    requires
        a.len() == b.len(),
        a != b,
        0 <= from <= a.len(),
        forall|j: int| 0 <= j < from ==> a[j] == b[j],
    ensures
        0 <= k < a.len(),
        a[k] != b[k],
        forall|j: int| 0 <= j < k ==> a[j] == b[j],
    decreases a.len() - from,
{
    if from == a.len() {
        assert(a =~= b);
        0
    } else if a[from] != b[from] {
        from
    } else {
        first_difference(a, b, from + 1)
    }
}

/// No sequence comes before itself, and none before one that comes before it.
pub proof fn lemma_lex_asymmetric(a: Seq<int>, b: Seq<int>)
    requires
        lex_lt(a, b),
    ensures
        !lex_le(b, a),
{
    let k = choose|k: int| differs_at(a, b, k);
    if lex_lt(b, a) {
        let m = choose|m: int| differs_at(b, a, m);
        if m < k {
        } else if k < m {
        }
    }
}

/// The strict order is transitive.
pub proof fn lemma_lex_lt_transitive(a: Seq<int>, b: Seq<int>, c: Seq<int>)
    requires
        lex_lt(a, b),
        lex_lt(b, c),
    ensures
        lex_lt(a, c),
{
    let k = choose|k: int| differs_at(a, b, k);
    let m = choose|m: int| differs_at(b, c, m);
    if k <= m {
        assert(differs_at(a, c, k));
    } else {
        assert(differs_at(a, c, m));
    }
}

/// The order is transitive.
pub proof fn lemma_lex_le_transitive(a: Seq<int>, b: Seq<int>, c: Seq<int>)
    requires
        lex_le(a, b),
        lex_le(b, c),
    ensures
        lex_le(a, c),
{
    if a != b && b != c {
        lemma_lex_lt_transitive(a, b, c);
    }
}

/// Two sequences that each come before the other are one.
pub proof fn lemma_lex_antisymmetric(a: Seq<int>, b: Seq<int>)
    requires
        lex_le(a, b),
        lex_le(b, a),
    ensures
        a == b,
{
    if a != b {
        lemma_lex_asymmetric(a, b);
    }
}

/// The order of two sequences is the order of their first parts, where
/// those differ.
pub proof fn lemma_lex_prefix(a: Seq<int>, b: Seq<int>, n: int)
    requires
        lex_le(a, b),
        0 <= n <= a.len(),
    ensures
        lex_le(a.take(n), b.take(n)),
{
    if a != b {
        let k = choose|k: int| differs_at(a, b, k);
        if k < n {
            assert(differs_at(a.take(n), b.take(n), k));
        } else {
            assert(a.take(n) =~= b.take(n));
        }
    }
}

/// Whether `a` comes strictly before `b`.
pub fn lex_less(a: &Vec<u64>, b: &Vec<u64>) -> (less: bool)
    requires
        a@.len() == b@.len(),
    ensures
        less == lex_lt(as_ints(a@), as_ints(b@)),
{
    let mut k: usize = 0;
    while k < a.len()
        invariant
            k <= a@.len(),
            a@.len() == b@.len(),
            forall|j: int| 0 <= j < k ==> a@[j] == b@[j],
        decreases a@.len() - k,
    {
        if a[k] < b[k] {
            proof {
                assert(differs_at(as_ints(a@), as_ints(b@), k as int));
            }
            return true;
        }
        if a[k] > b[k] {
            proof {
                assert(differs_at(as_ints(b@), as_ints(a@), k as int));
                lemma_lex_asymmetric(as_ints(b@), as_ints(a@));
            }
            return false;
        }
        k += 1;
    }
    proof {
        assert(as_ints(a@) =~= as_ints(b@));
        if lex_lt(as_ints(a@), as_ints(b@)) {
            lemma_lex_asymmetric(as_ints(a@), as_ints(b@));
        }
    }
    false
}

} // verus!
