//! Counting the sets of nodes that a predicate accepts.
//!
//! The sets of nodes below `n` are walked by deciding for every node, from
//! the highest down, whether it belongs; `count_subsets` adds up those that
//! a predicate accepts.

use vstd::arithmetic::power2::lemma_pow2_unfold;
use vstd::arithmetic::power2::pow2;
use vstd::prelude::*;

verus! {

/// Every member of the set is a node below `n`.
pub open spec fn below(set: Set<usize>, n: nat) -> bool {
    forall|x: usize| set.contains(x) ==> x < n
}

/// `set` is `base` with some nodes below `n` added.
pub open spec fn grows_from(set: Set<usize>, base: Set<usize>, n: nat) -> bool {
    &&& base.subset_of(set)
    &&& forall|x: usize| set.contains(x) ==> base.contains(x) || x < n
}

/// The number of sets accepted by `pick` among those that are `base` with
/// some nodes below `n` added.
pub open spec fn count_from(n: nat, base: Set<usize>, pick: spec_fn(Set<usize>) -> bool) -> nat
    decreases n,
{
    if n == 0 {
        if pick(base) {
            1
        } else {
            0
        }
    } else {
        count_from((n - 1) as nat, base, pick) + count_from(
            (n - 1) as nat,
            base.insert((n - 1) as usize),
            pick,
        )
    }
}

/// The number of sets of nodes below `n` that `pick` accepts.
pub open spec fn count_subsets(n: nat, pick: spec_fn(Set<usize>) -> bool) -> nat {
    count_from(n, Set::empty(), pick)
}

/// Two predicates that agree on the sets walked give the same count.
pub proof fn lemma_count_same(
    n: nat,
    base: Set<usize>,
    p: spec_fn(Set<usize>) -> bool,
    q: spec_fn(Set<usize>) -> bool,
)
    requires
        forall|t: Set<usize>| grows_from(t, base, n) ==> #[trigger] p(t) == q(t),
    ensures
        count_from(n, base, p) == count_from(n, base, q),
    decreases n,
{
    if n == 0 {
        assert(grows_from(base, base, 0));
    } else {
        let m = (n - 1) as nat;
        let with = base.insert(m as usize);
        assert forall|t: Set<usize>| grows_from(t, base, m) implies #[trigger] p(t) == q(t) by {
            assert(grows_from(t, base, n));
        }
        assert forall|t: Set<usize>| grows_from(t, with, m) implies #[trigger] p(t) == q(t) by {
            assert(grows_from(t, base, n));
        }
        lemma_count_same(m, base, p, q);
        lemma_count_same(m, with, p, q);
    }
}

/// A predicate that accepts less counts less.
pub proof fn lemma_count_monotone(
    n: nat,
    base: Set<usize>,
    p: spec_fn(Set<usize>) -> bool,
    q: spec_fn(Set<usize>) -> bool,
)
    requires
        forall|t: Set<usize>| grows_from(t, base, n) && #[trigger] p(t) ==> q(t),
    ensures
        count_from(n, base, p) <= count_from(n, base, q),
    decreases n,
{
    if n == 0 {
        assert(grows_from(base, base, 0));
    } else {
        let m = (n - 1) as nat;
        let with = base.insert(m as usize);
        assert forall|t: Set<usize>| grows_from(t, base, m) && #[trigger] p(t) implies q(t) by {
            assert(grows_from(t, base, n));
        }
        assert forall|t: Set<usize>| grows_from(t, with, m) && #[trigger] p(t) implies q(t) by {
            assert(grows_from(t, base, n));
        }
        lemma_count_monotone(m, base, p, q);
        lemma_count_monotone(m, with, p, q);
    }
}

/// A predicate that accepts none of the sets walked counts nothing.
pub proof fn lemma_count_none(n: nat, base: Set<usize>, p: spec_fn(Set<usize>) -> bool)
    requires
        forall|t: Set<usize>| grows_from(t, base, n) ==> !#[trigger] p(t),
    ensures
        count_from(n, base, p) == 0,
    decreases n,
{
    if n == 0 {
        assert(grows_from(base, base, 0));
    } else {
        let m = (n - 1) as nat;
        let with = base.insert(m as usize);
        assert forall|t: Set<usize>| grows_from(t, base, m) implies !#[trigger] p(t) by {
            assert(grows_from(t, base, n));
        }
        assert forall|t: Set<usize>| grows_from(t, with, m) implies !#[trigger] p(t) by {
            assert(grows_from(t, base, n));
        }
        lemma_count_none(m, base, p);
        lemma_count_none(m, with, p);
    }
}

/// Where every set walked that `r` accepts is accepted by exactly one of
/// `p` and `q`, and `r` accepts what they accept, the count of `r` is the
/// sum of theirs.
pub proof fn lemma_count_split(
    n: nat,
    base: Set<usize>,
    r: spec_fn(Set<usize>) -> bool,
    p: spec_fn(Set<usize>) -> bool,
    q: spec_fn(Set<usize>) -> bool,
)
    requires
        forall|t: Set<usize>|
            #![trigger r(t)]
            #![trigger grows_from(t, base, n)]
            grows_from(t, base, n) ==> (r(t) <==> p(t) || q(t)) && !(p(t) && q(t)),
    ensures
        count_from(n, base, r) == count_from(n, base, p) + count_from(n, base, q),
    decreases n,
{
    if n == 0 {
        assert(grows_from(base, base, 0));
    } else {
        let m = (n - 1) as nat;
        let with = base.insert(m as usize);
        assert forall|t: Set<usize>| grows_from(t, base, m) implies (#[trigger] r(t) <==> p(t)
            || q(t)) && !(p(t) && q(t)) by {
            assert(grows_from(t, base, n));
        }
        assert forall|t: Set<usize>| grows_from(t, with, m) implies (#[trigger] r(t) <==> p(t)
            || q(t)) && !(p(t) && q(t)) by {
            assert(grows_from(t, base, n));
        }
        lemma_count_split(m, base, r, p, q);
        lemma_count_split(m, with, r, p, q);
    }
}

/// A predicate that accepts one of the sets walked, and only that one,
/// counts one.
pub proof fn lemma_count_one(
    n: nat,
    base: Set<usize>,
    p: spec_fn(Set<usize>) -> bool,
    only: Set<usize>,
)
    requires
        n <= usize::MAX,
        grows_from(only, base, n),
        forall|x: usize| base.contains(x) ==> x >= n,
        forall|t: Set<usize>| grows_from(t, base, n) ==> (#[trigger] p(t) <==> t == only),
    ensures
        count_from(n, base, p) == 1,
    decreases n,
{
    if n == 0 {
        assert(grows_from(base, base, 0));
        assert(only =~= base);
    } else {
        let m = (n - 1) as nat;
        let top = m as usize;
        let with = base.insert(top);
        if only.contains(top) {
            assert forall|t: Set<usize>| grows_from(t, base, m) implies !#[trigger] p(t) by {
                assert(grows_from(t, base, n));
                assert(!t.contains(top));
            }
            lemma_count_none(m, base, p);
            assert forall|t: Set<usize>| grows_from(t, with, m) implies (#[trigger] p(t) <==> t
                == only) by {
                assert(grows_from(t, base, n));
            }
            lemma_count_one(m, with, p, only);
        } else {
            assert forall|t: Set<usize>| grows_from(t, with, m) implies !#[trigger] p(t) by {
                assert(grows_from(t, base, n));
                assert(t.contains(top));
            }
            lemma_count_none(m, with, p);
            assert forall|t: Set<usize>| grows_from(t, base, m) implies (#[trigger] p(t) <==> t
                == only) by {
                assert(grows_from(t, base, n));
            }
            lemma_count_one(m, base, p, only);
        }
    }
}

/// Of `n` nodes there are two to the power `n` sets, and no predicate
/// counts more.
pub proof fn lemma_count_bound(n: nat, base: Set<usize>, p: spec_fn(Set<usize>) -> bool)
    ensures
        count_from(n, base, p) <= pow2(n),
    decreases n,
{
    if n == 0 {
        vstd::arithmetic::power2::lemma2_to64();
    } else {
        let m = (n - 1) as nat;
        lemma_count_bound(m, base, p);
        lemma_count_bound(m, base.insert(m as usize), p);
        lemma_pow2_unfold(n);
    }
}

/// `n` to the power `j`.
pub open spec fn power(n: nat, j: nat) -> nat
    decreases j,
{
    if j == 0 {
        1
    } else {
        n * power(n, (j - 1) as nat)
    }
}

/// A power grows with its base.
pub proof fn lemma_power_monotone(a: nat, b: nat, j: nat)
    requires
        a <= b,
    ensures
        power(a, j) <= power(b, j),
    decreases j,
{
    if j > 0 {
        lemma_power_monotone(a, b, (j - 1) as nat);
        let x = power(a, (j - 1) as nat);
        let y = power(b, (j - 1) as nat);
        assert(a * x <= b * y) by (nonlinear_arith)
            requires
                a <= b,
                x <= y,
        ;
    }
}

/// A power of a base from 1 on grows with its exponent.
pub proof fn lemma_power_grows(n: nat, i: nat, j: nat)
    requires
        n >= 1,
        i <= j,
    ensures
        1 <= power(n, i) <= power(n, j),
    decreases j,
{
    if i < j {
        lemma_power_grows(n, i, (j - 1) as nat);
        let x = power(n, (j - 1) as nat);
        assert(x <= n * x) by (nonlinear_arith)
            requires
                n >= 1,
        ;
    } else if j > 0 {
        lemma_power_grows(n, (j - 1) as nat, (j - 1) as nat);
        let x = power(n, (j - 1) as nat);
        assert(1 <= n * x) by (nonlinear_arith)
            requires
                n >= 1,
                x >= 1,
        ;
    }
}

/// Among the sets that are `base` with nodes below `n` added there are at
/// most `n` to the power `k - |base|` sets of `k` nodes, and none where
/// `base` holds more than `k`.
pub proof fn lemma_count_sized(
    n: nat,
    base: Set<usize>,
    p: spec_fn(Set<usize>) -> bool,
    k: nat,
)
    requires
        n <= usize::MAX,
        base.finite(),
        forall|x: usize| base.contains(x) ==> x >= n,
        forall|t: Set<usize>| #[trigger] p(t) ==> t.finite() && t.len() == k,
    ensures
        count_from(n, base, p) <= if base.len() > k {
            0
        } else {
            power(n, (k - base.len()) as nat)
        },
    decreases n,
{
    if n > 0 {
        let m = (n - 1) as nat;
        let top = m as usize;
        let with = base.insert(top);
        lemma_count_sized(m, base, p, k);
        lemma_count_sized(m, with, p, k);
        assert(with.len() == base.len() + 1);
        if base.len() < k {
            let j = (k - base.len()) as nat;
            let x = power(m, (j - 1) as nat);
            lemma_power_monotone(m, n, (j - 1) as nat);
            let y = power(n, (j - 1) as nat);
            assert(m * x + x <= n * y) by (nonlinear_arith)
                requires
                    n == m + 1,
                    x <= y,
            ;
        }
    }
}

} // verus!
