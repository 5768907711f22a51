//! The order of the symmetric group: there are `n!` permutations of degree `n`.

use vstd::prelude::*;
use vstd::set_lib::{lemma_map_size, lemma_set_disjoint_lens};
use crate::closure::{lemma_permutations_finite, permutations_of};
use crate::mapping::{is_bijection, lemma_preimage, preimage, value_occurs};

verus! {

/// The product `1 * 2 * .. * n`.
pub open spec fn factorial(n: nat) -> nat
    decreases n,
{
    if n == 0 {
        1
    } else {
        n * factorial((n - 1) as nat)
    }
}

/// The mapping `q` with one more position, which holds `v`; the values of
/// `q` from `v` on make room by going up one.
spec fn raise(q: Seq<usize>, v: int) -> Seq<usize> {
    Seq::new(
        q.len() + 1,
        |i: int|
            if i == q.len() {
                v as usize
            } else if q[i] >= v {
                (q[i] + 1) as usize
            } else {
                q[i]
            },
    )
}

/// The mapping `p` without its last position; the values above `v` close the
/// gap by going down one.
spec fn lower(p: Seq<usize>, v: int) -> Seq<usize> {
    Seq::new(
        (p.len() - 1) as nat,
        |i: int|
            if p[i] > v {
                (p[i] - 1) as usize
            } else {
                p[i]
            },
    )
}

/// The permutations of degree `n + 1` that send the last symbol to `v`.
spec fn ending_in(n: nat, v: int) -> Set<Seq<usize>> {
    Set::new(|p: Seq<usize>| permutations_of(n + 1).contains(p) && p[n as int] == v)
}

/// The permutations of degree `n + 1` that send the last symbol below `c`.
spec fn ending_below(n: nat, c: int) -> Set<Seq<usize>> {
    Set::new(|p: Seq<usize>| permutations_of(n + 1).contains(p) && p[n as int] < c)
}

proof fn lemma_raise_is_permutation(q: Seq<usize>, n: nat, v: int)
    requires
        permutations_of(n).contains(q),
        0 <= v <= n < usize::MAX,
    ensures
        ending_in(n, v).contains(raise(q, v)),
{
    let p = raise(q, v);
    assert forall|w: int| 0 <= w < p.len() implies #[trigger] value_occurs(p, w) by {
        if w == v {
            assert(p[n as int] == w);
        } else if w < v {
            lemma_preimage(q, w);
            assert(p[preimage(q, w)] == w);
        } else {
            lemma_preimage(q, w - 1);
            assert(p[preimage(q, w - 1)] == w);
        }
    }
    assert forall|i: int, j: int| 0 <= i < j < p.len() implies (#[trigger] p[i]) != (
    #[trigger] p[j]) by {
        if j < n {
            assert(q[i] != q[j]);
        }
    }
    assert(is_bijection(p));
}

proof fn lemma_lower_is_permutation(p: Seq<usize>, n: nat, v: int)
    requires
        ending_in(n, v).contains(p),
        n < usize::MAX,
    ensures
        0 <= v <= n,
        permutations_of(n).contains(lower(p, v)),
        raise(lower(p, v), v) == p,
{
    let q = lower(p, v);
    assert(p[n as int] == v);
    assert forall|i: int| 0 <= i < n implies p[i] != v by {
        assert(p[i] != p[n as int]);
    }
    assert forall|w: int| 0 <= w < q.len() implies #[trigger] value_occurs(q, w) by {
        if w < v {
            lemma_preimage(p, w);
            assert(q[preimage(p, w)] == w);
        } else {
            lemma_preimage(p, w + 1);
            assert(q[preimage(p, w + 1)] == w);
        }
    }
    assert forall|i: int, j: int| 0 <= i < j < q.len() implies (#[trigger] q[i]) != (
    #[trigger] q[j]) by {
        assert(p[i] != p[j]);
    }
    assert forall|i: int| 0 <= i < q.len() implies (#[trigger] q[i]) < q.len() by {
        assert(p[i] < p.len());
    }
    assert(is_bijection(q));
    assert(raise(q, v) =~= p);
}

proof fn lemma_raise_injective(q1: Seq<usize>, q2: Seq<usize>, n: nat, v: int)
    requires
        permutations_of(n).contains(q1),
        permutations_of(n).contains(q2),
        0 <= v <= n < usize::MAX,
        raise(q1, v) == raise(q2, v),
    ensures
        q1 == q2,
{
    assert forall|i: int| 0 <= i < n implies q1[i] == q2[i] by {
        assert(q1[i] < n && q2[i] < n);
        let r1 = raise(q1, v);
        let r2 = raise(q2, v);
        assert(r1[i] == if q1[i] >= v {
            (q1[i] + 1) as usize
        } else {
            q1[i]
        });
        assert(r2[i] == if q2[i] >= v {
            (q2[i] + 1) as usize
        } else {
            q2[i]
        });
    }
    assert(q1 =~= q2);
}

/// As many permutations of degree `n + 1` send the last symbol to `v` as
/// there are permutations of degree `n`.
proof fn lemma_ending_in_count(n: nat, v: int)
    requires
        0 <= v <= n < usize::MAX,
    ensures
        ending_in(n, v).finite(),
        ending_in(n, v).len() == permutations_of(n).len(),
{
    let source = permutations_of(n);
    let target = ending_in(n, v);
    let lift = |q: Seq<usize>| raise(q, v);
    lemma_permutations_finite(n);
    assert forall|q1: Seq<usize>, q2: Seq<usize>|
        source.contains(q1) && source.contains(q2) && #[trigger] lift(q1) == #[trigger] lift(
            q2,
        ) implies q1 == q2 by {
        lemma_raise_injective(q1, q2, n, v);
    }
    assert(vstd::relations::injective_on(lift, source));
    assert forall|p: Seq<usize>| source.map(lift).contains(p) <==> target.contains(p) by {
        if source.map(lift).contains(p) {
            let q = choose|q: Seq<usize>| source.contains(q) && p == lift(q);
            lemma_raise_is_permutation(q, n, v);
        }
        if target.contains(p) {
            lemma_lower_is_permutation(p, n, v);
            assert(source.contains(lower(p, v)) && p == lift(lower(p, v)));
        }
    }
    assert(source.map(lift) =~= target);
    lemma_map_size(source, target, lift);
}

/// `c` times as many permutations of degree `n + 1` send the last symbol
/// below `c` as there are permutations of degree `n`.
proof fn lemma_ending_below_count(n: nat, c: int)
    requires
        0 <= c <= n + 1,
        n < usize::MAX,
    ensures
        ending_below(n, c).finite(),
        ending_below(n, c).len() == c * permutations_of(n).len(),
    decreases c,
{
    if c == 0 {
        assert(ending_below(n, c) =~= Set::empty());
    } else {
        let before = ending_below(n, c - 1);
        let last = ending_in(n, c - 1);
        lemma_ending_below_count(n, c - 1);
        lemma_ending_in_count(n, c - 1);
        assert(ending_below(n, c) =~= before + last);
        assert(before.disjoint(last));
        lemma_set_disjoint_lens(before, last);
        let count = permutations_of(n).len() as int;
        assert((c - 1) * count + count == c * count) by (nonlinear_arith);
    }
}

/// There are `n!` permutations of degree `n`.
pub proof fn lemma_permutations_count(n: nat)
    requires
        n <= usize::MAX,
    ensures
        permutations_of(n).finite(),
        permutations_of(n).len() == factorial(n),
    decreases n,
{
    lemma_permutations_finite(n);
    if n == 0 {
        let empty = Seq::<usize>::empty();
        assert(is_bijection(empty));
        assert forall|m: Seq<usize>| permutations_of(0).contains(m) implies m == empty by {
            assert(m =~= empty);
        }
        assert(permutations_of(0) =~= set![empty]);
    } else {
        let k = (n - 1) as nat;
        lemma_permutations_count(k);
        lemma_ending_below_count(k, n as int);
        assert forall|p: Seq<usize>| permutations_of(n).contains(p) implies ending_below(
            k,
            n as int,
        ).contains(p) by {
            assert(p[k as int] < p.len());
        }
        assert(permutations_of(n) =~= ending_below(k, n as int));
    }
}

} // verus!
