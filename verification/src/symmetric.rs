//! The symmetric group: a rotation of all symbols and the exchange of the
//! first two generate every permutation.

use vstd::prelude::*;
use crate::closure::{
    closed_under_composition, generated, lemma_closed_holds_inverses, lemma_generated_degree,
    lemma_generated_holds_generators, lemma_generated_is_closed, permutations_of,
};
use crate::mapping::{
    compose, identity_map, inverse, is_bijection, lemma_inverse_unique, lemma_preimage, preimage,
    value_occurs,
};

verus! {

/// The cycle through all `n` symbols: `i -> i + 1`, and the last to `0`.
pub open spec fn rotation(n: nat) -> Seq<usize> {
    Seq::new(
        n,
        |i: int|
            if i + 1 < n {
                (i + 1) as usize
            } else {
                0
            },
    )
}

/// The cycle through all `n` symbols the other way round.
pub open spec fn rotation_back(n: nat) -> Seq<usize> {
    Seq::new(
        n,
        |i: int|
            if i == 0 {
                (n - 1) as usize
            } else {
                (i - 1) as usize
            },
    )
}

/// The permutation of degree `n` that exchanges `a` and `b` and moves
/// nothing else.
pub open spec fn exchange(n: nat, a: int, b: int) -> Seq<usize> {
    Seq::new(
        n,
        |i: int|
            if i == a {
                b as usize
            } else if i == b {
                a as usize
            } else {
                i as usize
            },
    )
}

/// The two generators of the symmetric group on `n` symbols.
pub open spec fn symmetric_generators(n: nat) -> Set<Seq<usize>> {
    set![rotation(n), exchange(n, 0, 1)]
}

/// `p` moves no symbol from `m` on.
pub open spec fn fixes_from(p: Seq<usize>, m: int) -> bool {
    forall|i: int| m <= i < p.len() ==> #[trigger] p[i] == i
}

/// The rotation is a permutation, and `rotation_back` is its inverse.
pub proof fn lemma_rotation(n: nat)
    requires
        2 <= n <= usize::MAX,
    ensures
        permutations_of(n).contains(rotation(n)),
        permutations_of(n).contains(rotation_back(n)),
        inverse(rotation(n)) == rotation_back(n),
{
    let r = rotation(n);
    let b = rotation_back(n);
    assert forall|v: int| 0 <= v < n implies #[trigger] value_occurs(r, v) by {
        if v == 0 {
            assert(r[n - 1] == 0);
        } else {
            assert(r[v - 1] == v);
        }
    }
    assert forall|v: int| 0 <= v < n implies #[trigger] value_occurs(b, v) by {
        if v == n - 1 {
            assert(b[0] == v);
        } else {
            assert(b[v + 1] == v);
        }
    }
    assert(is_bijection(r));
    assert(is_bijection(b));
    assert(compose(r, b) =~= identity_map(n));
    lemma_inverse_unique(r, b);
}

/// An exchange is a permutation and undoes itself.
pub proof fn lemma_exchange(n: nat, a: int, b: int)
    requires
        n <= usize::MAX,
        0 <= a < b < n,
    ensures
        permutations_of(n).contains(exchange(n, a, b)),
        compose(exchange(n, a, b), exchange(n, a, b)) == identity_map(n),
{
    let w = exchange(n, a, b);
    assert forall|v: int| 0 <= v < n implies #[trigger] value_occurs(w, v) by {
        if v == a {
            assert(w[b] == v);
        } else if v == b {
            assert(w[a] == v);
        } else {
            assert(w[v] == v);
        }
    }
    assert(is_bijection(w));
    assert(compose(w, w) =~= identity_map(n));
}

/// A set that is closed under composition and holds the rotation, its
/// inverse and the exchange of `0` and `1` holds every exchange of neighbours.
proof fn lemma_neighbours_exchanged(s: Set<Seq<usize>>, n: nat, k: int)
    requires
        2 <= n <= usize::MAX,
        closed_under_composition(s),
        s.contains(rotation(n)),
        s.contains(rotation_back(n)),
        s.contains(exchange(n, 0, 1)),
        0 <= k < n - 1,
    ensures
        s.contains(exchange(n, k, k + 1)),
    decreases k,
{
    if k > 0 {
        lemma_neighbours_exchanged(s, n, k - 1);
        let r = rotation(n);
        let b = rotation_back(n);
        let w = exchange(n, k - 1, k);
        let inner = compose(w, b);
        let moved = compose(r, inner);
        assert(s.contains(inner));
        assert(s.contains(moved));
        assert forall|i: int| 0 <= i < n implies moved[i] == exchange(n, k, k + 1)[i] by {
            assert(inner[i] == w[b[i] as int]);
            assert(moved[i] == r[inner[i] as int]);
        }
        assert(moved =~= exchange(n, k, k + 1));
    }
}

/// Such a set holds every exchange of two symbols.
proof fn lemma_any_two_exchanged(s: Set<Seq<usize>>, n: nat, a: int, b: int)
    requires
        2 <= n <= usize::MAX,
        closed_under_composition(s),
        s.contains(rotation(n)),
        s.contains(rotation_back(n)),
        s.contains(exchange(n, 0, 1)),
        0 <= a < b < n,
    ensures
        s.contains(exchange(n, a, b)),
    decreases b - a,
{
    if b == a + 1 {
        lemma_neighbours_exchanged(s, n, a);
    } else {
        lemma_any_two_exchanged(s, n, a, b - 1);
        lemma_neighbours_exchanged(s, n, b - 1);
        let step = exchange(n, b - 1, b);
        let w = exchange(n, a, b - 1);
        let inner = compose(w, step);
        let moved = compose(step, inner);
        assert(s.contains(inner));
        assert(s.contains(moved));
        assert forall|i: int| 0 <= i < n implies moved[i] == exchange(n, a, b)[i] by {
            assert(inner[i] == w[step[i] as int]);
            assert(moved[i] == step[inner[i] as int]);
        }
        assert(moved =~= exchange(n, a, b));
    }
}

/// Such a set holds every permutation of degree `n` that moves no symbol
/// from `m` on.
proof fn lemma_tail_fixing_member(s: Set<Seq<usize>>, n: nat, p: Seq<usize>, m: int)
    requires
        2 <= n <= usize::MAX,
        closed_under_composition(s),
        s.contains(rotation(n)),
        s.contains(rotation_back(n)),
        s.contains(exchange(n, 0, 1)),
        s.contains(identity_map(n)),
        permutations_of(n).contains(p),
        0 <= m <= n,
        fixes_from(p, m),
    ensures
        s.contains(p),
    decreases m,
{
    if m == 0 {
        assert(p =~= identity_map(n));
    } else {
        let top = m - 1;
        lemma_preimage(p, top);
        let j = preimage(p, top);
        if j > top {
            assert(p[j] == j);
        }
        if j == top {
            lemma_tail_fixing_member(s, n, p, top);
        } else {
            lemma_any_two_exchanged(s, n, j, top);
            lemma_exchange(n, j, top);
            let w = exchange(n, j, top);
            let q = compose(p, w);
            crate::mapping::lemma_compose_is_bijection(p, w);
            assert forall|i: int| top <= i < q.len() implies #[trigger] q[i] == i by {
                assert(q[i] == p[w[i] as int]);
            }
            lemma_tail_fixing_member(s, n, q, top);
            assert(s.contains(compose(q, w)));
            assert forall|i: int| 0 <= i < n implies compose(q, w)[i] == p[i] by {
                assert(compose(q, w)[i] == q[w[i] as int]);
                assert(q[w[i] as int] == p[w[w[i] as int] as int]);
                assert(compose(w, w)[i] == w[w[i] as int]);
            }
            assert(compose(q, w) =~= p);
        }
    }
}

/// The rotation and the exchange of the first two symbols generate the whole
/// symmetric group.
pub proof fn lemma_generators_generate_all(n: nat)
    requires
        2 <= n <= usize::MAX,
    ensures
        symmetric_generators(n).subset_of(permutations_of(n)),
        generated(symmetric_generators(n)) == permutations_of(n),
{
    let gens = symmetric_generators(n);
    let group = generated(gens);
    lemma_rotation(n);
    lemma_exchange(n, 0, 1);
    lemma_generated_holds_generators(gens);
    lemma_generated_is_closed(gens);
    lemma_generated_degree(gens, n);
    assert(gens.contains(rotation(n)));
    assert(gens.contains(exchange(n, 0, 1)));
    assert(group.contains(rotation(n)));
    lemma_closed_holds_inverses(group, n);
    assert(group.contains(inverse(rotation(n))));
    assert forall|p: Seq<usize>| permutations_of(n).contains(p) implies group.contains(p) by {
        lemma_tail_fixing_member(group, n, p, n as int);
    }
    assert(group =~= permutations_of(n));
}

} // verus!
