//! The mathematics of mappings on `{0, .., n-1}`, stated over sequences.
//!
//! A mapping is a sequence `m` read as `i -> m[i]`. Everything the executable
//! types promise is phrased with the functions of this module.

use vstd::prelude::*;
use vstd::relations::injective_on;
use vstd::set_lib::{lemma_int_range, lemma_map_size, lemma_subset_equality, set_int_range};

verus! {

/// Some position of `m` holds the value `v`.
pub open spec fn value_occurs(m: Seq<usize>, v: int) -> bool {
    exists|i: int| 0 <= i < m.len() && m[i] == v
}

/// Exactly one position of `m` holds the value `v`.
pub open spec fn occurs_once(m: Seq<usize>, v: int) -> bool {
    exists|i: int|
        0 <= i < m.len() && m[i] == v && forall|j: int|
            0 <= j < m.len() && (#[trigger] m[j]) == v ==> j == i
}

/// `m` is a bijection on `[0, m.len())`: it stays inside the range, no value
/// occurs twice, and every value of the range occurs.
pub open spec fn is_bijection(m: Seq<usize>) -> bool {
    &&& forall|i: int| 0 <= i < m.len() ==> (#[trigger] m[i]) < m.len()
    &&& forall|i: int, j: int| 0 <= i < j < m.len() ==> (#[trigger] m[i]) != (#[trigger] m[j])
    &&& forall|v: int| 0 <= v < m.len() ==> #[trigger] value_occurs(m, v)
}

/// The mapping that sends every `i < n` to itself.
pub open spec fn identity_map(n: nat) -> Seq<usize> {
    Seq::new(n, |i: int| i as usize)
}

/// Right-to-left composition: `x -> g[h[x]]`.
pub open spec fn compose(g: Seq<usize>, h: Seq<usize>) -> Seq<usize> {
    Seq::new(h.len(), |x: int| g[h[x] as int])
}

/// A position of `m` that holds `v`.
pub open spec fn preimage(m: Seq<usize>, v: int) -> int {
    choose|i: int| 0 <= i < m.len() && m[i] == v
}

/// The mapping that sends every value of `g` back to its position.
pub open spec fn inverse(g: Seq<usize>) -> Seq<usize> {
    Seq::new(g.len(), |v: int| preimage(g, v) as usize)
}

/// Conjugation of `x` by `g`: `g . x . g^-1`.
pub open spec fn conjugate_map(g: Seq<usize>, x: Seq<usize>) -> Seq<usize> {
    compose(g, compose(x, inverse(g)))
}

/// A bijection is no longer than the range of `usize`.
pub proof fn lemma_degree_fits(m: Seq<usize>)
    requires
        is_bijection(m),
    ensures
        m.len() <= usize::MAX + 1,
{
    if m.len() > 0 {
        assert(value_occurs(m, m.len() - 1));
    }
}

/// In a bijection every value of the range has exactly one position.
pub proof fn lemma_preimage(m: Seq<usize>, v: int)
    requires
        is_bijection(m),
        0 <= v < m.len(),
    ensures
        0 <= preimage(m, v) < m.len(),
        m[preimage(m, v)] == v,
        forall|i: int| 0 <= i < m.len() && m[i] == v ==> i == preimage(m, v),
{
    assert(value_occurs(m, v));
}

/// A mapping is a bijection exactly if every value of its range occurs exactly
/// once in it.
pub proof fn lemma_bijection_by_occurrences(m: Seq<usize>)
    ensures
        is_bijection(m) <==> forall|v: int| 0 <= v < m.len() ==> #[trigger] occurs_once(m, v),
{
    let n = m.len() as int;
    if is_bijection(m) {
        assert forall|v: int| 0 <= v < n implies #[trigger] occurs_once(m, v) by {
            lemma_preimage(m, v);
        }
    }
    if forall|v: int| 0 <= v < n ==> #[trigger] occurs_once(m, v) {
        let range = set_int_range(0, n);
        let position = |v: int| choose|i: int| 0 <= i < n && m[i] == v;
        assert forall|v: int| 0 <= v < n implies 0 <= #[trigger] position(v) < n && m[position(v)]
            == v by {
            assert(occurs_once(m, v));
        }
        lemma_int_range(0, n);
        assert(injective_on(position, range));
        let image = range.map(position);
        lemma_map_size(range, image, position);
        assert(image.subset_of(range));
        lemma_subset_equality(image, range);
        assert forall|i: int| 0 <= i < n implies (#[trigger] m[i]) < n by {
            assert(image.contains(i));
            let v = choose|v: int| range.contains(v) && i == position(v);
            assert(m[position(v)] == v);
        }
        assert forall|i: int, j: int| 0 <= i < j < n implies (#[trigger] m[i]) != (
        #[trigger] m[j]) by {
            assert(occurs_once(m, m[i] as int));
        }
        assert forall|v: int| 0 <= v < n implies #[trigger] value_occurs(m, v) by {
            assert(occurs_once(m, v));
        }
    }
}

/// The identity mapping is a bijection.
pub proof fn lemma_identity_is_bijection(n: nat)
    requires
        n <= usize::MAX + 1,
    ensures
        is_bijection(identity_map(n)),
        identity_map(n).len() == n,
{
    let id = identity_map(n);
    assert forall|v: int| 0 <= v < id.len() implies #[trigger] value_occurs(id, v) by {
        assert(id[v] == v);
    }
}

/// The composition of two bijections of one degree is a bijection of that degree.
pub proof fn lemma_compose_is_bijection(g: Seq<usize>, h: Seq<usize>)
    requires
        is_bijection(g),
        is_bijection(h),
        g.len() == h.len(),
    ensures
        is_bijection(compose(g, h)),
        compose(g, h).len() == g.len(),
{
    let c = compose(g, h);
    assert forall|v: int| 0 <= v < c.len() implies #[trigger] value_occurs(c, v) by {
        lemma_preimage(g, v);
        let a = preimage(g, v);
        lemma_preimage(h, a);
        let b = preimage(h, a);
        assert(c[b] == v);
    }
}

/// The inverse of a bijection is a bijection, and undoes it on both sides.
pub proof fn lemma_inverse_is_bijection(g: Seq<usize>)
    requires
        is_bijection(g),
    ensures
        is_bijection(inverse(g)),
        inverse(g).len() == g.len(),
        forall|i: int| 0 <= i < g.len() ==> (#[trigger] inverse(g)[g[i] as int]) == i,
        forall|v: int| 0 <= v < g.len() ==> g[(#[trigger] inverse(g)[v]) as int] == v,
{
    let inv = inverse(g);
    lemma_degree_fits(g);
    assert forall|v: int| 0 <= v < g.len() implies inv[v] == preimage(g, v) && 0 <= preimage(
        g,
        v,
    ) < g.len() && g[preimage(g, v)] == v by {
        lemma_preimage(g, v);
    }
    assert forall|i: int| 0 <= i < g.len() implies (#[trigger] inv[g[i] as int]) == i by {
        lemma_preimage(g, g[i] as int);
    }
    assert forall|i: int| 0 <= i < inv.len() implies #[trigger] value_occurs(inv, i) by {
        assert(inv[g[i] as int] == i);
    }
    assert forall|v: int, w: int| 0 <= v < w < inv.len() implies (#[trigger] inv[v]) != (
    #[trigger] inv[w]) by {
        assert(g[inv[v] as int] == v);
        assert(g[inv[w] as int] == w);
    }
}

/// A right inverse of a bijection is its inverse.
pub proof fn lemma_inverse_unique(g: Seq<usize>, h: Seq<usize>)
    requires
        is_bijection(g),
        is_bijection(h),
        g.len() == h.len(),
        compose(g, h) == identity_map(g.len()),
    ensures
        h == inverse(g),
{
    lemma_inverse_is_bijection(g);
    lemma_degree_fits(g);
    let inv = inverse(g);
    assert forall|v: int| 0 <= v < g.len() implies h[v] == inv[v] by {
        assert(compose(g, h)[v] == g[h[v] as int]);
        assert(identity_map(g.len())[v] == v);
        assert(g[h[v] as int] == v);
        lemma_preimage(g, v);
    }
    assert(h =~= inv);
}

/// A permutation composed with its inverse, on either side, is the identity.
pub proof fn lemma_compose_inverse(g: Seq<usize>)
    requires
        is_bijection(g),
    ensures
        compose(g, inverse(g)) == identity_map(g.len()),
        compose(inverse(g), g) == identity_map(g.len()),
{
    lemma_inverse_is_bijection(g);
    lemma_degree_fits(g);
    assert(compose(g, inverse(g)) =~= identity_map(g.len()));
    assert(compose(inverse(g), g) =~= identity_map(g.len()));
}

/// The identity is neutral for composition on both sides.
pub proof fn lemma_compose_identity(g: Seq<usize>)
    requires
        is_bijection(g),
    ensures
        compose(identity_map(g.len()), g) == g,
        compose(g, identity_map(g.len())) == g,
{
    lemma_degree_fits(g);
    assert(compose(identity_map(g.len()), g) =~= g);
    assert(compose(g, identity_map(g.len())) =~= g);
}

/// Composition is associative.
pub proof fn lemma_compose_associative(a: Seq<usize>, b: Seq<usize>, c: Seq<usize>)
    requires
        is_bijection(a),
        is_bijection(b),
        is_bijection(c),
        a.len() == b.len(),
        b.len() == c.len(),
    ensures
        compose(compose(a, b), c) == compose(a, compose(b, c)),
{
    assert(compose(compose(a, b), c) =~= compose(a, compose(b, c)));
}

/// Inverting twice gives the permutation back.
pub proof fn lemma_inverse_involutive(g: Seq<usize>)
    requires
        is_bijection(g),
    ensures
        inverse(inverse(g)) == g,
{
    lemma_inverse_is_bijection(g);
    lemma_compose_inverse(g);
    lemma_inverse_unique(inverse(g), g);
}

/// A conjugate of a permutation is a permutation of the same degree.
pub proof fn lemma_conjugate_is_bijection(g: Seq<usize>, x: Seq<usize>)
    requires
        is_bijection(g),
        is_bijection(x),
        g.len() == x.len(),
    ensures
        is_bijection(conjugate_map(g, x)),
        conjugate_map(g, x).len() == g.len(),
{
    lemma_inverse_is_bijection(g);
    lemma_compose_is_bijection(x, inverse(g));
    lemma_compose_is_bijection(g, compose(x, inverse(g)));
}

/// Conjugation by `g` respects composition.
pub proof fn lemma_conjugate_of_compose(g: Seq<usize>, x: Seq<usize>, y: Seq<usize>)
    requires
        is_bijection(g),
        is_bijection(x),
        is_bijection(y),
        g.len() == x.len(),
        g.len() == y.len(),
    ensures
        conjugate_map(g, compose(x, y)) == compose(conjugate_map(g, x), conjugate_map(g, y)),
{
    lemma_inverse_is_bijection(g);
    let gi = inverse(g);
    let left = conjugate_map(g, compose(x, y));
    let right = compose(conjugate_map(g, x), conjugate_map(g, y));
    assert forall|i: int| 0 <= i < g.len() implies left[i] == right[i] by {
        let a = gi[i] as int;
        let b = y[a] as int;
        assert(compose(y, gi)[i] == b);
        assert(conjugate_map(g, y)[i] == g[b]);
        assert(gi[g[b] as int] == b);
        assert(compose(x, gi)[g[b] as int] == x[b]);
        assert(right[i] == g[x[b] as int]);
        assert(compose(compose(x, y), gi)[i] == x[b]);
    }
    assert(left =~= right);
}

/// Conjugating the identity gives the identity.
pub proof fn lemma_conjugate_of_identity(g: Seq<usize>)
    requires
        is_bijection(g),
    ensures
        conjugate_map(g, identity_map(g.len())) == identity_map(g.len()),
{
    lemma_inverse_is_bijection(g);
    lemma_compose_identity(inverse(g));
    lemma_compose_inverse(g);
}

/// Conjugation by `g` respects inversion.
pub proof fn lemma_conjugate_of_inverse(g: Seq<usize>, x: Seq<usize>)
    requires
        is_bijection(g),
        is_bijection(x),
        g.len() == x.len(),
    ensures
        conjugate_map(g, inverse(x)) == inverse(conjugate_map(g, x)),
{
    lemma_inverse_is_bijection(x);
    lemma_conjugate_is_bijection(g, x);
    lemma_conjugate_is_bijection(g, inverse(x));
    lemma_conjugate_of_compose(g, x, inverse(x));
    lemma_compose_inverse(x);
    lemma_conjugate_of_identity(g);
    lemma_inverse_unique(conjugate_map(g, x), conjugate_map(g, inverse(x)));
}

/// Two permutations with one conjugate by `g` are equal.
pub proof fn lemma_conjugate_injective(g: Seq<usize>, x: Seq<usize>, y: Seq<usize>)
    requires
        is_bijection(g),
        is_bijection(x),
        is_bijection(y),
        g.len() == x.len(),
        g.len() == y.len(),
        conjugate_map(g, x) == conjugate_map(g, y),
    ensures
        x == y,
{
    lemma_inverse_is_bijection(g);
    let gi = inverse(g);
    assert forall|k: int| 0 <= k < g.len() implies x[k] == y[k] by {
        let i = g[k] as int;
        assert(gi[i] == k);
        assert(compose(x, gi)[i] == x[k]);
        assert(compose(y, gi)[i] == y[k]);
        assert(conjugate_map(g, x)[i] == g[x[k] as int]);
        assert(conjugate_map(g, y)[i] == g[y[k] as int]);
    }
    assert(x =~= y);
}

} // verus!
