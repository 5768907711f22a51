//! Sets of permutations: closure under composition, the set that a set of
//! generators generates, and what makes a finite set of permutations a group.

use vstd::prelude::*;
use vstd::set_lib::{lemma_len_subset, lemma_map_size, lemma_subset_equality};
use crate::mapping::{
    compose, conjugate_map, identity_map, inverse, is_bijection, lemma_compose_identity,
    lemma_compose_is_bijection, lemma_compose_inverse, lemma_conjugate_injective,
    lemma_conjugate_is_bijection, lemma_conjugate_of_compose, lemma_conjugate_of_identity,
    lemma_conjugate_of_inverse, lemma_degree_fits, lemma_identity_is_bijection,
    lemma_inverse_is_bijection, lemma_inverse_unique,
};

verus! {

/// All permutations of degree `n`: the symmetric group on `n` symbols.
pub open spec fn permutations_of(n: nat) -> Set<Seq<usize>> {
    Set::new(|m: Seq<usize>| m.len() == n && is_bijection(m))
}

/// With any two members, `s` holds their composition.
pub open spec fn closed_under_composition(s: Set<Seq<usize>>) -> bool {
    forall|a: Seq<usize>, b: Seq<usize>|
        s.contains(a) && s.contains(b) ==> #[trigger] s.contains(compose(a, b))
}

/// With any two members `g` and `h`, `s` holds `g . h^-1`.
pub open spec fn closed_under_quotients(s: Set<Seq<usize>>) -> bool {
    forall|g: Seq<usize>, h: Seq<usize>|
        s.contains(g) && s.contains(h) ==> #[trigger] s.contains(compose(g, inverse(h)))
}

/// The smallest set that holds `gens` and is closed under composition: what
/// belongs to every such set.
pub open spec fn generated(gens: Set<Seq<usize>>) -> Set<Seq<usize>> {
    Set::new(
        |p: Seq<usize>|
            forall|s: Set<Seq<usize>>|
                gens.subset_of(s) && closed_under_composition(s) ==> #[trigger] s.contains(p),
    )
}

/// `s` is a group of permutations of degree `n`: not empty, made of
/// permutations of that degree, and closed under `g . h^-1`.
pub open spec fn is_group(s: Set<Seq<usize>>, n: nat) -> bool {
    &&& s.subset_of(permutations_of(n))
    &&& !s.is_empty()
    &&& closed_under_quotients(s)
}

/// The sequences of length `k` over the symbols below `n`.
spec fn words_below(n: nat, k: nat) -> Set<Seq<usize>> {
    Set::new(|s: Seq<usize>| s.len() == k && forall|i: int| 0 <= i < k ==> (#[trigger] s[i]) < n)
}

/// Those sequences of `words_below(n, k + 1)` whose last item is below `c`.
spec fn words_ending_below(n: nat, k: nat, c: nat) -> Set<Seq<usize>> {
    Set::new(
        |s: Seq<usize>|
            s.len() == k + 1 && s[k as int] < c && forall|i: int|
                0 <= i < k + 1 ==> (#[trigger] s[i]) < n,
    )
}

proof fn lemma_words_ending_below_finite(n: nat, k: nat, c: nat)
    requires
        c <= n <= usize::MAX + 1,
        words_below(n, k).finite(),
    ensures
        words_ending_below(n, k, c).finite(),
    decreases c,
{
    if c == 0 {
        assert(words_ending_below(n, k, c) =~= Set::empty());
    } else {
        let last = (c - 1) as usize;
        lemma_words_ending_below_finite(n, k, (c - 1) as nat);
        let extend = |s: Seq<usize>| s.push(last);
        let extended = words_below(n, k).map(extend);
        words_below(n, k).lemma_map_finite(extend);
        let both = words_ending_below(n, k, (c - 1) as nat).union(extended);
        assert forall|s: Seq<usize>| words_ending_below(n, k, c).contains(s) implies both.contains(
            s,
        ) by {
            if s[k as int] == last {
                let front = s.drop_last();
                assert(words_below(n, k).contains(front)) by {
                    assert forall|i: int| 0 <= i < k implies (#[trigger] front[i]) < n by {
                        assert(front[i] == s[i]);
                    }
                }
                assert(s =~= extend(front));
                assert(extended.contains(s));
            } else {
                assert(words_ending_below(n, k, (c - 1) as nat).contains(s));
            }
        }
        assert forall|s: Seq<usize>| both.contains(s) implies words_ending_below(n, k, c).contains(
            s,
        ) by {
            if extended.contains(s) {
                let front = choose|front: Seq<usize>|
                    words_below(n, k).contains(front) && s == extend(front);
                assert forall|i: int| 0 <= i < k + 1 implies (#[trigger] s[i]) < n by {
                    if i < k {
                        assert(s[i] == front[i]);
                    }
                }
            }
        }
        assert(words_ending_below(n, k, c) =~= both);
    }
}

proof fn lemma_words_below_finite(n: nat, k: nat)
    requires
        n <= usize::MAX + 1,
    ensures
        words_below(n, k).finite(),
    decreases k,
{
    if k == 0 {
        assert forall|s: Seq<usize>| words_below(n, 0).contains(s) implies s == Seq::<
            usize,
        >::empty() by {
            assert(s =~= Seq::<usize>::empty());
        }
        assert(words_below(n, 0) =~= set![Seq::<usize>::empty()]);
    } else {
        let j = (k - 1) as nat;
        lemma_words_below_finite(n, j);
        lemma_words_ending_below_finite(n, j, n);
        assert(words_below(n, k) =~= words_ending_below(n, j, n));
    }
}

/// There are only finitely many permutations of one degree.
pub proof fn lemma_permutations_finite(n: nat)
    ensures
        permutations_of(n).finite(),
{
    if n <= usize::MAX + 1 {
        lemma_words_below_finite(n, n);
        assert(permutations_of(n).subset_of(words_below(n, n)));
        lemma_len_subset(permutations_of(n), words_below(n, n));
    } else {
        assert forall|m: Seq<usize>| !permutations_of(n).contains(m) by {
            if m.len() == n && is_bijection(m) {
                lemma_degree_fits(m);
            }
        }
        assert(permutations_of(n) =~= Set::empty());
    }
}

/// A set of permutations of one degree is finite, and no larger than the
/// symmetric group of that degree.
pub proof fn lemma_subset_of_permutations(s: Set<Seq<usize>>, n: nat)
    requires
        s.subset_of(permutations_of(n)),
    ensures
        s.finite(),
        s.len() <= permutations_of(n).len(),
{
    lemma_permutations_finite(n);
    lemma_len_subset(s, permutations_of(n));
}

/// The permutations of one degree are closed under composition.
pub proof fn lemma_permutations_closed(n: nat)
    ensures
        closed_under_composition(permutations_of(n)),
{
    let all = permutations_of(n);
    assert forall|a: Seq<usize>, b: Seq<usize>|
        all.contains(a) && all.contains(b) implies #[trigger] all.contains(compose(a, b)) by {
        lemma_compose_is_bijection(a, b);
    }
}

/// The generated set holds its generators.
pub proof fn lemma_generated_holds_generators(gens: Set<Seq<usize>>)
    ensures
        gens.subset_of(generated(gens)),
{
}

/// The generated set is closed under composition.
pub proof fn lemma_generated_is_closed(gens: Set<Seq<usize>>)
    ensures
        closed_under_composition(generated(gens)),
{
    let closure = generated(gens);
    assert forall|a: Seq<usize>, b: Seq<usize>|
        closure.contains(a) && closure.contains(b) implies #[trigger] closure.contains(
        compose(a, b),
    ) by {
        assert forall|s: Set<Seq<usize>>|
            gens.subset_of(s) && closed_under_composition(s) implies #[trigger] s.contains(
            compose(a, b),
        ) by {
            assert(s.contains(a));
            assert(s.contains(b));
        }
    }
}

/// The generated set lies inside every set that holds the generators and is
/// closed under composition.
pub proof fn lemma_generated_is_least(gens: Set<Seq<usize>>, s: Set<Seq<usize>>)
    requires
        gens.subset_of(s),
        closed_under_composition(s),
    ensures
        generated(gens).subset_of(s),
{
    assert forall|p: Seq<usize>| generated(gens).contains(p) implies s.contains(p) by {
        assert(s.contains(p));
    }
}

/// A set that is closed under composition generates itself.
pub proof fn lemma_generated_of_closed(s: Set<Seq<usize>>)
    requires
        closed_under_composition(s),
    ensures
        generated(s) == s,
{
    lemma_generated_is_least(s, s);
    lemma_generated_holds_generators(s);
    assert(generated(s) =~= s);
}

/// Generating is idempotent: what a generated set generates is that set.
pub proof fn lemma_generated_idempotent(gens: Set<Seq<usize>>)
    ensures
        generated(generated(gens)) == generated(gens),
{
    lemma_generated_is_closed(gens);
    lemma_generated_of_closed(generated(gens));
}

/// Permutations of one degree generate permutations of that degree only.
pub proof fn lemma_generated_degree(gens: Set<Seq<usize>>, n: nat)
    requires
        gens.subset_of(permutations_of(n)),
    ensures
        generated(gens).subset_of(permutations_of(n)),
        generated(gens).finite(),
{
    lemma_permutations_closed(n);
    lemma_generated_is_least(gens, permutations_of(n));
    lemma_subset_of_permutations(generated(gens), n);
}

/// In a set of permutations of one degree that is closed under composition,
/// composing with a fixed member `h` on the left reaches every member `y`.
proof fn lemma_left_multiplication_onto(s: Set<Seq<usize>>, n: nat, h: Seq<usize>, y: Seq<usize>)
    requires
        s.subset_of(permutations_of(n)),
        closed_under_composition(s),
        s.contains(h),
        s.contains(y),
    ensures
        exists|x: Seq<usize>| s.contains(x) && y == #[trigger] compose(h, x),
{
    lemma_subset_of_permutations(s, n);
    let shift = |x: Seq<usize>| compose(h, x);
    let image = s.map(shift);
    assert(permutations_of(n).contains(h));
    assert forall|x1: Seq<usize>, x2: Seq<usize>|
        s.contains(x1) && s.contains(x2) && #[trigger] shift(x1) == #[trigger] shift(
            x2,
        ) implies x1 == x2 by {
        assert(permutations_of(n).contains(x1));
        assert(permutations_of(n).contains(x2));
        assert forall|i: int| 0 <= i < n implies x1[i] == x2[i] by {
            assert(compose(h, x1)[i] == h[x1[i] as int]);
            assert(compose(h, x2)[i] == h[x2[i] as int]);
        }
        assert(x1 =~= x2);
    }
    assert(vstd::relations::injective_on(shift, s));
    lemma_map_size(s, image, shift);
    assert forall|z: Seq<usize>| image.contains(z) implies s.contains(z) by {
        let x = choose|x: Seq<usize>| s.contains(x) && z == shift(x);
        assert(s.contains(compose(h, x)));
    }
    lemma_subset_equality(image, s);
    assert(image.contains(y));
    let x = choose|x: Seq<usize>| s.contains(x) && y == shift(x);
    assert(y == compose(h, x));
}

/// A set of permutations of one degree that is closed under composition holds
/// the identity and the inverse of each of its members.
proof fn lemma_member_inverse(s: Set<Seq<usize>>, n: nat, h: Seq<usize>)
    requires
        s.subset_of(permutations_of(n)),
        closed_under_composition(s),
        s.contains(h),
    ensures
        s.contains(identity_map(n)),
        s.contains(inverse(h)),
{
    assert(permutations_of(n).contains(h));
    lemma_degree_fits(h);
    lemma_left_multiplication_onto(s, n, h, h);
    let e = choose|e: Seq<usize>| s.contains(e) && h == #[trigger] compose(h, e);
    assert(permutations_of(n).contains(e));
    assert forall|i: int| 0 <= i < n implies e[i] == identity_map(n)[i] by {
        assert(compose(h, e)[i] == h[e[i] as int]);
    }
    assert(e =~= identity_map(n));
    lemma_left_multiplication_onto(s, n, h, identity_map(n));
    let y = choose|y: Seq<usize>| s.contains(y) && identity_map(n) == #[trigger] compose(h, y);
    assert(permutations_of(n).contains(y));
    lemma_inverse_unique(h, y);
}

/// A set of permutations of one degree that is not empty and closed under
/// composition holds the identity and the inverse of each member.
pub proof fn lemma_closed_holds_inverses(s: Set<Seq<usize>>, n: nat)
    requires
        s.subset_of(permutations_of(n)),
        !s.is_empty(),
        closed_under_composition(s),
    ensures
        s.contains(identity_map(n)),
        forall|h: Seq<usize>| s.contains(h) ==> #[trigger] s.contains(inverse(h)),
{
    assert forall|h: Seq<usize>| s.contains(h) implies #[trigger] s.contains(inverse(h)) by {
        lemma_member_inverse(s, n, h);
    }
    let some = s.choose();
    assert(s.contains(some));
    lemma_member_inverse(s, n, some);
}

/// A set of permutations of one degree that is not empty and closed under
/// composition is a group.
pub proof fn lemma_closed_is_group(s: Set<Seq<usize>>, n: nat)
    requires
        s.subset_of(permutations_of(n)),
        !s.is_empty(),
        closed_under_composition(s),
    ensures
        is_group(s, n),
{
    lemma_closed_holds_inverses(s, n);
    assert forall|g: Seq<usize>, h: Seq<usize>|
        s.contains(g) && s.contains(h) implies #[trigger] s.contains(compose(g, inverse(h))) by {
        assert(s.contains(inverse(h)));
    }
}

/// A group holds the identity and inverses, and is closed under composition.
pub proof fn lemma_group_properties(s: Set<Seq<usize>>, n: nat)
    requires
        is_group(s, n),
    ensures
        s.finite(),
        s.contains(identity_map(n)),
        forall|h: Seq<usize>| s.contains(h) ==> #[trigger] s.contains(inverse(h)),
        closed_under_composition(s),
{
    lemma_subset_of_permutations(s, n);
    let some = s.choose();
    assert(s.contains(some));
    assert(permutations_of(n).contains(some));
    lemma_compose_inverse(some);
    assert(s.contains(compose(some, inverse(some))));
    assert forall|h: Seq<usize>| s.contains(h) implies #[trigger] s.contains(inverse(h)) by {
        assert(permutations_of(n).contains(h));
        lemma_inverse_is_bijection(h);
        lemma_compose_identity(inverse(h));
        assert(s.contains(compose(identity_map(n), inverse(h))));
    }
    assert forall|a: Seq<usize>, b: Seq<usize>|
        s.contains(a) && s.contains(b) implies #[trigger] s.contains(compose(a, b)) by {
        assert(permutations_of(n).contains(b));
        crate::mapping::lemma_inverse_involutive(b);
        assert(s.contains(inverse(b)));
        assert(s.contains(compose(a, inverse(inverse(b)))));
    }
}

/// The identity alone is a group.
pub proof fn lemma_trivial_is_group(n: nat)
    requires
        n <= usize::MAX + 1,
    ensures
        is_group(set![identity_map(n)], n),
        generated(set![identity_map(n)]) == set![identity_map(n)],
{
    let id = identity_map(n);
    let s = set![id];
    lemma_identity_is_bijection(n);
    lemma_compose_identity(id);
    assert(s.contains(id));
    assert forall|a: Seq<usize>, b: Seq<usize>|
        s.contains(a) && s.contains(b) implies #[trigger] s.contains(compose(a, b)) by {
        assert(a == id && b == id);
    }
    lemma_closed_is_group(s, n);
    lemma_generated_of_closed(s);
}

/// Conjugation by `g`, as a function: `x -> g . x . g^-1`.
pub open spec fn conjugation(g: Seq<usize>) -> spec_fn(Seq<usize>) -> Seq<usize> {
    |x: Seq<usize>| conjugate_map(g, x)
}

/// The conjugates of a group by a permutation of its degree form a group of
/// the same degree and the same order.
pub proof fn lemma_conjugate_is_group(s: Set<Seq<usize>>, n: nat, g: Seq<usize>)
    requires
        is_group(s, n),
        permutations_of(n).contains(g),
    ensures
        is_group(s.map(conjugation(g)), n),
        s.map(conjugation(g)).len() == s.len(),
{
    let conj = conjugation(g);
    let image = s.map(conj);
    lemma_group_properties(s, n);
    assert forall|x1: Seq<usize>, x2: Seq<usize>|
        s.contains(x1) && s.contains(x2) && #[trigger] conj(x1) == #[trigger] conj(
            x2,
        ) implies x1 == x2 by {
        assert(permutations_of(n).contains(x1));
        assert(permutations_of(n).contains(x2));
        lemma_conjugate_injective(g, x1, x2);
    }
    assert(vstd::relations::injective_on(conj, s));
    lemma_map_size(s, image, conj);
    assert forall|y: Seq<usize>| image.contains(y) implies permutations_of(n).contains(y) by {
        let x = choose|x: Seq<usize>| s.contains(x) && y == conj(x);
        assert(permutations_of(n).contains(x));
        lemma_conjugate_is_bijection(g, x);
    }
    assert(image.contains(conj(identity_map(n))));
    assert forall|a: Seq<usize>, b: Seq<usize>|
        image.contains(a) && image.contains(b) implies #[trigger] image.contains(
        compose(a, inverse(b)),
    ) by {
        let x = choose|x: Seq<usize>| s.contains(x) && a == conj(x);
        let y = choose|y: Seq<usize>| s.contains(y) && b == conj(y);
        assert(permutations_of(n).contains(x));
        assert(permutations_of(n).contains(y));
        lemma_inverse_is_bijection(y);
        lemma_conjugate_of_inverse(g, y);
        lemma_conjugate_of_compose(g, x, inverse(y));
        assert(s.contains(compose(x, inverse(y))));
        assert(compose(a, inverse(b)) == conj(compose(x, inverse(y))));
    }
}

/// Conjugating the trivial group gives the trivial group.
pub proof fn lemma_conjugate_of_trivial(n: nat, g: Seq<usize>)
    requires
        permutations_of(n).contains(g),
    ensures
        set![identity_map(n)].map(conjugation(g)) == set![identity_map(n)],
{
    let id = identity_map(n);
    lemma_conjugate_of_identity(g);
    assert(set![id].contains(id));
    assert(conjugation(g)(id) == id);
    assert(set![id].map(conjugation(g)) =~= set![id]);
}

} // verus!
