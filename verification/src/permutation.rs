//! Permutations as validated mappings, with their algebra and their order.

use vstd::prelude::*;
use crate::mapping::{
    compose, identity_map, inverse, is_bijection, lemma_bijection_by_occurrences,
    lemma_compose_is_bijection, lemma_identity_is_bijection, lemma_inverse_is_bijection,
    lemma_preimage, occurs_once, preimage,
};
use crate::order::{
    lemma_lex_order_is_total, lemma_lex_rank, lex_less, lex_order, lex_rank, splits_at,
    strict_total_order, Rank,
};

verus! {

/// The usual order on symbols.
pub open spec fn symbol_order() -> spec_fn(usize, usize) -> bool {
    |x: usize, y: usize| x < y
}

/// The order on mappings: lexicographic on the images, a proper prefix first.
pub open spec fn mapping_order() -> spec_fn(Seq<usize>, Seq<usize>) -> bool {
    lex_order(symbol_order())
}

/// `a` comes before `b` in the order on mappings.
pub open spec fn mapping_less(a: Seq<usize>, b: Seq<usize>) -> bool {
    lex_less(a, b, symbol_order())
}

/// Where `a` stands to `b` in the order on mappings.
pub open spec fn mapping_rank(a: Seq<usize>, b: Seq<usize>) -> Rank {
    lex_rank(a, b, symbol_order())
}

/// The order on mappings is a strict total order.
pub proof fn lemma_mapping_order_is_total()
    ensures
        strict_total_order(symbol_order()),
        strict_total_order(mapping_order()),
{
    lemma_lex_order_is_total(symbol_order());
}

/// A bijection on `{0, .., n-1}`, held as the sequence of images.
///
/// A value of this type can only be made by [`make_permutation`], [`identity`],
/// [`composition`] and [`invert`], so every one of them is a bijection.
#[derive(Debug, PartialEq, Eq, PartialOrd, Ord)]
pub struct Permutation {
    mapping: Vec<usize>,
}

impl View for Permutation {
    type V = Seq<usize>;

    closed spec fn view(&self) -> Seq<usize> {
        self.mapping@
    }
}

impl Clone for Permutation {
    fn clone(&self) -> (result: Self)
        ensures
            result@ == self@,
    {
        proof {
            use_type_invariant(self);
        }
        let mapping = copy_symbols(&self.mapping);
        Permutation { mapping }
    }
}

impl Permutation {
    /// Every permutation that exists is a bijection.
    #[verifier::type_invariant]
    pub open spec fn valid(&self) -> bool {
        is_bijection(self@)
    }

    /// The number of symbols acted upon.
    pub fn degree(&self) -> (n: usize)
        ensures
            n == self@.len(),
    {
        self.mapping.len()
    }

    /// The image of `symbol`.
    pub fn image(&self, symbol: usize) -> (result: usize)
        requires
            symbol < self@.len(),
        ensures
            result == self@[symbol as int],
            result < self@.len(),
    {
        proof {
            use_type_invariant(self);
        }
        self.mapping[symbol]
    }

    /// The images of `0, 1, ..` in turn.
    pub fn images(&self) -> (result: Vec<usize>)
        ensures
            result@ == self@,
            is_bijection(result@),
    {
        proof {
            use_type_invariant(self);
        }
        copy_symbols(&self.mapping)
    }

    /// Where `self` stands to `other` in the order on mappings.
    pub fn compare(&self, other: &Permutation) -> (rank: Rank)
        ensures
            rank == mapping_rank(self@, other@),
    {
        let a = &self.mapping;
        let b = &other.mapping;
        proof {
            lemma_mapping_order_is_total();
            lemma_lex_rank(a@, b@, symbol_order());
        }
        let mut i: usize = 0;
        while i < a.len() && i < b.len()
            invariant
                a@ == self@,
                b@ == other@,
                i <= a.len(),
                i <= b.len(),
                forall|j: int| 0 <= j < i ==> a@[j] == b@[j],
            decreases a.len() - i,
        {
            proof {
                lemma_mapping_order_is_total();
                lemma_lex_rank(a@, b@, symbol_order());
            }
            if a[i] < b[i] {
                assert(splits_at(a@, b@, symbol_order(), i as int));
                return Rank::Before;
            }
            if b[i] < a[i] {
                assert(splits_at(b@, a@, symbol_order(), i as int));
                return Rank::After;
            }
            i += 1;
        }
        if a.len() < b.len() {
            assert(splits_at(a@, b@, symbol_order(), i as int));
            Rank::Before
        } else if b.len() < a.len() {
            assert(splits_at(b@, a@, symbol_order(), i as int));
            Rank::After
        } else {
            assert(a@ =~= b@);
            Rank::Same
        }
    }
}

fn copy_symbols(source: &Vec<usize>) -> (result: Vec<usize>)
    ensures
        result@ == source@,
{
    let mut result: Vec<usize> = Vec::new();
    let mut i: usize = 0;
    while i < source.len()
        invariant
            i <= source.len(),
            result@ == source@.take(i as int),
        decreases source.len() - i,
    {
        result.push(source[i]);
        i += 1;
        assert(result@ =~= source@.take(i as int));
    }
    assert(source@.take(i as int) =~= source@);
    result
}

/// How often `object` occurs in `mapping`.
fn count_occurrences(mapping: &Vec<usize>, object: usize) -> (count: usize)
    ensures
        count == 1 <==> occurs_once(mapping@, object as int),
{
    let mut count: usize = 0;
    let mut k: usize = 0;
    let ghost mut first: int = 0;
    let ghost mut second: int = 0;
    while k < mapping.len()
        invariant
            k <= mapping.len(),
            count <= k,
            count == 0 ==> forall|i: int| 0 <= i < k ==> mapping@[i] != object,
            count >= 1 ==> 0 <= first < k && mapping@[first] == object,
            count == 1 ==> forall|i: int| 0 <= i < k && mapping@[i] == object ==> i == first,
            count >= 2 ==> first < second < k && mapping@[second] == object,
        decreases mapping.len() - k,
    {
        if mapping[k] == object {
            proof {
                if count == 0 {
                    first = k as int;
                } else {
                    second = k as int;
                }
            }
            count += 1;
        }
        k += 1;
    }
    proof {
        if count >= 1 {
            assert(mapping@[first] == object);
        }
        if count >= 2 {
            assert(mapping@[second] == object);
        }
    }
    count
}

/// The permutation on `size` symbols that moves nothing.
pub fn identity(size: usize) -> (result: Permutation)
    ensures
        result@ == identity_map(size as nat),
{
    let mut mapping: Vec<usize> = Vec::new();
    let mut i: usize = 0;
    while i < size
        invariant
            i <= size,
            mapping@ == identity_map(i as nat),
        decreases size - i,
    {
        mapping.push(i);
        i += 1;
        assert(mapping@ =~= identity_map(i as nat));
    }
    proof {
        lemma_identity_is_bijection(size as nat);
    }
    Permutation { mapping }
}

/// Makes a permutation of `mapping`, read as `i -> mapping[i]`, if it is a
/// bijection on `[0, mapping.len())`: every value of the range occurs exactly
/// once. Anything else is turned down.
pub fn make_permutation(mapping: Vec<usize>) -> (result: Option<Permutation>)
    ensures
        result.is_some() <==> is_bijection(mapping@),
        result matches Some(p) ==> p@ == mapping@,
{
    proof {
        lemma_bijection_by_occurrences(mapping@);
    }
    let mut object: usize = 0;
    while object < mapping.len()
        invariant
            object <= mapping.len(),
            is_bijection(mapping@) <==> forall|v: int|
                0 <= v < mapping@.len() ==> #[trigger] occurs_once(mapping@, v),
            forall|v: int| 0 <= v < object ==> #[trigger] occurs_once(mapping@, v),
        decreases mapping.len() - object,
    {
        let count = count_occurrences(&mapping, object);
        if count != 1 {
            return None;
        }
        object += 1;
    }
    Some(Permutation { mapping })
}

/// The permutation `x -> g(h(x))`: `h` is applied first, then `g`.
pub fn composition(g: &Permutation, h: &Permutation) -> (result: Permutation)
    requires
        g@.len() == h@.len(),
    ensures
        result@ == compose(g@, h@),
{
    proof {
        use_type_invariant(g);
        use_type_invariant(h);
    }
    let mut mapping: Vec<usize> = Vec::new();
    let mut x: usize = 0;
    while x < h.mapping.len()
        invariant
            x <= h.mapping@.len(),
            g.mapping@.len() == h.mapping@.len(),
            is_bijection(h.mapping@),
            mapping@ == compose(g.mapping@, h.mapping@).take(x as int),
        decreases h.mapping.len() - x,
    {
        mapping.push(g.mapping[h.mapping[x]]);
        x += 1;
        assert(mapping@ =~= compose(g.mapping@, h.mapping@).take(x as int));
    }
    proof {
        assert(mapping@ =~= compose(g@, h@));
        lemma_compose_is_bijection(g@, h@);
    }
    Permutation { mapping }
}

/// The inverse of `g`: the permutation that sends each `g(j)` back to `j`.
pub fn invert(g: &Permutation) -> (result: Permutation)
    ensures
        result@ == inverse(g@),
{
    proof {
        use_type_invariant(g);
    }
    let mut mapping: Vec<usize> = copy_symbols(&g.mapping);
    let mut j: usize = 0;
    while j < g.mapping.len()
        invariant
            j <= g.mapping@.len(),
            is_bijection(g.mapping@),
            mapping@.len() == g.mapping@.len(),
            forall|i: int| 0 <= i < j ==> mapping@[(#[trigger] g.mapping@[i]) as int] == i,
        decreases g.mapping.len() - j,
    {
        mapping.set(g.mapping[j], j);
        j += 1;
    }
    proof {
        assert forall|v: int| 0 <= v < g@.len() implies mapping@[v] == inverse(g@)[v] by {
            lemma_preimage(g@, v);
            assert(mapping@[g@[preimage(g@, v)] as int] == preimage(g@, v));
        }
        assert(mapping@ =~= inverse(g@));
        lemma_inverse_is_bijection(g@);
    }
    Permutation { mapping }
}

} // verus!
