//! Subsets and subgroups of a symmetric group, the closure of a set of
//! generators, and the enumeration of subgroups.

use vstd::prelude::*;
use vstd::set_lib::lemma_subset_equality;
use crate::collection::SubgroupSet;
use crate::counting::{factorial, lemma_permutations_count};
use crate::closure::{
    closed_under_composition, closed_under_quotients, conjugation, generated, is_group,
    lemma_closed_is_group, lemma_conjugate_is_group, lemma_generated_degree,
    lemma_generated_is_closed, lemma_generated_is_least, lemma_subset_of_permutations,
    permutations_of,
};
use crate::mapping::{compose, identity_map, inverse, is_bijection};
use crate::order::{
    ascending, lemma_ascending_no_duplicates, lemma_ascending_unique,
    lemma_insert_keeps_ascending, lemma_lex_irreflexive, lemma_lex_rank, lemma_lex_transitive,
    lex_less, splits_at, strict_total_order, Rank,
};
use crate::permutation::{
    composition, identity, invert, lemma_mapping_order_is_total, make_permutation, mapping_less,
    mapping_order, symbol_order, Permutation,
};
use crate::symmetric::{exchange, lemma_generators_generate_all, rotation, symmetric_generators};

verus! {

/// The mappings of a sequence of permutations, in the same order.
pub open spec fn mappings_of(elements: Seq<Permutation>) -> Seq<Seq<usize>> {
    Seq::new(elements.len(), |i: int| elements[i]@)
}

/// `members` is not empty and all its mappings have one length.
pub open spec fn uniform_degree(members: Seq<Seq<usize>>) -> bool {
    &&& members.len() > 0
    &&& forall|i: int| 0 <= i < members.len() ==> (#[trigger] members[i]).len() == members[0].len()
}

/// The set of the first `k + 1` items is the set of the first `k` with one more.
proof fn lemma_take_one_more<T>(s: Seq<T>, k: int)
    requires
        0 <= k < s.len(),
    ensures
        s.take(k + 1).to_set() == s.take(k).to_set().insert(s[k]),
{
    let small = s.take(k);
    let large = s.take(k + 1);
    assert forall|x: T| large.to_set().contains(x) <==> small.to_set().insert(s[k]).contains(x) by {
        if large.to_set().contains(x) {
            assert(large.contains(x));
            let i = choose|i: int| 0 <= i < large.len() && large[i] == x;
            if i < k {
                assert(small[i] == x);
                assert(small.contains(x));
            }
        }
        if small.to_set().contains(x) {
            assert(small.contains(x));
            let i = choose|i: int| 0 <= i < small.len() && small[i] == x;
            assert(large[i] == x);
            assert(large.contains(x));
        }
        if x == s[k] {
            assert(large[k] == x);
            assert(large.contains(x));
        }
    }
    assert(large.to_set() =~= small.to_set().insert(s[k]));
}

/// Degree and ascending listing of a subset: what the order on subsets goes by.
pub type SubsetKey = (nat, Seq<Seq<usize>>);

/// The order on subsets, over degree and ascending listing: the smaller
/// degree first, and for one degree the listings lexicographically.
pub open spec fn subset_less(a: SubsetKey, b: SubsetKey) -> bool {
    a.0 < b.0 || (a.0 == b.0 && lex_less(a.1, b.1, mapping_order()))
}

/// The order on subsets as a relation.
pub open spec fn subset_order() -> spec_fn(SubsetKey, SubsetKey) -> bool {
    |a: SubsetKey, b: SubsetKey| subset_less(a, b)
}

/// Where `a` stands to `b` in the order on subsets.
pub open spec fn subset_rank(a: SubsetKey, b: SubsetKey) -> Rank {
    if subset_less(a, b) {
        Rank::Before
    } else if a == b {
        Rank::Same
    } else {
        Rank::After
    }
}

/// Of "before", "equal" and "after" only the one that `subset_rank` names holds.
pub proof fn lemma_subset_rank(a: SubsetKey, b: SubsetKey)
    ensures
        subset_rank(a, b) == Rank::Before <==> subset_less(a, b),
        subset_rank(a, b) == Rank::Same <==> a == b,
        subset_rank(a, b) == Rank::After <==> subset_less(b, a),
{
    lemma_mapping_order_is_total();
    lemma_lex_rank(a.1, b.1, mapping_order());
}

/// The order on subsets is transitive.
pub proof fn lemma_subset_less_transitive(
    a: SubsetKey,
    b: SubsetKey,
    c: SubsetKey,
)
    requires
        subset_less(a, b),
        subset_less(b, c),
    ensures
        subset_less(a, c),
{
    lemma_mapping_order_is_total();
    if a.0 == b.0 && b.0 == c.0 {
        lemma_lex_transitive(a.1, b.1, c.1, mapping_order());
    }
}

/// The order on subsets is a strict total order.
pub proof fn lemma_subset_order_is_total()
    ensures
        strict_total_order(subset_order()),
{
    let order = subset_order();
    assert forall|x: SubsetKey| !#[trigger] order(x, x) by {
        lemma_subset_rank(x, x);
    }
    assert forall|x: SubsetKey, y: SubsetKey, z: SubsetKey|
        #[trigger] order(x, y) && #[trigger] order(y, z) implies order(x, z) by {
        lemma_subset_less_transitive(x, y, z);
    }
    assert forall|x: SubsetKey, y: SubsetKey|
        #[trigger] order(x, y) || x == y || order(y, x) by {
        lemma_subset_rank(x, y);
    }
}

/// Where `p` is, or would have to go, in an ascending vector.
fn locate(elements: &Vec<Permutation>, p: &Permutation) -> (result: (usize, bool))
    requires
        ascending(mappings_of(elements@), mapping_order()),
    ensures
        result.0 <= elements@.len(),
        result.1 <==> mappings_of(elements@).to_set().contains(p@),
        result.1 ==> result.0 < elements@.len() && mappings_of(elements@)[result.0 as int] == p@,
        forall|i: int| 0 <= i < result.0 ==> mapping_less(#[trigger] mappings_of(elements@)[i], p@),
        !result.1 ==> forall|i: int|
            result.0 <= i < elements@.len() ==> mapping_less(
                p@,
                #[trigger] mappings_of(elements@)[i],
            ),
{
    let ghost members = mappings_of(elements@);
    let mut lo: usize = 0;
    let mut hi: usize = elements.len();
    while lo < hi
        invariant
            lo <= hi <= elements@.len(),
            members == mappings_of(elements@),
            ascending(members, mapping_order()),
            forall|i: int| 0 <= i < lo ==> mapping_less(#[trigger] members[i], p@),
            forall|i: int| hi <= i < members.len() ==> mapping_less(p@, #[trigger] members[i]),
        decreases hi - lo,
    {
        let mid = lo + (hi - lo) / 2;
        let rank = elements[mid].compare(p);
        proof {
            lemma_mapping_order_is_total();
            lemma_lex_rank(members[mid as int], p@, symbol_order());
        }
        match rank {
            Rank::Same => {
                proof {
                    assert forall|i: int| 0 <= i < mid implies mapping_less(
                        #[trigger] members[i],
                        p@,
                    ) by {
                        assert(mapping_order()(members[i], members[mid as int]));
                    }
                    assert(members.contains(p@));
                }
                return (mid, true);
            },
            Rank::Before => {
                proof {
                    assert forall|i: int| 0 <= i < mid + 1 implies mapping_less(
                        #[trigger] members[i],
                        p@,
                    ) by {
                        if i < mid {
                            assert(mapping_order()(members[i], members[mid as int]));
                            lemma_lex_transitive(
                                members[i],
                                members[mid as int],
                                p@,
                                symbol_order(),
                            );
                        }
                    }
                }
                lo = mid + 1;
            },
            Rank::After => {
                proof {
                    assert forall|i: int| mid <= i < members.len() implies mapping_less(
                        p@,
                        #[trigger] members[i],
                    ) by {
                        if mid < i {
                            assert(mapping_order()(members[mid as int], members[i]));
                            lemma_lex_transitive(
                                p@,
                                members[mid as int],
                                members[i],
                                symbol_order(),
                            );
                        }
                    }
                }
                hi = mid;
            },
        }
    }
    proof {
        lemma_mapping_order_is_total();
        if members.to_set().contains(p@) {
            assert(members.contains(p@));
            let i = choose|i: int| 0 <= i < members.len() && members[i] == p@;
            lemma_lex_irreflexive(p@, symbol_order());
            if i < lo {
                assert(mapping_less(members[i], p@));
            } else {
                assert(mapping_less(p@, members[i]));
            }
        }
    }
    (lo, false)
}

/// Puts `p` into an ascending vector unless an equal permutation is there.
fn insert_member(elements: &mut Vec<Permutation>, p: Permutation) -> (added: bool)
    requires
        ascending(mappings_of(old(elements)@), mapping_order()),
    ensures
        ascending(mappings_of(final(elements)@), mapping_order()),
        mappings_of(final(elements)@).to_set() == mappings_of(old(elements)@).to_set().insert(p@),
        added <==> !mappings_of(old(elements)@).to_set().contains(p@),
        final(elements)@.len() == old(elements)@.len() + (if added {
            1int
        } else {
            0int
        }),
{
    let (position, found) = locate(elements, &p);
    if found {
        assert(mappings_of(elements@).to_set().insert(p@) =~= mappings_of(elements@).to_set());
        false
    } else {
        let ghost before = mappings_of(elements@);
        let ghost mapping = p@;
        elements.insert(position, p);
        proof {
            assert(mappings_of(elements@) =~= before.insert(position as int, mapping));
            assert forall|i: int| 0 <= i < position implies mapping_order()(
                #[trigger] before[i],
                mapping,
            ) by {
                assert(mapping_less(before[i], mapping));
            }
            assert forall|i: int| position <= i < before.len() implies mapping_order()(
                mapping,
                #[trigger] before[i],
            ) by {
                assert(mapping_less(mapping, before[i]));
            }
            lemma_insert_keeps_ascending(before, position as int, mapping, mapping_order());
        }
        true
    }
}

/// A copy of a vector of permutations.
fn copy_members(elements: &Vec<Permutation>) -> (result: Vec<Permutation>)
    ensures
        mappings_of(result@) == mappings_of(elements@),
{
    let mut result: Vec<Permutation> = Vec::new();
    let mut i: usize = 0;
    while i < elements.len()
        invariant
            i <= elements@.len(),
            mappings_of(result@) == mappings_of(elements@).take(i as int),
        decreases elements@.len() - i,
    {
        let p = elements[i].clone();
        let ghost before = mappings_of(result@);
        result.push(p);
        assert(mappings_of(result@) =~= before.push(elements@[i as int]@));
        i += 1;
        assert(mappings_of(result@) =~= mappings_of(elements@).take(i as int));
    }
    assert(mappings_of(elements@).take(i as int) =~= mappings_of(elements@));
    result
}

/// A finite set of permutations of one degree that is not empty, held in
/// ascending order without duplicates.
#[derive(Debug, PartialEq, Eq, PartialOrd, Ord)]
pub struct Subset {
    size: usize,
    elements: Vec<Permutation>,
}

impl View for Subset {
    type V = Set<Seq<usize>>;

    open spec fn view(&self) -> Set<Seq<usize>> {
        self.members().to_set()
    }
}

impl Clone for Subset {
    fn clone(&self) -> (result: Self)
        ensures
            result.members() == self.members(),
            result.degree() == self.degree(),
    {
        proof {
            use_type_invariant(self);
        }
        Subset { size: self.size, elements: copy_members(&self.elements) }
    }
}

impl Subset {
    /// The mappings of the members, in ascending order.
    pub closed spec fn members(&self) -> Seq<Seq<usize>> {
        mappings_of(self.elements@)
    }

    /// The degree that all members share.
    pub closed spec fn degree(&self) -> nat {
        self.size as nat
    }

    /// What holds of every subset: it is not empty, its listing ascends, and
    /// its members are permutations of its degree.
    #[verifier::type_invariant]
    pub open spec fn valid(&self) -> bool {
        &&& self.members().len() > 0
        &&& ascending(self.members(), mapping_order())
        &&& self@.subset_of(permutations_of(self.degree()))
    }

    /// Degree and ascending listing: what the order on subsets goes by.
    pub open spec fn key(&self) -> SubsetKey {
        (self.degree(), self.members())
    }

    /// Where `self` stands to `other` in the order on subsets.
    pub fn compare(&self, other: &Subset) -> (rank: Rank)
        ensures
            rank == subset_rank(self.key(), other.key()),
    {
        proof {
            lemma_subset_rank(self.key(), other.key());
        }
        if self.size < other.size {
            return Rank::Before;
        }
        if other.size < self.size {
            return Rank::After;
        }
        let mut i: usize = 0;
        while i < self.elements.len() && i < other.elements.len()
            invariant
                i <= self.members().len(),
                i <= other.members().len(),
                self.size == other.size,
                forall|j: int| 0 <= j < i ==> self.members()[j] == other.members()[j],
            decreases self.members().len() - i,
        {
            let rank = self.elements[i].compare(&other.elements[i]);
            proof {
                lemma_subset_rank(self.key(), other.key());
                lemma_mapping_order_is_total();
                lemma_lex_rank(self.members()[i as int], other.members()[i as int], symbol_order());
            }
            match rank {
                Rank::Before => {
                    assert(splits_at(self.members(), other.members(), mapping_order(), i as int));
                    return Rank::Before;
                },
                Rank::After => {
                    assert(splits_at(other.members(), self.members(), mapping_order(), i as int));
                    return Rank::After;
                },
                Rank::Same => {},
            }
            i += 1;
        }
        if self.elements.len() < other.elements.len() {
            assert(splits_at(self.members(), other.members(), mapping_order(), i as int));
            Rank::Before
        } else if other.elements.len() < self.elements.len() {
            assert(splits_at(other.members(), self.members(), mapping_order(), i as int));
            Rank::After
        } else {
            assert(self.members() =~= other.members());
            Rank::Same
        }
    }

    /// The degree that all members share.
    pub fn size(&self) -> (n: usize)
        ensures
            n == self.degree(),
    {
        self.size
    }

    /// The number of members.
    pub fn len(&self) -> (n: usize)
        ensures
            n == self.members().len(),
            n == self@.len(),
            n > 0,
    {
        proof {
            use_type_invariant(self);
            lemma_mapping_order_is_total();
            crate::order::lemma_ascending_no_duplicates(self.members(), mapping_order());
        }
        self.elements.len()
    }

    /// The member at `index` of the ascending listing.
    pub fn get(&self, index: usize) -> (p: &Permutation)
        requires
            index < self.members().len(),
        ensures
            p@ == self.members()[index as int],
            p@.len() == self.degree(),
            is_bijection(p@),
    {
        proof {
            use_type_invariant(self);
            assert(self.members().contains(self.members()[index as int]));
            assert(self@.contains(self.members()[index as int]));
        }
        &self.elements[index]
    }

    /// Whether `p` is a member.
    pub fn contains(&self, p: &Permutation) -> (found: bool)
        ensures
            found <==> self@.contains(p@),
    {
        proof {
            use_type_invariant(self);
        }
        let (_, found) = locate(&self.elements, p);
        found
    }
}

/// The degree that the permutations of `elements` share, if there is one:
/// none for an empty collection, and none where two degrees differ.
pub fn subset_size(elements: &Vec<Permutation>) -> (result: Option<usize>)
    ensures
        result.is_some() <==> uniform_degree(mappings_of(elements@)),
        result matches Some(size) ==> size == mappings_of(elements@)[0].len(),
{
    if elements.len() == 0 {
        return None;
    }
    let expected_size = elements[0].degree();
    let ghost members = mappings_of(elements@);
    let mut i: usize = 1;
    while i < elements.len()
        invariant
            1 <= i <= elements@.len(),
            members == mappings_of(elements@),
            expected_size == members[0].len(),
            forall|k: int| 0 <= k < i ==> (#[trigger] members[k]).len() == expected_size,
        decreases elements@.len() - i,
    {
        if elements[i].degree() != expected_size {
            assert(members[i as int].len() != members[0].len());
            return None;
        }
        i += 1;
    }
    Some(expected_size)
}

/// Makes a subset of `elements`: the set of its permutations, each held once.
/// There is none for an empty collection, which has no degree, and none for
/// permutations of different degrees.
pub fn make_subset(elements: Vec<Permutation>) -> (result: Option<Subset>)
    ensures
        result.is_some() <==> uniform_degree(mappings_of(elements@)),
        result matches Some(subset) ==> {
            &&& subset@ == mappings_of(elements@).to_set()
            &&& subset.degree() == mappings_of(elements@)[0].len()
        },
{
    match subset_size(&elements) {
        None => None,
        Some(size) => {
            let ghost members = mappings_of(elements@);
            let mut sorted: Vec<Permutation> = Vec::new();
            let mut i: usize = 0;
            assert(members.take(0).to_set() =~= mappings_of(sorted@).to_set());
            while i < elements.len()
                invariant
                    i <= elements@.len(),
                    members == mappings_of(elements@),
                    uniform_degree(members),
                    size == members[0].len(),
                    ascending(mappings_of(sorted@), mapping_order()),
                    mappings_of(sorted@).to_set() == members.take(i as int).to_set(),
                    mappings_of(sorted@).to_set().subset_of(permutations_of(size as nat)),
                decreases elements@.len() - i,
            {
                let p = elements[i].clone();
                proof {
                    use_type_invariant(&p);
                    lemma_take_one_more(members, i as int);
                    assert(p@ == members[i as int]);
                }
                insert_member(&mut sorted, p);
                i += 1;
            }
            proof {
                assert(members.take(i as int) =~= members);
                assert(members.contains(members[0]));
                assert(mappings_of(sorted@).to_set().contains(members[0]));
                assert(mappings_of(sorted@).contains(members[0]));
            }
            Some(Subset { size, elements: sorted })
        },
    }
}

/// A subset that is a group: closed under `g . h^-1`, and so holding the
/// identity, every inverse and every composition of its members.
///
/// A value of this type is only made by [`check_closed`], which tests the
/// closure, and by functions that prove it of their result.
#[derive(Debug, PartialEq, Eq, PartialOrd, Ord)]
pub struct Subgroup(Subset);

/// A subset of permutations that are conjugate to one another. No function
/// of this library makes one yet.
#[derive(Debug)]
pub struct ConjugacyClass(Subset);

impl View for Subgroup {
    type V = Set<Seq<usize>>;

    open spec fn view(&self) -> Set<Seq<usize>> {
        self.subset()@
    }
}

impl Clone for Subgroup {
    fn clone(&self) -> (result: Self)
        ensures
            result.members() == self.members(),
            result.degree() == self.degree(),
    {
        proof {
            use_type_invariant(self);
        }
        Subgroup(self.0.clone())
    }
}

impl Subgroup {
    /// The subset that holds the members.
    pub closed spec fn subset(&self) -> Subset {
        self.0
    }

    /// The mappings of the members, in ascending order.
    pub open spec fn members(&self) -> Seq<Seq<usize>> {
        self.subset().members()
    }

    /// The degree that all members share.
    pub open spec fn degree(&self) -> nat {
        self.subset().degree()
    }

    /// What holds of every subgroup: its subset is valid, and it is a group.
    #[verifier::type_invariant]
    pub open spec fn valid(&self) -> bool {
        &&& self.subset().valid()
        &&& is_group(self@, self.degree())
    }

    /// Degree and ascending listing: what the order on subgroups goes by.
    pub open spec fn key(&self) -> SubsetKey {
        self.subset().key()
    }

    /// Where `self` stands to `other` in the order on subgroups, which is
    /// that of their subsets.
    pub fn compare(&self, other: &Subgroup) -> (rank: Rank)
        ensures
            rank == subset_rank(self.key(), other.key()),
    {
        self.0.compare(&other.0)
    }

    /// The subset that holds the members.
    pub fn as_subset(&self) -> (subset: &Subset)
        ensures
            *subset == self.subset(),
            is_group(self@, self.degree()),
    {
        proof {
            use_type_invariant(self);
        }
        &self.0
    }

    /// The degree that all members share.
    pub fn size(&self) -> (n: usize)
        ensures
            n == self.degree(),
    {
        self.0.size()
    }

    /// The number of members: the order of the group.
    pub fn len(&self) -> (n: usize)
        ensures
            n == self.members().len(),
            n == self@.len(),
            n > 0,
    {
        self.0.len()
    }

    /// The member at `index` of the ascending listing.
    pub fn get(&self, index: usize) -> (p: &Permutation)
        requires
            index < self.members().len(),
        ensures
            p@ == self.members()[index as int],
            p@.len() == self.degree(),
            is_bijection(p@),
    {
        self.0.get(index)
    }

    /// Whether `p` is a member.
    pub fn contains(&self, p: &Permutation) -> (found: bool)
        ensures
            found <==> self@.contains(p@),
    {
        self.0.contains(p)
    }
}

/// Tests whether `subset` is a group, and wraps it if it is: for every pair
/// `g`, `h` of members, `g . h^-1` has to be a member.
pub fn check_closed(subset: Subset) -> (result: Option<Subgroup>)
    ensures
        result.is_some() <==> closed_under_quotients(subset@),
        result matches Some(group) ==> group.subset() == subset && is_group(
            group@,
            group.degree(),
        ),
{
    let count = subset.len();
    let ghost members = subset.members();
    let mut i: usize = 0;
    while i < count
        invariant
            i <= count,
            count == members.len(),
            members == subset.members(),
            forall|a: int, b: int|
                0 <= a < i && 0 <= b < count ==> subset@.contains(
                    #[trigger] compose(members[a], inverse(members[b])),
                ),
        decreases count - i,
    {
        let mut j: usize = 0;
        while j < count
            invariant
                i < count,
                j <= count,
                count == members.len(),
                members == subset.members(),
                forall|a: int, b: int|
                    0 <= a < i && 0 <= b < count ==> subset@.contains(
                        #[trigger] compose(members[a], inverse(members[b])),
                    ),
                forall|b: int|
                    0 <= b < j ==> subset@.contains(
                        #[trigger] compose(members[i as int], inverse(members[b])),
                    ),
            decreases count - j,
        {
            let quotient = composition(subset.get(i), &invert(subset.get(j)));
            if !subset.contains(&quotient) {
                proof {
                    assert(members.contains(members[i as int]));
                    assert(members.contains(members[j as int]));
                }
                return None;
            }
            j += 1;
        }
        i += 1;
    }
    proof {
        use_type_invariant(&subset);
        assert forall|g: Seq<usize>, h: Seq<usize>|
            subset@.contains(g) && subset@.contains(h) implies #[trigger] subset@.contains(
            compose(g, inverse(h)),
        ) by {
            assert(members.contains(g));
            assert(members.contains(h));
            let a = choose|a: int| 0 <= a < members.len() && members[a] == g;
            let b = choose|b: int| 0 <= b < members.len() && members[b] == h;
            assert(subset@.contains(compose(members[a], inverse(members[b]))));
        }
        assert(subset@.contains(members[0])) by {
            assert(members.contains(members[0]));
        }
    }
    Some(Subgroup(subset))
}

/// Makes a subgroup of `elements` if they share a degree and their set is a
/// group.
pub fn make_subgroup(elements: Vec<Permutation>) -> (result: Option<Subgroup>)
    ensures
        result.is_some() <==> uniform_degree(mappings_of(elements@)) && closed_under_quotients(
            mappings_of(elements@).to_set(),
        ),
        result matches Some(group) ==> {
            &&& group@ == mappings_of(elements@).to_set()
            &&& group.degree() == mappings_of(elements@)[0].len()
            &&& is_group(group@, group.degree())
        },
{
    match make_subset(elements) {
        None => None,
        Some(subset) => check_closed(subset),
    }
}

/// The trivial group on `size` symbols: the identity alone.
pub fn trivial(size: usize) -> (result: Subgroup)
    ensures
        result@ == set![identity_map(size as nat)],
        result@.len() == 1,
        result.degree() == size,
{
    let mut group: Vec<Permutation> = Vec::new();
    group.push(identity(size));
    proof {
        let members = mappings_of(group@);
        assert(members[0] == identity_map(size as nat));
        assert(members.to_set() =~= set![identity_map(size as nat)]) by {
            assert forall|x: Seq<usize>| members.to_set().contains(x) <==> x == identity_map(
                size as nat,
            ) by {
                if x == identity_map(size as nat) {
                    assert(members.contains(members[0]));
                }
            }
        }
        crate::closure::lemma_trivial_is_group(size as nat);
    }
    make_subgroup(group).unwrap()
}

/// The conjugate of `subgroup` by `g`: the group of all `g . x . g^-1` with
/// `x` in `subgroup`. It has as many members as `subgroup`.
pub fn conjugate(subgroup: &Subgroup, g: &Permutation) -> (result: Subgroup)
    requires
        g@.len() == subgroup.degree(),
    ensures
        result@ == subgroup@.map(conjugation(g@)),
        result.degree() == subgroup.degree(),
        result@.len() == subgroup@.len(),
        is_group(result@, result.degree()),
{
    let elem_set = subgroup.as_subset();
    let count = elem_set.len();
    let size = elem_set.size();
    let g_inverse = invert(g);
    let ghost members = elem_set.members();
    let ghost conj = conjugation(g@);
    let mut newgroup: Vec<Permutation> = Vec::new();
    let mut i: usize = 0;
    proof {
        use_type_invariant(g);
        assert(mappings_of(newgroup@).to_set() =~= members.take(0).to_set().map(conj));
    }
    while i < count
        invariant
            i <= count,
            count == members.len(),
            members == elem_set.members(),
            size == elem_set.degree(),
            conj == conjugation(g@),
            g_inverse@ == inverse(g@),
            g@.len() == size,
            is_bijection(g@),
            ascending(mappings_of(newgroup@), mapping_order()),
            mappings_of(newgroup@).to_set() == members.take(i as int).to_set().map(conj),
        decreases count - i,
    {
        let elem = elem_set.get(i);
        proof {
            crate::mapping::lemma_inverse_is_bijection(g@);
            crate::mapping::lemma_compose_is_bijection(elem@, inverse(g@));
        }
        let conjugate_elem = composition(g, &composition(elem, &g_inverse));
        proof {
            lemma_take_one_more(members, i as int);
            members.take(i as int).to_set().lemma_set_map_insert_commute(members[i as int], conj);
            assert(conjugate_elem@ == conj(members[i as int]));
        }
        insert_member(&mut newgroup, conjugate_elem);
        i += 1;
    }
    proof {
        use_type_invariant(subgroup);
        assert(members.take(i as int) =~= members);
        lemma_conjugate_is_group(subgroup@, size as nat, g@);
        let image = mappings_of(newgroup@).to_set();
        lemma_mapping_order_is_total();
        lemma_ascending_no_duplicates(mappings_of(newgroup@), mapping_order());
        assert(image.len() > 0) by {
            lemma_ascending_no_duplicates(members, mapping_order());
        }
    }
    Subgroup(Subset { size, elements: newgroup })
}

/// The group that `generators` generate: the smallest set of permutations that
/// holds them and is closed under composition. All products of two members
/// are added, again and again, until a pass adds nothing.
pub fn generate_fixpoint(generators: &Subset) -> (result: Subgroup)
    ensures
        result@ == generated(generators@),
        result.degree() == generators.degree(),
        is_group(result@, result.degree()),
{
    let size = generators.size();
    let ghost gens = generators@;
    let ghost n = size as nat;
    let mut new_result: Vec<Permutation> = copy_members(&generators.elements);
    let mut grew = true;
    proof {
        use_type_invariant(generators);
        crate::closure::lemma_generated_holds_generators(gens);
    }
    while grew
        invariant
            gens.subset_of(permutations_of(n)),
            ascending(mappings_of(new_result@), mapping_order()),
            gens.subset_of(mappings_of(new_result@).to_set()),
            mappings_of(new_result@).to_set().subset_of(generated(gens)),
            !grew ==> closed_under_composition(mappings_of(new_result@).to_set()),
        decreases
            permutations_of(n).len() - new_result@.len() + (if grew {
                1int
            } else {
                0int
            }),
    {
        let old_result = copy_members(&new_result);
        let count = old_result.len();
        let ghost old_members = mappings_of(old_result@);
        proof {
            lemma_generated_degree(gens, n);
            lemma_mapping_order_is_total();
            lemma_ascending_no_duplicates(old_members, mapping_order());
            lemma_subset_of_permutations(old_members.to_set(), n);
        }
        let mut i: usize = 0;
        while i < count
            invariant
                i <= count,
                count == old_members.len(),
                old_members == mappings_of(old_result@),
                gens.subset_of(permutations_of(n)),
                ascending(mappings_of(new_result@), mapping_order()),
                old_members.to_set().subset_of(mappings_of(new_result@).to_set()),
                old_members.to_set().subset_of(generated(gens)),
                mappings_of(new_result@).to_set().subset_of(generated(gens)),
                forall|a: int, b: int|
                    0 <= a < i && 0 <= b < count ==> mappings_of(new_result@).to_set().contains(
                        #[trigger] compose(old_members[a], old_members[b]),
                    ),
            decreases count - i,
        {
            let mut j: usize = 0;
            while j < count
                invariant
                    i < count,
                    j <= count,
                    count == old_members.len(),
                    old_members == mappings_of(old_result@),
                    gens.subset_of(permutations_of(n)),
                    ascending(mappings_of(new_result@), mapping_order()),
                    old_members.to_set().subset_of(mappings_of(new_result@).to_set()),
                    old_members.to_set().subset_of(generated(gens)),
                    mappings_of(new_result@).to_set().subset_of(generated(gens)),
                    forall|a: int, b: int|
                        0 <= a < i && 0 <= b < count ==> mappings_of(
                            new_result@,
                        ).to_set().contains(#[trigger] compose(old_members[a], old_members[b])),
                    forall|b: int|
                        0 <= b < j ==> mappings_of(new_result@).to_set().contains(
                            #[trigger] compose(old_members[i as int], old_members[b]),
                        ),
                decreases count - j,
            {
                proof {
                    lemma_generated_degree(gens, n);
                    lemma_generated_is_closed(gens);
                    assert(old_members.contains(old_members[i as int]));
                    assert(old_members.contains(old_members[j as int]));
                    assert(generated(gens).contains(old_members[i as int]));
                    assert(generated(gens).contains(old_members[j as int]));
                    assert(permutations_of(n).contains(old_members[i as int]));
                    assert(permutations_of(n).contains(old_members[j as int]));
                    assert(generated(gens).contains(
                        compose(old_members[i as int], old_members[j as int]),
                    ));
                }
                let product = composition(&old_result[i], &old_result[j]);
                insert_member(&mut new_result, product);
                j += 1;
            }
            i += 1;
        }
        grew = new_result.len() != count;
        proof {
            let new_set = mappings_of(new_result@).to_set();
            lemma_ascending_no_duplicates(mappings_of(new_result@), mapping_order());
            lemma_subset_of_permutations(generated(gens), n);
            lemma_subset_of_permutations(new_set, n);
            vstd::set_lib::lemma_len_subset(old_members.to_set(), new_set);
            if !grew {
                lemma_subset_equality(old_members.to_set(), new_set);
                assert forall|a: Seq<usize>, b: Seq<usize>|
                    new_set.contains(a) && new_set.contains(b) implies #[trigger] new_set.contains(
                    compose(a, b),
                ) by {
                    assert(old_members.contains(a));
                    assert(old_members.contains(b));
                    let x = choose|x: int| 0 <= x < old_members.len() && old_members[x] == a;
                    let y = choose|y: int| 0 <= y < old_members.len() && old_members[y] == b;
                    assert(new_set.contains(compose(old_members[x], old_members[y])));
                }
            }
        }
    }
    proof {
        use_type_invariant(generators);
        let closure = mappings_of(new_result@).to_set();
        lemma_generated_degree(gens, n);
        lemma_generated_is_least(gens, closure);
        assert(closure =~= generated(gens));
        assert(gens.contains(generators.members()[0])) by {
            assert(generators.members().contains(generators.members()[0]));
        }
        assert(closure.contains(generators.members()[0]));
        assert(mappings_of(new_result@).contains(generators.members()[0]));
        lemma_closed_is_group(closure, n);
    }
    Subgroup(Subset { size, elements: new_result })
}

/// Two subgroups with the same members have the same degree and listing.
pub proof fn lemma_same_set_same_key(a: Subgroup, b: Subgroup)
    requires
        a.valid(),
        b.valid(),
        a@ == b@,
    ensures
        a.key() == b.key(),
{
    lemma_mapping_order_is_total();
    lemma_ascending_unique(a.members(), b.members(), mapping_order());
    let first = a.members()[0];
    assert(a.members().contains(first));
    assert(a@.contains(first));
    assert(permutations_of(a.degree()).contains(first));
    assert(permutations_of(b.degree()).contains(first));
}

/// The symmetric group on `size` symbols: all `size!` permutations of that
/// degree, generated by the rotation of all symbols and the exchange of the
/// first two.
pub fn elements(size: usize) -> (result: Subgroup)
    requires
        size > 1,
    ensures
        result@ == permutations_of(size as nat),
        result@ == generated(symmetric_generators(size as nat)),
        result@.len() == factorial(size as nat),
        result.degree() == size,
{
    let ghost n = size as nat;
    let mut cycle: Vec<usize> = Vec::new();
    let mut i: usize = 1;
    assert(cycle@ =~= rotation(n).take(0));
    while i < size
        invariant
            1 <= i <= size,
            n == size,
            cycle@ == rotation(n).take(i - 1),
        decreases size - i,
    {
        cycle.push(i);
        i += 1;
        assert(cycle@ =~= rotation(n).take(i - 1));
    }
    cycle.push(0);
    assert(cycle@ =~= rotation(n));
    let mut transposition: Vec<usize> = Vec::new();
    transposition.push(1);
    transposition.push(0);
    assert(transposition@ =~= exchange(n, 0, 1).take(2));
    let mut k: usize = 2;
    while k < size
        invariant
            2 <= k <= size,
            n == size,
            transposition@ == exchange(n, 0, 1).take(k as int),
        decreases size - k,
    {
        transposition.push(k);
        k += 1;
        assert(transposition@ =~= exchange(n, 0, 1).take(k as int));
    }
    assert(transposition@ =~= exchange(n, 0, 1));
    proof {
        lemma_generators_generate_all(n);
        lemma_permutations_count(n);
        assert(symmetric_generators(n).contains(rotation(n)));
        assert(symmetric_generators(n).contains(exchange(n, 0, 1)));
    }
    let gen1 = make_permutation(cycle).unwrap();
    let gen2 = make_permutation(transposition).unwrap();
    let mut pair: Vec<Permutation> = Vec::new();
    pair.push(gen1);
    pair.push(gen2);
    proof {
        let members = mappings_of(pair@);
        assert(members[0] == rotation(n) && members[1] == exchange(n, 0, 1));
        assert forall|x: Seq<usize>|
            members.to_set().contains(x) <==> symmetric_generators(n).contains(x) by {
            if symmetric_generators(n).contains(x) {
                assert(members.contains(members[0]));
                assert(members.contains(members[1]));
            }
        }
        assert(members.to_set() =~= symmetric_generators(n));
    }
    let generators = make_subset(pair).unwrap();
    generate_fixpoint(&generators)
}

/// What the permutations `a`, `b` and `c` generate together.
pub open spec fn triple_closure(a: Seq<usize>, b: Seq<usize>, c: Seq<usize>) -> Set<Seq<usize>> {
    generated(set![a, b, c])
}

/// The groups that some three permutations of degree `n` generate, the three
/// not needing to differ.
pub open spec fn triple_generated(n: nat) -> Set<Set<Seq<usize>>> {
    Set::new(
        |g: Set<Seq<usize>>|
            exists|a: Seq<usize>, b: Seq<usize>, c: Seq<usize>|
                permutations_of(n).contains(a) && permutations_of(n).contains(b)
                    && permutations_of(n).contains(c) && g == #[trigger] triple_closure(a, b, c),
    )
}

/// The subgroup that three permutations of one degree generate together.
pub fn triple_subgroup(e1: &Permutation, e2: &Permutation, e3: &Permutation) -> (result: Subgroup)
    requires
        e1@.len() == e2@.len(),
        e1@.len() == e3@.len(),
    ensures
        result@ == triple_closure(e1@, e2@, e3@),
        result.degree() == e1@.len(),
{
    let mut triple: Vec<Permutation> = Vec::new();
    triple.push(e1.clone());
    triple.push(e2.clone());
    triple.push(e3.clone());
    proof {
        let members = mappings_of(triple@);
        assert(members[0] == e1@ && members[1] == e2@ && members[2] == e3@);
        assert forall|x: Seq<usize>| members.to_set().contains(x) <==> set![e1@, e2@, e3@].contains(
            x,
        ) by {
            if set![e1@, e2@, e3@].contains(x) {
                assert(members.contains(members[0]));
                assert(members.contains(members[1]));
                assert(members.contains(members[2]));
            }
        }
        assert(members.to_set() =~= set![e1@, e2@, e3@]);
    }
    let generators = make_subset(triple).unwrap();
    generate_fixpoint(&generators)
}

/// The worker that gets the triple with number `ticket` when triples are
/// dealt out to `workers` workers in turn.
pub fn worker_of(ticket: usize, workers: usize) -> (worker: usize)
    requires
        workers > 0,
    ensures
        worker == ticket % workers,
        worker < workers,
{
    ticket % workers
}

/// The triple of positions `(x, y, z)` comes before `(i, j, k)` when triples
/// are taken in turn, the last position running fastest.
spec fn triple_before(x: int, y: int, z: int, i: int, j: int, k: int) -> bool {
    x < i || (x == i && (y < j || (y == j && z < k)))
}

/// What the members at positions `x`, `y` and `z` generate.
spec fn triple_at(members: Seq<Seq<usize>>, x: int, y: int, z: int) -> Set<Seq<usize>> {
    triple_closure(members[x], members[y], members[z])
}

/// The groups generated by the triples of members that come before `(i, j, k)`.
spec fn covered(members: Seq<Seq<usize>>, i: int, j: int, k: int) -> Set<Set<Seq<usize>>> {
    Set::new(
        |g: Set<Seq<usize>>|
            exists|x: int, y: int, z: int|
                0 <= x < members.len() && 0 <= y < members.len() && 0 <= z < members.len()
                    && triple_before(x, y, z, i, j, k) && g == #[trigger] triple_at(
                    members,
                    x,
                    y,
                    z,
                ),
    )
}

/// Taking the triple at `(i, j, k)` adds what it generates.
proof fn lemma_covered_step(members: Seq<Seq<usize>>, i: int, j: int, k: int)
    requires
        0 <= i < members.len(),
        0 <= j < members.len(),
        0 <= k < members.len(),
    ensures
        covered(members, i, j, k + 1) == covered(members, i, j, k).insert(
            triple_at(members, i, j, k),
        ),
{
    let small = covered(members, i, j, k);
    let large = covered(members, i, j, k + 1);
    let added = triple_at(members, i, j, k);
    assert forall|g: Set<Seq<usize>>| large.contains(g) <==> small.insert(added).contains(g) by {
        if large.contains(g) {
            let (x, y, z) = choose|x: int, y: int, z: int|
                0 <= x < members.len() && 0 <= y < members.len() && 0 <= z < members.len()
                    && triple_before(x, y, z, i, j, k + 1) && g == #[trigger] triple_at(
                    members,
                    x,
                    y,
                    z,
                );
            if !(x == i && y == j && z == k) {
                assert(triple_before(x, y, z, i, j, k));
                assert(small.contains(g));
            }
        }
        if small.contains(g) {
            let (x, y, z) = choose|x: int, y: int, z: int|
                0 <= x < members.len() && 0 <= y < members.len() && 0 <= z < members.len()
                    && triple_before(x, y, z, i, j, k) && g == #[trigger] triple_at(
                    members,
                    x,
                    y,
                    z,
                );
            assert(triple_before(x, y, z, i, j, k + 1));
            assert(large.contains(g));
        }
        if g == added {
            assert(triple_before(i, j, k, i, j, k + 1));
            assert(large.contains(g));
        }
    }
    assert(large =~= small.insert(added));
}

/// Two bounds with the same triples before them cover the same groups.
proof fn lemma_covered_same(
    members: Seq<Seq<usize>>,
    i1: int,
    j1: int,
    k1: int,
    i2: int,
    j2: int,
    k2: int,
)
    requires
        forall|x: int, y: int, z: int|
            0 <= x < members.len() && 0 <= y < members.len() && 0 <= z < members.len() ==> (
            #[trigger] triple_before(x, y, z, i1, j1, k1)) == triple_before(x, y, z, i2, j2, k2),
    ensures
        covered(members, i1, j1, k1) == covered(members, i2, j2, k2),
{
    let first = covered(members, i1, j1, k1);
    let second = covered(members, i2, j2, k2);
    assert forall|g: Set<Seq<usize>>| first.contains(g) <==> second.contains(g) by {
        if first.contains(g) {
            let (x, y, z) = choose|x: int, y: int, z: int|
                0 <= x < members.len() && 0 <= y < members.len() && 0 <= z < members.len()
                    && triple_before(x, y, z, i1, j1, k1) && g == #[trigger] triple_at(
                    members,
                    x,
                    y,
                    z,
                );
            assert(triple_before(x, y, z, i2, j2, k2));
        }
        if second.contains(g) {
            let (x, y, z) = choose|x: int, y: int, z: int|
                0 <= x < members.len() && 0 <= y < members.len() && 0 <= z < members.len()
                    && triple_before(x, y, z, i2, j2, k2) && g == #[trigger] triple_at(
                    members,
                    x,
                    y,
                    z,
                );
            assert(triple_before(x, y, z, i1, j1, k1));
        }
    }
    assert(first =~= second);
}

/// Once every triple of members is taken, the groups covered are those that
/// three permutations of the degree generate.
proof fn lemma_covered_all(members: Seq<Seq<usize>>, n: nat)
    requires
        members.to_set() == permutations_of(n),
    ensures
        covered(members, members.len() as int, 0, 0) == triple_generated(n),
{
    let all = covered(members, members.len() as int, 0, 0);
    assert forall|g: Set<Seq<usize>>| all.contains(g) <==> triple_generated(n).contains(g) by {
        if all.contains(g) {
            let (x, y, z) = choose|x: int, y: int, z: int|
                0 <= x < members.len() && 0 <= y < members.len() && 0 <= z < members.len()
                    && triple_before(x, y, z, members.len() as int, 0, 0) && g
                    == #[trigger] triple_at(members, x, y, z);
            assert(members.contains(members[x]));
            assert(members.contains(members[y]));
            assert(members.contains(members[z]));
            assert(members.to_set().contains(members[x]));
            assert(members.to_set().contains(members[y]));
            assert(members.to_set().contains(members[z]));
            assert(g == triple_closure(members[x], members[y], members[z]));
        }
        if triple_generated(n).contains(g) {
            let (a, b, c) = choose|a: Seq<usize>, b: Seq<usize>, c: Seq<usize>|
                permutations_of(n).contains(a) && permutations_of(n).contains(b)
                    && permutations_of(n).contains(c) && g == #[trigger] triple_closure(a, b, c);
            assert(members.to_set().contains(a));
            assert(members.to_set().contains(b));
            assert(members.to_set().contains(c));
            assert(members.contains(a));
            assert(members.contains(b));
            assert(members.contains(c));
            let x = choose|x: int| 0 <= x < members.len() && members[x] == a;
            let y = choose|y: int| 0 <= y < members.len() && members[y] == b;
            let z = choose|z: int| 0 <= z < members.len() && members[z] == c;
            assert(triple_before(x, y, z, members.len() as int, 0, 0));
            assert(g == triple_at(members, x, y, z));
        }
    }
    assert(all =~= triple_generated(n));
}

/// Among the groups that three permutations of degree `n` generate are the
/// trivial group and the whole symmetric group.
pub proof fn lemma_triples_generate_extremes(n: nat)
    requires
        2 <= n <= usize::MAX,
    ensures
        triple_generated(n).contains(set![identity_map(n)]),
        triple_generated(n).contains(permutations_of(n)),
{
    let id = identity_map(n);
    crate::mapping::lemma_identity_is_bijection(n);
    crate::closure::lemma_trivial_is_group(n);
    assert(set![id, id, id] =~= set![id]);
    assert(triple_closure(id, id, id) == set![id]);
    assert(permutations_of(n).contains(id));
    lemma_generators_generate_all(n);
    let r = rotation(n);
    let e = exchange(n, 0, 1);
    assert(symmetric_generators(n).contains(r));
    assert(symmetric_generators(n).contains(e));
    assert(set![r, e, r] =~= symmetric_generators(n));
    assert(triple_closure(r, e, r) == permutations_of(n));
}

/// The subgroups of the symmetric group on `size` symbols that three of its
/// permutations generate: each ordered triple of permutations, repeats
/// allowed, is taken in turn and the group it generates is put into the
/// result, which holds each group once.
pub fn all_subgroups(size: usize) -> (result: SubgroupSet)
    requires
        size > 1,
    ensures
        result@ == triple_generated(size as nat),
{
    let group = elements(size);
    let count = group.len();
    let ghost members = group.members();
    let mut result = SubgroupSet::new();
    assert(result@ =~= covered(members, 0, 0, 0));
    let mut i: usize = 0;
    while i < count
        invariant
            i <= count,
            count == members.len(),
            members == group.members(),
            result@ == covered(members, i as int, 0, 0),
        decreases count - i,
    {
        let mut j: usize = 0;
        while j < count
            invariant
                i < count,
                j <= count,
                count == members.len(),
                members == group.members(),
                result@ == covered(members, i as int, j as int, 0),
            decreases count - j,
        {
            let mut k: usize = 0;
            while k < count
                invariant
                    i < count,
                    j < count,
                    k <= count,
                    count == members.len(),
                    members == group.members(),
                    result@ == covered(members, i as int, j as int, k as int),
                decreases count - k,
            {
                let found = triple_subgroup(group.get(i), group.get(j), group.get(k));
                proof {
                    lemma_covered_step(members, i as int, j as int, k as int);
                }
                result.insert(found);
                k += 1;
            }
            proof {
                lemma_covered_same(members, i as int, j as int, count as int, i as int, j + 1, 0);
            }
            j += 1;
        }
        proof {
            lemma_covered_same(members, i as int, count as int, 0, i + 1, 0, 0);
        }
        i += 1;
    }
    proof {
        lemma_covered_all(members, size as nat);
    }
    result
}

} // verus!
