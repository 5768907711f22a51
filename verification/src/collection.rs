//! A set of subgroups, held in ascending order without duplicates.

use vstd::prelude::*;
use crate::group::{
    lemma_same_set_same_key, lemma_subset_less_transitive, lemma_subset_order_is_total,
    lemma_subset_rank, subset_less, subset_order, Subgroup, SubsetKey,
};
use crate::order::{
    ascending, lemma_ascending_no_duplicates, lemma_insert_keeps_ascending, lemma_insert_to_set,
    Rank,
};

verus! {

/// Degree and ascending listing of each subgroup, in the same order.
pub open spec fn keys_of(groups: Seq<Subgroup>) -> Seq<SubsetKey> {
    Seq::new(groups.len(), |i: int| groups[i].key())
}

/// The set of members of each subgroup, in the same order.
pub open spec fn sets_of(groups: Seq<Subgroup>) -> Seq<Set<Seq<usize>>> {
    Seq::new(groups.len(), |i: int| groups[i]@)
}

/// Every subgroup of the sequence is valid.
pub open spec fn all_valid(groups: Seq<Subgroup>) -> bool {
    forall|i: int| 0 <= i < groups.len() ==> (#[trigger] groups[i]).valid()
}

/// In an ascending sequence of valid subgroups, a subgroup's set of members
/// occurs exactly when its key does, and no set occurs twice.
proof fn lemma_sets_follow_keys(groups: Seq<Subgroup>, group: Subgroup)
    requires
        all_valid(groups),
        group.valid(),
        ascending(keys_of(groups), subset_order()),
    ensures
        sets_of(groups).to_set().contains(group@) <==> keys_of(groups).to_set().contains(
            group.key(),
        ),
        sets_of(groups).no_duplicates(),
        sets_of(groups).to_set().len() == groups.len(),
{
    let keys = keys_of(groups);
    let sets = sets_of(groups);
    if sets.to_set().contains(group@) {
        assert(sets.contains(group@));
        let i = choose|i: int| 0 <= i < sets.len() && sets[i] == group@;
        lemma_same_set_same_key(groups[i], group);
        assert(keys[i] == group.key());
        assert(keys.contains(group.key()));
    }
    if keys.to_set().contains(group.key()) {
        assert(keys.contains(group.key()));
        let i = choose|i: int| 0 <= i < keys.len() && keys[i] == group.key();
        assert(sets[i] == group@);
        assert(sets.contains(group@));
    }
    lemma_subset_order_is_total();
    lemma_ascending_no_duplicates(keys, subset_order());
    assert forall|i: int, j: int|
        0 <= i < sets.len() && 0 <= j < sets.len() && i != j implies sets[i] != sets[j] by {
        if sets[i] == sets[j] {
            lemma_same_set_same_key(groups[i], groups[j]);
            assert(keys[i] == keys[j]);
        }
    }
    sets.unique_seq_to_set();
}

/// Where `group` is, or would have to go, in an ascending vector.
fn locate_group(groups: &Vec<Subgroup>, group: &Subgroup) -> (result: (usize, bool))
    requires
        ascending(keys_of(groups@), subset_order()),
    ensures
        result.0 <= groups@.len(),
        result.1 <==> keys_of(groups@).to_set().contains(group.key()),
        result.1 ==> result.0 < groups@.len() && keys_of(groups@)[result.0 as int] == group.key(),
        forall|i: int|
            0 <= i < result.0 ==> subset_less(#[trigger] keys_of(groups@)[i], group.key()),
        !result.1 ==> forall|i: int|
            result.0 <= i < groups@.len() ==> subset_less(
                group.key(),
                #[trigger] keys_of(groups@)[i],
            ),
{
    let ghost keys = keys_of(groups@);
    let ghost key = group.key();
    let mut lo: usize = 0;
    let mut hi: usize = groups.len();
    while lo < hi
        invariant
            lo <= hi <= groups@.len(),
            keys == keys_of(groups@),
            key == group.key(),
            ascending(keys, subset_order()),
            forall|i: int| 0 <= i < lo ==> subset_less(#[trigger] keys[i], key),
            forall|i: int| hi <= i < keys.len() ==> subset_less(key, #[trigger] keys[i]),
        decreases hi - lo,
    {
        let mid = lo + (hi - lo) / 2;
        let rank = groups[mid].compare(group);
        proof {
            lemma_subset_rank(keys[mid as int], key);
        }
        match rank {
            Rank::Same => {
                proof {
                    assert forall|i: int| 0 <= i < mid implies subset_less(
                        #[trigger] keys[i],
                        key,
                    ) by {
                        assert(subset_order()(keys[i], keys[mid as int]));
                    }
                    assert(keys.contains(key));
                }
                return (mid, true);
            },
            Rank::Before => {
                proof {
                    assert forall|i: int| 0 <= i < mid + 1 implies subset_less(
                        #[trigger] keys[i],
                        key,
                    ) by {
                        if i < mid {
                            assert(subset_order()(keys[i], keys[mid as int]));
                            lemma_subset_less_transitive(keys[i], keys[mid as int], key);
                        }
                    }
                }
                lo = mid + 1;
            },
            Rank::After => {
                proof {
                    assert forall|i: int| mid <= i < keys.len() implies subset_less(
                        key,
                        #[trigger] keys[i],
                    ) by {
                        if mid < i {
                            assert(subset_order()(keys[mid as int], keys[i]));
                            lemma_subset_less_transitive(key, keys[mid as int], keys[i]);
                        }
                    }
                }
                hi = mid;
            },
        }
    }
    proof {
        if keys.to_set().contains(key) {
            assert(keys.contains(key));
            let i = choose|i: int| 0 <= i < keys.len() && keys[i] == key;
            lemma_subset_rank(key, key);
            if i < lo {
                assert(subset_less(keys[i], key));
            } else {
                assert(subset_less(key, keys[i]));
            }
        }
    }
    (lo, false)
}

/// A finite set of subgroups. Two subgroups with the same members are the
/// same subgroup, so each is held once; the listing ascends in the order on
/// subgroups.
#[derive(Debug, PartialEq, Eq)]
pub struct SubgroupSet {
    groups: Vec<Subgroup>,
}

impl View for SubgroupSet {
    type V = Set<Set<Seq<usize>>>;

    open spec fn view(&self) -> Set<Set<Seq<usize>>> {
        sets_of(self.listing()).to_set()
    }
}

impl SubgroupSet {
    /// The subgroups in ascending order.
    pub closed spec fn listing(&self) -> Seq<Subgroup> {
        self.groups@
    }

    /// What holds of every set of subgroups: each subgroup is valid, and the
    /// listing ascends.
    #[verifier::type_invariant]
    pub open spec fn valid(&self) -> bool {
        &&& all_valid(self.listing())
        &&& ascending(keys_of(self.listing()), subset_order())
    }

    /// The empty set of subgroups.
    pub fn new() -> (result: SubgroupSet)
        ensures
            result@ == Set::<Set<Seq<usize>>>::empty(),
            result.listing().len() == 0,
    {
        let result = SubgroupSet { groups: Vec::new() };
        assert(result@ =~= Set::<Set<Seq<usize>>>::empty()) by {
            assert forall|g: Set<Seq<usize>>| !result@.contains(g) by {
                if result@.contains(g) {
                    assert(sets_of(result.listing()).contains(g));
                }
            }
        }
        result
    }

    /// The number of subgroups.
    pub fn len(&self) -> (n: usize)
        ensures
            n == self.listing().len(),
            n == self@.len(),
    {
        proof {
            use_type_invariant(self);
            lemma_listing_has_no_duplicates(*self);
        }
        self.groups.len()
    }

    /// The subgroup at `index` of the ascending listing.
    pub fn get(&self, index: usize) -> (group: &Subgroup)
        requires
            index < self.listing().len(),
        ensures
            *group == self.listing()[index as int],
            self@.contains(group@),
    {
        proof {
            assert(sets_of(self.listing())[index as int] == self.listing()[index as int]@);
            assert(sets_of(self.listing()).contains(self.listing()[index as int]@));
        }
        &self.groups[index]
    }

    /// Whether a subgroup with the members of `group` is in the set.
    pub fn contains(&self, group: &Subgroup) -> (found: bool)
        ensures
            found <==> self@.contains(group@),
    {
        proof {
            use_type_invariant(self);
            use_type_invariant(group);
            lemma_sets_follow_keys(self.listing(), *group);
        }
        let (_, found) = locate_group(&self.groups, group);
        found
    }

    /// Puts `group` into the set. Nothing changes if a subgroup with the same
    /// members is there already.
    pub fn insert(&mut self, group: Subgroup) -> (added: bool)
        ensures
            final(self)@ == old(self)@.insert(group@),
            added <==> !old(self)@.contains(group@),
            final(self).listing().len() == old(self).listing().len() + (if added {
                1int
            } else {
                0int
            }),
    {
        proof {
            use_type_invariant(&*self);
            use_type_invariant(&group);
            lemma_sets_follow_keys(self.listing(), group);
        }
        let mut groups: Vec<Subgroup> = Vec::new();
        std::mem::swap(&mut groups, &mut self.groups);
        let ghost before = groups@;
        let ghost key = group.key();
        let ghost members = group@;
        let (position, found) = locate_group(&groups, &group);
        if found {
            assert(sets_of(before).to_set().insert(members) =~= sets_of(before).to_set());
            self.groups = groups;
            false
        } else {
            groups.insert(position, group);
            proof {
                assert(keys_of(groups@) =~= keys_of(before).insert(position as int, key));
                assert(sets_of(groups@) =~= sets_of(before).insert(position as int, members));
                assert forall|i: int| 0 <= i < position implies subset_order()(
                    #[trigger] keys_of(before)[i],
                    key,
                ) by {
                    assert(subset_less(keys_of(before)[i], key));
                }
                assert forall|i: int| position <= i < before.len() implies subset_order()(
                    key,
                    #[trigger] keys_of(before)[i],
                ) by {
                    assert(subset_less(key, keys_of(before)[i]));
                }
                lemma_insert_keeps_ascending(
                    keys_of(before),
                    position as int,
                    key,
                    subset_order(),
                );
                lemma_insert_to_set(sets_of(before), position as int, members);
                assert forall|i: int| 0 <= i < groups@.len() implies (
                #[trigger] groups@[i]).valid() by {
                    if i < position {
                        assert(groups@[i] == before[i]);
                    } else if i > position {
                        assert(groups@[i] == before[i - 1]);
                    }
                }
            }
            self.groups = groups;
            true
        }
    }
}

/// No two subgroups of a set of subgroups have the same members, and the set
/// has as many subgroups as its listing is long.
pub proof fn lemma_listing_has_no_duplicates(set: SubgroupSet)
    requires
        set.valid(),
    ensures
        sets_of(set.listing()).no_duplicates(),
        set@.len() == set.listing().len(),
{
    if set.listing().len() > 0 {
        lemma_sets_follow_keys(set.listing(), set.listing()[0]);
    } else {
        assert(sets_of(set.listing()).to_set() =~= Set::<Set<Seq<usize>>>::empty()) by {
            assert forall|g: Set<Seq<usize>>| !sets_of(set.listing()).to_set().contains(g) by {
                if sets_of(set.listing()).to_set().contains(g) {
                    assert(sets_of(set.listing()).contains(g));
                }
            }
        }
    }
}

/// A set of subgroups has one listing only: two sets that hold the same
/// subgroups list them alike, in whatever order they were put in.
pub proof fn lemma_listing_determined(a: SubgroupSet, b: SubgroupSet)
    requires
        a.valid(),
        b.valid(),
        a@ == b@,
    ensures
        keys_of(a.listing()) == keys_of(b.listing()),
{
    let first = keys_of(a.listing());
    let second = keys_of(b.listing());
    assert forall|key: SubsetKey|
        first.to_set().contains(key) <==> second.to_set().contains(key) by {
        if first.to_set().contains(key) {
            assert(first.contains(key));
            let i = choose|i: int| 0 <= i < first.len() && first[i] == key;
            lemma_sets_follow_keys(b.listing(), a.listing()[i]);
            assert(sets_of(a.listing())[i] == a.listing()[i]@);
            assert(sets_of(a.listing()).contains(a.listing()[i]@));
        }
        if second.to_set().contains(key) {
            assert(second.contains(key));
            let i = choose|i: int| 0 <= i < second.len() && second[i] == key;
            lemma_sets_follow_keys(a.listing(), b.listing()[i]);
            assert(sets_of(b.listing())[i] == b.listing()[i]@);
            assert(sets_of(b.listing()).contains(b.listing()[i]@));
        }
    }
    assert(first.to_set() =~= second.to_set());
    lemma_subset_order_is_total();
    crate::order::lemma_ascending_unique(first, second, subset_order());
}

} // verus!
