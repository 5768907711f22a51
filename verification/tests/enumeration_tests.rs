use subgroup_calculator::collection::SubgroupSet;
use subgroup_calculator::group::{
    all_subgroups, elements, generate_fixpoint, make_subgroup, make_subset, trivial, worker_of,
};
use subgroup_calculator::permutation::{identity, make_permutation, Permutation};

fn perm(images: Vec<usize>) -> Permutation {
    make_permutation(images).unwrap()
}

#[test]
fn a_new_set_of_subgroups_is_empty() {
    let set = SubgroupSet::new();
    assert_eq!(set.len(), 0);
    assert!(!set.contains(&trivial(3)));
}

#[test]
fn insert_holds_each_subgroup_once() {
    let mut set = SubgroupSet::new();
    assert!(set.insert(elements(3)));
    assert!(set.insert(trivial(3)));
    assert!(!set.insert(trivial(3)));
    assert!(!set.insert(generate_fixpoint(&make_subset(vec![identity(3)]).unwrap())));
    assert!(!set.insert(elements(3)));
    assert_eq!(set.len(), 2);
    assert!(set.contains(&trivial(3)));
    assert!(set.contains(&elements(3)));
    assert!(!set.contains(&trivial(4)));
}

#[test]
fn the_listing_ascends_whatever_the_order_of_insertion() {
    let a = trivial(3);
    let b = make_subgroup(vec![identity(3), perm(vec![0, 2, 1])]).unwrap();
    let c = make_subgroup(vec![identity(3), perm(vec![1, 0, 2])]).unwrap();
    let d = elements(3);
    let mut one = SubgroupSet::new();
    for group in [d.clone(), b.clone(), a.clone(), c.clone()] {
        one.insert(group);
    }
    let mut other = SubgroupSet::new();
    for group in [c.clone(), a.clone(), d.clone(), b.clone(), a.clone()] {
        other.insert(group);
    }
    assert_eq!(one, other);
    assert_eq!(one.len(), 4);
    assert_eq!(one.get(0), &a);
    assert_eq!(one.get(1), &b);
    assert_eq!(one.get(2), &d);
    assert_eq!(one.get(3), &c);
}

#[test]
fn subgroups_of_a_smaller_degree_come_first() {
    let mut set = SubgroupSet::new();
    set.insert(trivial(3));
    set.insert(elements(2));
    set.insert(trivial(2));
    assert_eq!(set.len(), 3);
    assert_eq!(set.get(0), &trivial(2));
    assert_eq!(set.get(1), &elements(2));
    assert_eq!(set.get(2), &trivial(3));
}

#[test]
fn all_subgroups_of_degree_two() {
    let found = all_subgroups(2);
    assert_eq!(found.len(), 2);
    assert!(found.contains(&trivial(2)));
    assert!(found.contains(&elements(2)));
}

#[test]
fn all_subgroups_of_degree_three() {
    let found = all_subgroups(3);
    assert_eq!(found.len(), 6);
    assert!(found.contains(&trivial(3)));
    assert!(found.contains(&elements(3)));
    let orders: Vec<usize> = (0..found.len()).map(|index| found.get(index).len()).collect();
    let mut sorted = orders.clone();
    sorted.sort();
    assert_eq!(sorted, vec![1, 2, 2, 2, 3, 6]);
    assert!(found.contains(&make_subgroup(vec![identity(3), perm(vec![1, 0, 2])]).unwrap()));
    assert!(found.contains(&make_subgroup(vec![identity(3), perm(vec![0, 2, 1])]).unwrap()));
    assert!(found.contains(&make_subgroup(vec![identity(3), perm(vec![2, 1, 0])]).unwrap()));
    assert!(found.contains(
        &make_subgroup(vec![identity(3), perm(vec![1, 2, 0]), perm(vec![2, 0, 1])]).unwrap()
    ));
}

#[test]
fn all_subgroups_holds_no_subgroup_twice() {
    let found = all_subgroups(3);
    for i in 0..found.len() {
        for j in 0..found.len() {
            assert_eq!(found.get(i) == found.get(j), i == j);
        }
    }
}

#[test]
fn all_subgroups_twice_gives_the_same_set() {
    assert_eq!(all_subgroups(3), all_subgroups(3));
    assert_eq!(all_subgroups(2), all_subgroups(2));
}

#[test]
fn every_subgroup_found_is_a_group_of_the_degree() {
    let found = all_subgroups(3);
    for index in 0..found.len() {
        let group = found.get(index);
        assert_eq!(group.size(), 3);
        assert!(group.contains(&identity(3)));
        assert_eq!(6 % group.len(), 0);
        assert_eq!(&generate_fixpoint(group.as_subset()), group);
    }
}

#[test]
fn all_subgroups_of_degree_four() {
    let found = all_subgroups(4);
    assert_eq!(found.len(), 30);
    assert!(found.contains(&trivial(4)));
    assert!(found.contains(&elements(4)));
}

#[test]
fn workers_take_turns() {
    assert_eq!(worker_of(0, 8), 0);
    assert_eq!(worker_of(7, 8), 7);
    assert_eq!(worker_of(8, 8), 0);
    assert_eq!(worker_of(13, 8), 5);
    assert_eq!(worker_of(5, 1), 0);
    assert_eq!(worker_of(usize::MAX, 2), 1);
}
