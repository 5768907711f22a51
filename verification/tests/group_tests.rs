use subgroup_calculator::group::{
    check_closed, conjugate, elements, generate_fixpoint, make_subgroup, make_subset, subset_size,
    trivial, triple_subgroup,
};
use subgroup_calculator::order::Rank;
use subgroup_calculator::permutation::{
    composition, identity, invert, make_permutation, Permutation,
};

fn perm(images: Vec<usize>) -> Permutation {
    make_permutation(images).unwrap()
}

fn factorial(n: usize) -> usize {
    (1..=n).product()
}

#[test]
fn subset_size_is_the_common_degree() {
    assert_eq!(subset_size(&vec![perm(vec![1, 0, 2]), perm(vec![0, 1, 2])]), Some(3));
    assert_eq!(subset_size(&vec![identity(0)]), Some(0));
}

#[test]
fn subset_size_of_nothing_is_none() {
    assert_eq!(subset_size(&vec![]), None);
}

#[test]
fn subset_size_of_mixed_degrees_is_none() {
    assert_eq!(subset_size(&vec![identity(2), identity(3)]), None);
    assert_eq!(subset_size(&vec![identity(3), identity(3), identity(2)]), None);
}

#[test]
fn make_subset_holds_each_permutation_once_in_order() {
    let subset = make_subset(vec![
        perm(vec![2, 1, 0]),
        perm(vec![0, 2, 1]),
        perm(vec![2, 1, 0]),
        perm(vec![0, 1, 2]),
        perm(vec![0, 2, 1]),
    ])
    .unwrap();
    assert_eq!(subset.size(), 3);
    assert_eq!(subset.len(), 3);
    assert_eq!(subset.get(0).images(), vec![0, 1, 2]);
    assert_eq!(subset.get(1).images(), vec![0, 2, 1]);
    assert_eq!(subset.get(2).images(), vec![2, 1, 0]);
    assert!(subset.contains(&perm(vec![0, 2, 1])));
    assert!(!subset.contains(&perm(vec![1, 0, 2])));
    assert!(!subset.contains(&perm(vec![1, 0])));
}

#[test]
fn make_subset_does_not_depend_on_the_order_given() {
    let one = make_subset(vec![perm(vec![1, 0, 2]), perm(vec![0, 1, 2]), perm(vec![2, 0, 1])]);
    let other = make_subset(vec![perm(vec![2, 0, 1]), perm(vec![1, 0, 2]), perm(vec![0, 1, 2])]);
    assert!(one.is_some());
    assert_eq!(one, other);
}

#[test]
fn make_subset_of_nothing_fails() {
    assert!(make_subset(vec![]).is_none());
}

#[test]
fn make_subset_of_mixed_degrees_fails() {
    assert!(make_subset(vec![perm(vec![1, 0]), perm(vec![1, 0, 2])]).is_none());
    assert!(make_subset(vec![identity(3), perm(vec![1, 0, 2]), identity(4)]).is_none());
}

#[test]
fn subsets_compare_by_degree_then_by_members() {
    let small = make_subset(vec![perm(vec![1, 0])]).unwrap();
    let first = make_subset(vec![perm(vec![0, 1, 2]), perm(vec![0, 2, 1])]).unwrap();
    let second = make_subset(vec![perm(vec![0, 1, 2]), perm(vec![1, 0, 2])]).unwrap();
    let prefix = make_subset(vec![perm(vec![0, 1, 2])]).unwrap();
    assert_eq!(small.compare(&first), Rank::Before);
    assert_eq!(first.compare(&small), Rank::After);
    assert_eq!(first.compare(&second), Rank::Before);
    assert_eq!(second.compare(&first), Rank::After);
    assert_eq!(prefix.compare(&first), Rank::Before);
    assert_eq!(first.compare(&prefix), Rank::After);
    assert_eq!(first.compare(&first.clone()), Rank::Same);
    assert!(small < first && first < second && prefix < first);
}

#[test]
fn check_closed_accepts_a_group() {
    let subset = make_subset(vec![identity(3), perm(vec![1, 2, 0]), perm(vec![2, 0, 1])]).unwrap();
    let group = check_closed(subset.clone()).unwrap();
    assert_eq!(group.as_subset(), &subset);
    assert_eq!(group.len(), 3);
    assert_eq!(group.size(), 3);
}

#[test]
fn check_closed_turns_down_a_set_without_the_identity() {
    let subset = make_subset(vec![perm(vec![1, 2, 0])]).unwrap();
    assert!(check_closed(subset).is_none());
}

#[test]
fn check_closed_turns_down_a_set_that_misses_a_product() {
    let subset = make_subset(vec![identity(3), perm(vec![1, 0, 2]), perm(vec![0, 2, 1])]).unwrap();
    assert!(check_closed(subset).is_none());
    let subset = make_subset(vec![identity(3), perm(vec![1, 2, 0])]).unwrap();
    assert!(check_closed(subset).is_none());
}

#[test]
fn make_subgroup_accepts_a_group() {
    let group = make_subgroup(vec![perm(vec![1, 0, 2]), identity(3)]).unwrap();
    assert_eq!(group.len(), 2);
    assert_eq!(group.size(), 3);
    assert_eq!(group.get(0), &identity(3));
    assert_eq!(group.get(1), &perm(vec![1, 0, 2]));
    assert!(group.contains(&perm(vec![1, 0, 2])));
    assert!(!group.contains(&perm(vec![0, 2, 1])));
}

#[test]
fn make_subgroup_fails_where_make_subset_fails() {
    assert!(make_subgroup(vec![]).is_none());
    assert!(make_subgroup(vec![identity(2), identity(3)]).is_none());
}

#[test]
fn make_subgroup_turns_down_what_is_not_closed() {
    assert!(make_subgroup(vec![perm(vec![1, 0, 2])]).is_none());
    assert!(make_subgroup(vec![identity(3), perm(vec![1, 2, 0])]).is_none());
}

#[test]
fn trivial_holds_the_identity_alone() {
    for n in 0..6 {
        let group = trivial(n);
        assert_eq!(group.len(), 1);
        assert_eq!(group.size(), n);
        assert_eq!(group.get(0), &identity(n));
        assert!(group.contains(&identity(n)));
    }
}

#[test]
fn conjugating_the_trivial_group_changes_nothing() {
    let by = [vec![1, 2, 0], vec![1, 0, 2], vec![0, 1, 2], vec![2, 1, 0]];
    for images in by.iter() {
        assert_eq!(conjugate(&trivial(3), &perm(images.clone())), trivial(3));
    }
    assert_eq!(conjugate(&trivial(5), &perm(vec![4, 0, 3, 1, 2])), trivial(5));
}

#[test]
fn conjugate_moves_a_subgroup() {
    let group = make_subgroup(vec![identity(3), perm(vec![1, 0, 2])]).unwrap();
    let moved = conjugate(&group, &perm(vec![1, 2, 0]));
    let expected = make_subgroup(vec![identity(3), perm(vec![0, 2, 1])]).unwrap();
    assert_eq!(moved, expected);
    assert_eq!(moved.len(), group.len());
    assert_eq!(moved.size(), 3);
}

#[test]
fn conjugate_holds_each_conjugated_member() {
    let group = elements(4);
    let rotations = generate_fixpoint(&make_subset(vec![perm(vec![1, 2, 3, 0])]).unwrap());
    for index in 0..group.len() {
        let g = group.get(index);
        let moved = conjugate(&rotations, g);
        assert_eq!(moved.len(), rotations.len());
        for at in 0..rotations.len() {
            let x = rotations.get(at);
            assert!(moved.contains(&composition(g, &composition(x, &invert(g)))));
        }
    }
}

#[test]
fn conjugating_by_a_member_gives_the_same_group() {
    let group = generate_fixpoint(&make_subset(vec![perm(vec![1, 2, 0, 3])]).unwrap());
    assert_eq!(conjugate(&group, &perm(vec![2, 0, 1, 3])), group);
    let whole = elements(3);
    assert_eq!(conjugate(&whole, &perm(vec![0, 2, 1])), whole);
}

#[test]
fn generate_fixpoint_of_a_three_cycle() {
    let group = generate_fixpoint(&make_subset(vec![perm(vec![1, 2, 0])]).unwrap());
    assert_eq!(group.len(), 3);
    assert_eq!(group.get(0).images(), vec![0, 1, 2]);
    assert_eq!(group.get(1).images(), vec![1, 2, 0]);
    assert_eq!(group.get(2).images(), vec![2, 0, 1]);
}

#[test]
fn generate_fixpoint_of_the_identity_is_trivial() {
    let group = generate_fixpoint(&make_subset(vec![identity(4)]).unwrap());
    assert_eq!(group, trivial(4));
}

#[test]
fn generate_fixpoint_of_two_swaps() {
    let generators = make_subset(vec![perm(vec![1, 0, 2, 3]), perm(vec![0, 1, 3, 2])]).unwrap();
    let group = generate_fixpoint(&generators);
    let expected = make_subgroup(vec![
        identity(4),
        perm(vec![1, 0, 2, 3]),
        perm(vec![0, 1, 3, 2]),
        perm(vec![1, 0, 3, 2]),
    ])
    .unwrap();
    assert_eq!(group, expected);
}

#[test]
fn generate_fixpoint_holds_the_generators_and_is_closed() {
    let generators = make_subset(vec![perm(vec![1, 2, 3, 0]), perm(vec![2, 1, 0, 3])]).unwrap();
    let group = generate_fixpoint(&generators);
    assert_eq!(group.len(), 8);
    for index in 0..generators.len() {
        assert!(group.contains(generators.get(index)));
    }
    for i in 0..group.len() {
        assert!(group.contains(&invert(group.get(i))));
        for j in 0..group.len() {
            assert!(group.contains(&composition(group.get(i), group.get(j))));
        }
    }
    assert!(check_closed(group.as_subset().clone()).is_some());
}

#[test]
fn generate_fixpoint_is_idempotent() {
    let seeds = [
        vec![perm(vec![1, 2, 0])],
        vec![perm(vec![1, 0, 2, 3]), perm(vec![0, 1, 3, 2])],
        vec![perm(vec![1, 2, 3, 0]), perm(vec![1, 0, 2, 3])],
        vec![identity(2)],
    ];
    for seed in seeds.iter() {
        let group = generate_fixpoint(&make_subset(seed.clone()).unwrap());
        let again = generate_fixpoint(group.as_subset());
        assert_eq!(again, group);
    }
}

#[test]
fn elements_has_factorial_many_members() {
    assert_eq!(elements(2).len(), 2);
    assert_eq!(elements(3).len(), 6);
    assert_eq!(elements(4).len(), 24);
    assert_eq!(elements(5).len(), factorial(5));
}

#[test]
fn elements_of_three_lists_every_permutation() {
    let group = elements(3);
    assert_eq!(group.size(), 3);
    let expected = [
        vec![0, 1, 2],
        vec![0, 2, 1],
        vec![1, 0, 2],
        vec![1, 2, 0],
        vec![2, 0, 1],
        vec![2, 1, 0],
    ];
    for (index, images) in expected.iter().enumerate() {
        assert_eq!(&group.get(index).images(), images);
    }
}

#[test]
fn elements_of_two() {
    let group = elements(2);
    assert_eq!(group.get(0).images(), vec![0, 1]);
    assert_eq!(group.get(1).images(), vec![1, 0]);
}

#[test]
fn elements_holds_its_generators() {
    let group = elements(4);
    assert!(group.contains(&perm(vec![1, 2, 3, 0])));
    assert!(group.contains(&perm(vec![1, 0, 2, 3])));
    assert!(group.contains(&perm(vec![3, 0, 2, 1])));
    assert!(!group.contains(&perm(vec![1, 0, 2])));
}

#[test]
fn triple_subgroup_is_what_the_three_generate() {
    let a = perm(vec![1, 0, 2, 3]);
    let b = perm(vec![0, 1, 3, 2]);
    let c = perm(vec![1, 0, 3, 2]);
    let group = triple_subgroup(&a, &b, &c);
    assert_eq!(group.len(), 4);
    assert_eq!(group, generate_fixpoint(&make_subset(vec![a.clone(), b.clone()]).unwrap()));
    assert_eq!(triple_subgroup(&a, &a, &a).len(), 2);
    let id = identity(3);
    assert_eq!(triple_subgroup(&id, &id, &id), trivial(3));
    assert_eq!(
        triple_subgroup(&perm(vec![1, 2, 0]), &perm(vec![1, 0, 2]), &perm(vec![1, 2, 0])),
        elements(3)
    );
}

#[test]
fn subgroups_compare_as_their_subsets() {
    let small = trivial(3);
    let large = elements(3);
    assert_eq!(small.compare(&large), Rank::Before);
    assert_eq!(large.compare(&small), Rank::After);
    assert_eq!(large.compare(&large.clone()), Rank::Same);
    assert_eq!(trivial(2).compare(&trivial(3)), Rank::Before);
    assert!(small < large);
}
