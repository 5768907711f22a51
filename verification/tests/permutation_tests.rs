use subgroup_calculator::order::Rank;
use subgroup_calculator::permutation::{
    composition, identity, invert, make_permutation, Permutation,
};

fn perm(images: Vec<usize>) -> Permutation {
    make_permutation(images).unwrap()
}

#[test]
fn a_swap_is_a_permutation() {
    let p = make_permutation(vec![1, 0]);
    assert!(p.is_some());
    assert_eq!(p.unwrap().images(), vec![1, 0]);
}

#[test]
fn a_repeated_symbol_is_turned_down() {
    assert!(make_permutation(vec![0, 0]).is_none());
}

#[test]
fn a_missing_symbol_is_turned_down() {
    assert!(make_permutation(vec![1, 2]).is_none());
}

#[test]
fn a_symbol_out_of_range_is_turned_down() {
    assert!(make_permutation(vec![0, 1, 3]).is_none());
    assert!(make_permutation(vec![5]).is_none());
    assert!(make_permutation(vec![usize::MAX, 0]).is_none());
}

#[test]
fn a_late_repeat_is_turned_down() {
    assert!(make_permutation(vec![0, 1, 2, 1]).is_none());
    assert!(make_permutation(vec![2, 2, 2]).is_none());
}

#[test]
fn the_empty_mapping_is_the_permutation_of_degree_zero() {
    let p = make_permutation(vec![]).unwrap();
    assert_eq!(p.degree(), 0);
    assert_eq!(p, identity(0));
}

#[test]
fn every_arrangement_of_three_symbols_is_accepted() {
    let all = [
        vec![0, 1, 2],
        vec![0, 2, 1],
        vec![1, 0, 2],
        vec![1, 2, 0],
        vec![2, 0, 1],
        vec![2, 1, 0],
    ];
    for images in all.iter() {
        let p = make_permutation(images.clone()).unwrap();
        assert_eq!(&p.images(), images);
        assert_eq!(p.degree(), 3);
    }
}

#[test]
fn identity_moves_nothing() {
    let id = identity(4);
    assert_eq!(id.images(), vec![0, 1, 2, 3]);
    assert_eq!(id.degree(), 4);
    assert_eq!(id.image(2), 2);
    assert_eq!(identity(1).images(), vec![0]);
}

#[test]
fn composition_applies_the_right_factor_first() {
    let g = perm(vec![1, 2, 0]);
    let h = perm(vec![1, 0, 2]);
    assert_eq!(composition(&g, &h).images(), vec![2, 1, 0]);
    assert_eq!(composition(&h, &g).images(), vec![0, 2, 1]);
}

#[test]
fn invert_sends_each_image_back() {
    assert_eq!(invert(&perm(vec![1, 2, 0])).images(), vec![2, 0, 1]);
    assert_eq!(invert(&perm(vec![2, 0, 3, 1])).images(), vec![1, 3, 0, 2]);
    assert_eq!(invert(&perm(vec![1, 0])).images(), vec![1, 0]);
    assert_eq!(invert(&identity(3)), identity(3));
}

#[test]
fn a_permutation_times_its_inverse_is_the_identity() {
    let samples = [vec![1, 2, 0], vec![2, 0, 3, 1], vec![0], vec![4, 3, 2, 1, 0], vec![1, 0, 3, 2]];
    for images in samples.iter() {
        let g = perm(images.clone());
        let n = g.degree();
        assert_eq!(composition(&g, &invert(&g)), identity(n));
        assert_eq!(composition(&invert(&g), &g), identity(n));
    }
}

#[test]
fn the_identity_is_neutral() {
    let samples = [vec![1, 2, 0], vec![2, 0, 3, 1], vec![0], vec![3, 1, 0, 2]];
    for images in samples.iter() {
        let g = perm(images.clone());
        let id = identity(g.degree());
        assert_eq!(composition(&id, &g), g);
        assert_eq!(composition(&g, &id), g);
    }
}

#[test]
fn composition_is_associative() {
    let a = perm(vec![1, 2, 3, 0]);
    let b = perm(vec![1, 0, 2, 3]);
    let c = perm(vec![3, 0, 1, 2]);
    let left = composition(&composition(&a, &b), &c);
    let right = composition(&a, &composition(&b, &c));
    assert_eq!(left, right);
    assert_eq!(left.images(), vec![0, 2, 1, 3]);
}

#[test]
fn inverting_twice_gives_the_permutation_back() {
    let g = perm(vec![2, 0, 3, 1]);
    assert_eq!(invert(&invert(&g)), g);
}

#[test]
fn the_inverse_of_a_product_is_the_reversed_product_of_inverses() {
    let g = perm(vec![1, 2, 0]);
    let h = perm(vec![1, 0, 2]);
    assert_eq!(invert(&composition(&g, &h)), composition(&invert(&h), &invert(&g)));
}

#[test]
fn permutations_compare_by_their_images() {
    let low = perm(vec![0, 2, 1]);
    let high = perm(vec![1, 0, 2]);
    assert_eq!(low.compare(&high), Rank::Before);
    assert_eq!(high.compare(&low), Rank::After);
    assert_eq!(low.compare(&low.clone()), Rank::Same);
    assert_eq!(perm(vec![0, 1, 2]).compare(&perm(vec![0, 2, 1])), Rank::Before);
}

#[test]
fn a_shorter_permutation_that_is_a_prefix_comes_first() {
    let short = perm(vec![0, 1]);
    let long = perm(vec![0, 1, 2]);
    assert_eq!(short.compare(&long), Rank::Before);
    assert_eq!(long.compare(&short), Rank::After);
    assert_eq!(perm(vec![1, 0]).compare(&long), Rank::After);
    assert_eq!(identity(0).compare(&identity(1)), Rank::Before);
}

#[test]
fn compare_agrees_with_the_operators() {
    let a = perm(vec![0, 2, 1]);
    let b = perm(vec![1, 0, 2]);
    assert!(a < b);
    assert!(a != b);
    assert!(a == a.clone());
}

#[test]
fn a_clone_is_equal() {
    let g = perm(vec![3, 1, 0, 2]);
    let copy = g.clone();
    assert_eq!(copy, g);
    assert_eq!(copy.images(), vec![3, 1, 0, 2]);
}
