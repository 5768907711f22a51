//! Finite permutation groups: permutations as validated bijections, subsets and
//! subgroups as ordered duplicate-free collections, closure of a generator set
//! under composition, and the enumeration of the subgroups of a symmetric group.

pub mod closure;
pub mod collection;
pub mod counting;
pub mod group;
pub mod mapping;
pub mod order;
pub mod permutation;
pub mod symmetric;
