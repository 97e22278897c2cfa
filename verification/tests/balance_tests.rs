use galax::balance::{
    build_constrained, build_with_constraints, build_with_splits, coarse_leaf_splits, constrained_leaf_ranges,
    merge_splits, refine_splits, split_leaf_ranges, vec_contains,
};
use galax::morton::morton_key;
use galax::tree::Tree;

#[test]
fn constrained_ranges_cut_at_splits_and_capacity() {
    assert_eq!(constrained_leaf_ranges(10, 4, &vec![]), vec![(0, 4), (4, 8), (8, 10)]);
    assert_eq!(constrained_leaf_ranges(10, 4, &vec![2]), vec![(0, 2), (2, 6), (6, 10)]);
    assert_eq!(constrained_leaf_ranges(10, 4, &vec![7, 3]), vec![(0, 3), (3, 7), (7, 10)]);
    // Split points at 0, at n or beyond the capacity bound do not cut.
    assert_eq!(constrained_leaf_ranges(6, 4, &vec![0, 6]), vec![(0, 4), (4, 6)]);
    assert_eq!(constrained_leaf_ranges(0, 4, &vec![1]), vec![]);
}

#[test]
fn split_ranges_cut_at_first_split_after_start() {
    assert_eq!(split_leaf_ranges(10, 4, &vec![]), vec![(0, 4), (4, 8), (8, 10)]);
    assert_eq!(split_leaf_ranges(10, 4, &vec![2]), vec![(0, 2), (2, 6), (6, 10)]);
    assert_eq!(split_leaf_ranges(10, 4, &vec![9, 1]), vec![(0, 1), (1, 5), (5, 9), (9, 10)]);
    assert_eq!(split_leaf_ranges(3, 8, &vec![3]), vec![(0, 3)]);
}

fn line_keys(n: u64) -> Vec<u64> {
    (0..n).map(|i| morton_key(i, 0)).collect()
}

#[test]
fn forced_splits_make_extra_leaves() {
    let keys = line_keys(8);
    let plain = Tree::build(&keys, 4);
    let leaves = |t: &Tree| -> Vec<(usize, usize)> {
        t.nodes.iter().filter(|n| n.is_leaf).map(|n| (n.body_start, n.body_end)).collect()
    };
    assert_eq!(leaves(&plain), vec![(0, 4), (4, 8)]);
    let split = build_with_constraints(&keys, 4, &vec![2]);
    assert_eq!(leaves(&split), vec![(0, 2), (2, 6), (6, 8)]);
    let split2 = build_with_splits(&keys, 4, &vec![2]);
    assert_eq!(leaves(&split2), vec![(0, 2), (2, 6), (6, 8)]);
    let root = split.nodes[split.len() - 1];
    assert_eq!((root.body_start, root.body_end), (0, 8));
}

#[test]
fn coarse_leaves_are_split_in_the_middle() {
    let keys = line_keys(12);
    let tree = Tree::build(&keys, 4);
    // Leaves 0, 1, 2 hold bodies [0,4), [4,8), [8,12).
    let mut flags = vec![false; tree.len()];
    flags[0] = true;
    flags[2] = true;
    let new_splits = coarse_leaf_splits(&tree, &flags, &vec![]);
    assert_eq!(new_splits, vec![2, 10]);
    // A split point that is already known is not proposed again.
    let again = coarse_leaf_splits(&tree, &flags, &vec![10]);
    assert_eq!(again, vec![2]);
    // A flagged leaf of two bodies cannot be split.
    let small = Tree::build(&line_keys(2), 2);
    let none = coarse_leaf_splits(&small, &vec![true; small.len()], &vec![]);
    assert!(none.is_empty());
}

#[test]
fn merged_splits_are_sorted_and_unique() {
    assert_eq!(merge_splits(&vec![8, 2], &vec![5, 2, 9]), vec![2, 5, 8, 9]);
    assert_eq!(merge_splits(&vec![], &vec![]), Vec::<usize>::new());
    assert!(vec_contains(&vec![3, 1], 1));
    assert!(!vec_contains(&vec![3, 1], 2));
}

#[test]
fn refinement_ends_when_nothing_is_flagged() {
    let keys = line_keys(12);
    let tree = Tree::build(&keys, 4);
    let none = vec![false; tree.len()];
    assert!(refine_splits(&tree, &none, &vec![6]).is_none());
    let mut flags = none.clone();
    flags[1] = true;
    assert_eq!(refine_splits(&tree, &flags, &vec![9]), Some(vec![6, 9]));
}

#[test]
fn balanced_build_sorts_then_refines_until_settled() {
    // Eight bodies on a line, given in reverse order.
    let keys: Vec<u64> = (0..8u64).rev().map(|i| morton_key(i, 0)).collect();
    // Flag every leaf: [0,8) splits at 4, then [0,4) and [4,8) at 2 and 6;
    // leaves of two bodies cannot split, so the third round settles.
    let rounds = std::cell::Cell::new(0usize);
    let (tree, order) = build_constrained(&keys, 8, |t: &Tree, _order: &Vec<usize>| {
        rounds.set(rounds.get() + 1);
        vec![true; t.nodes.len()]
    });
    assert_eq!(order, vec![7, 6, 5, 4, 3, 2, 1, 0]);
    let leaves: Vec<(usize, usize)> =
        tree.nodes.iter().filter(|n| n.is_leaf).map(|n| (n.body_start, n.body_end)).collect();
    assert_eq!(leaves, vec![(0, 2), (2, 4), (4, 6), (6, 8)]);
    assert_eq!(rounds.get(), 3);
    // With nothing flagged the first tree is kept.
    let (plain, order2) = build_constrained(&keys, 3, |t: &Tree, _o: &Vec<usize>| vec![false; t.nodes.len()]);
    let (expected, order3) = Tree::build_sorted(&keys, 3);
    assert_eq!(order2, order3);
    assert_eq!(plain.len(), expected.len());
}
