use galax::layout::{build_children_array, build_leaf_id, build_leaf_ranges, level_ranges};
use galax::morton::morton_key;
use galax::tree::{Node, Tree};

fn quad_tree() -> Tree {
    let keys = vec![morton_key(0, 0), morton_key(0, 0), morton_key(1, 0), morton_key(0, 1), morton_key(1, 1)];
    Tree::build(&keys, 2)
}

#[test]
fn leaf_ids_name_the_leaf_of_every_body() {
    let tree = quad_tree();
    // Leaves [0,2), [2,4), [4,5) under one root.
    assert_eq!(build_leaf_id(&tree), vec![0, 0, 1, 1, 2]);
    assert_eq!(build_leaf_id(&Tree { nodes: vec![], n_max: 1 }), Vec::<u32>::new());
}

#[test]
fn leaf_ranges_only_for_leaves() {
    let tree = quad_tree();
    assert_eq!(build_leaf_ranges(&tree), vec![[0, 2], [2, 4], [4, 5], [0, 0]]);
}

#[test]
fn children_table_uses_minus_one_for_empty_slots() {
    let tree = quad_tree();
    assert_eq!(
        build_children_array(&tree),
        vec![[-1, -1, -1, -1], [-1, -1, -1, -1], [-1, -1, -1, -1], [0, 1, 2, -1]]
    );
}

#[test]
fn level_ranges_span_each_level() {
    let (top, ranges) = level_ranges(&vec![0, 0, 1, 0, 2, 1]);
    assert_eq!(top, 2);
    assert_eq!(ranges, vec![(0, 4), (2, 6), (4, 5)]);
    // A level no node has keeps (n, 0).
    let (top, ranges) = level_ranges(&vec![2, 0]);
    assert_eq!(top, 2);
    assert_eq!(ranges, vec![(1, 2), (2, 0), (0, 1)]);
    let (top, ranges) = level_ranges(&vec![]);
    assert_eq!(top, 0);
    assert_eq!(ranges, vec![(0, 0)]);
}

#[test]
fn overlapping_leaves_later_one_wins() {
    let leaf = |s: usize, e: usize| Node { body_start: s, body_end: e, children: [None; 4], parent: None, is_leaf: true };
    let tree = Tree { nodes: vec![leaf(0, 3), leaf(2, 4), leaf(6, 7)], n_max: 4 };
    assert_eq!(build_leaf_id(&tree), vec![0, 0, 1, 1, 0, 0, 2]);
}

#[test]
fn leaf_table_of_built_tree_matches_leaves() {
    let n = 300u64;
    let keys: Vec<u64> = (0..n).map(|_| morton_key(fastrand::u64(0..1 << 21), fastrand::u64(0..1 << 21))).collect();
    let (tree, _) = Tree::build_sorted(&keys, 7);
    let ids = build_leaf_id(&tree);
    assert_eq!(ids.len(), n as usize);
    for (id, node) in tree.nodes.iter().enumerate() {
        if node.is_leaf {
            for b in node.body_start..node.body_end {
                assert_eq!(ids[b] as usize, id);
            }
        }
    }
}
