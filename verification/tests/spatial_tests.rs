use galax::morton::morton_key;
use galax::spatial::SpatialIndex;
use galax::tree::Tree;

/// Four leaves (level 0) under one root (level 1).
fn quad() -> Tree {
    let keys = vec![morton_key(0, 0), morton_key(1, 0), morton_key(0, 1), morton_key(1, 1)];
    Tree::build(&keys, 1)
}

fn block_cells() -> Vec<(i64, i64)> {
    vec![(0, 0), (1, 0), (0, 1), (1, 1), (0, 0)]
}

#[test]
fn lookup_finds_nodes_by_level_and_cell() {
    let tree = quad();
    let index = SpatialIndex::build(&tree, &block_cells());
    assert_eq!(index.lookup(0, 0, 0), Some(0));
    assert_eq!(index.lookup(0, 1, 1), Some(3));
    assert_eq!(index.lookup(1, 0, 0), Some(4));
    assert_eq!(index.lookup(1, 1, 0), None);
    assert_eq!(index.lookup(0, -1, 0), None);
    assert_eq!(index.lookup(2, 0, 0), None);
}

#[test]
fn later_node_replaces_same_key() {
    let tree = quad();
    let cells = vec![(0, 0), (0, 0), (5, 5), (6, 6), (0, 0)];
    let index = SpatialIndex::build(&tree, &cells);
    assert_eq!(index.lookup(0, 0, 0), Some(1));
    assert_eq!(index.lookup(0, 5, 5), Some(2));
}

#[test]
fn neighbors_at_same_level() {
    let tree = quad();
    let index = SpatialIndex::build(&tree, &block_cells());
    // Directions: E, NE, N, NW, W, SW, S, SE.
    let n0 = index.neighbors_of(&tree, 0, 0, 0);
    assert_eq!(n0, [Some(1), Some(3), Some(2), None, None, None, None, None]);
    let n3 = index.neighbors_of(&tree, 3, 1, 1);
    assert_eq!(n3, [None, None, None, None, Some(2), Some(0), Some(1), None]);
}

#[test]
fn neighbors_search_the_next_levels_up() {
    // Leaf 0 at level 0 cell (0, 0); nothing at level 0 east of it, but the
    // level-1 block over cells (2..4, 0..2) holds the root at (2, 0).
    let tree = quad();
    let cells = vec![(0, 0), (9, 9), (0, 1), (8, 8), (2, 0)];
    let index = SpatialIndex::build(&tree, &cells);
    let n0 = index.neighbors_of(&tree, 0, 0, 0);
    assert_eq!(n0[0], Some(4));
    assert_eq!(n0[2], Some(2));
}

#[test]
fn neighbors_fall_back_to_lower_levels() {
    // The root (level 1) at cell (-1, 0): west of it, cell (-2, 0) at level
    // 1 is empty; one level down the coordinate becomes
    // (-2 - 2 + 1) >> 1 = -2, where leaf 2 sits.
    let tree = quad();
    let cells = vec![(5, 5), (6, 6), (-2, 0), (-1, 0), (-1, 0)];
    let index = SpatialIndex::build(&tree, &cells);
    let n = index.neighbors_of(&tree, 4, -1, 0);
    assert_eq!(n[4], Some(2));
    // East of the root, cell (0, 0) at level 1 is empty; one level down
    // cell (0 >> 1, 0 >> 1) = (0, 0) is empty too.
    assert_eq!(n[0], None);
}
