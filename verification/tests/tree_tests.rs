use galax::lists::count_leaves;
use galax::morton::{morton_key, MORTON_BITS};
use galax::order::{permute, sort_indices_by_key};
use galax::tree::{compute_levels, leaf_ranges, Tree};

fn normalize(x: f64, lo: f64, hi: f64) -> u64 {
    let t = ((x - lo) / (hi - lo)).clamp(0.0, 1.0 - 1e-15);
    (t * (1u64 << MORTON_BITS) as f64) as u64
}

/// Morton-sorts the bodies and builds the tree over them.
fn build(xs: &mut Vec<f64>, ys: &mut Vec<f64>, n_max: usize, lo: f64, hi: f64) -> (Tree, Vec<u64>) {
    let keys: Vec<u64> = xs
        .iter()
        .zip(ys.iter())
        .map(|(&x, &y)| morton_key(normalize(x, lo, hi), normalize(y, lo, hi)))
        .collect();
    let order = sort_indices_by_key(&keys);
    permute(xs, &order);
    permute(ys, &order);
    let mut sorted = keys.clone();
    permute(&mut sorted, &order);
    (Tree::build(&sorted, n_max), sorted)
}

fn random_bodies(n: usize, scale: f64) -> (Vec<f64>, Vec<f64>) {
    let xs = (0..n).map(|_| fastrand::f64() * scale).collect();
    let ys = (0..n).map(|_| fastrand::f64() * scale).collect();
    (xs, ys)
}

#[test]
fn test_tree_leaves_cover_all_bodies() {
    let n = 500;
    let (mut xs, mut ys) = random_bodies(n, 100.0);
    let n_max = 32;
    let (tree, _) = build(&mut xs, &mut ys, n_max, 0.0, 100.0);

    let leaf_count = tree.nodes.iter().filter(|n| n.is_leaf).count();
    assert!(leaf_count > 0, "should have at least one leaf");

    let all_ranges: Vec<usize> = tree
        .nodes
        .iter()
        .filter(|n| n.is_leaf)
        .flat_map(|n| n.body_start..n.body_end)
        .collect();
    assert_eq!(all_ranges.len(), n, "all bodies should be covered by leaves");
    let mut sorted = all_ranges.clone();
    sorted.sort();
    sorted.dedup();
    assert_eq!(sorted.len(), n);
}

#[test]
fn test_tree_max_leaf_size_obeyed() {
    let n = 1000;
    let (mut xs, mut ys) = random_bodies(n, 100.0);
    let n_max = 64;
    let (tree, _) = build(&mut xs, &mut ys, n_max, 0.0, 100.0);
    for node in &tree.nodes {
        if node.is_leaf {
            let n_bodies = node.body_end - node.body_start;
            assert!(n_bodies <= n_max, "leaf has {} bodies, exceeds n_max={}", n_bodies, n_max);
        }
    }
}

/// Cell of every node: (center x, center y, half width), leaves from their
/// bodies' bounding box, parents from their children's boxes.
fn geometry(tree: &Tree, xs: &[f64], ys: &[f64]) -> Vec<(f64, f64, f64)> {
    let mut cells: Vec<(f64, f64, f64)> = Vec::with_capacity(tree.nodes.len());
    for node in &tree.nodes {
        let (mut x0, mut x1, mut y0, mut y1) = (f64::MAX, f64::MIN, f64::MAX, f64::MIN);
        if node.is_leaf {
            for i in node.body_start..node.body_end {
                x0 = x0.min(xs[i]);
                x1 = x1.max(xs[i]);
                y0 = y0.min(ys[i]);
                y1 = y1.max(ys[i]);
            }
            cells.push(((x0 + x1) * 0.5, (y0 + y1) * 0.5, (x1 - x0).max(y1 - y0) * 0.5 + 1e-15));
        } else {
            let mut hw_max = 0.0_f64;
            for &c in node.children.iter().flatten() {
                let (cx, cy, hw) = cells[c];
                hw_max = hw_max.max(hw);
                x0 = x0.min(cx - hw);
                x1 = x1.max(cx + hw);
                y0 = y0.min(cy - hw);
                y1 = y1.max(cy + hw);
            }
            cells.push(((x0 + x1) * 0.5, (y0 + y1) * 0.5, hw_max * 2.0));
        }
    }
    cells
}

#[test]
fn test_tree_parent_covers_children() {
    let n = 500;
    let (mut xs, mut ys) = random_bodies(n, 100.0);
    let (tree, _) = build(&mut xs, &mut ys, 32, 0.0, 100.0);
    let cells = geometry(&tree, &xs, &ys);
    for (id, node) in tree.nodes.iter().enumerate() {
        if !node.is_leaf {
            for &child_idx in node.children.iter().flatten() {
                let child = &tree.nodes[child_idx];
                assert!(node.body_start <= child.body_start, "parent start > child start");
                assert!(node.body_end >= child.body_end, "parent end < child end");
                let (cx, cy, hw) = cells[id];
                let (kx, ky, khw) = cells[child_idx];
                assert!((kx - cx).abs() + khw <= hw + 1e-12, "child x outside parent bounds");
                assert!((ky - cy).abs() + khw <= hw + 1e-12, "child y outside parent bounds");
            }
        }
    }
}

#[test]
fn test_tree_single_body() {
    let mut xs = vec![0.5];
    let mut ys = vec![0.5];
    let (tree, _) = build(&mut xs, &mut ys, 32, 0.0, 1.0);
    assert_eq!(tree.nodes.len(), 1, "single body should produce one node");
    assert!(tree.nodes[0].is_leaf, "single node should be leaf");
    assert_eq!(tree.nodes[0].body_end - tree.nodes[0].body_start, 1);
}

#[test]
fn empty_input_builds_empty_tree() {
    let tree = Tree::build(&Vec::new(), 8);
    assert_eq!(tree.len(), 0);
    assert_eq!(tree.n_max, 8);
}

#[test]
fn leaf_ranges_are_chunks_of_n_max() {
    assert_eq!(leaf_ranges(10, 4), vec![(0, 4), (4, 8), (8, 10)]);
    assert_eq!(leaf_ranges(8, 4), vec![(0, 4), (4, 8)]);
    assert_eq!(leaf_ranges(3, 4), vec![(0, 3)]);
    assert_eq!(leaf_ranges(0, 4), vec![]);
}

#[test]
fn four_quadrant_bodies_group_under_one_root() {
    // One body in each quadrant cell of a 2x2 grid: four leaves, one root.
    let keys = vec![morton_key(0, 0), morton_key(1, 0), morton_key(0, 1), morton_key(1, 1)];
    let tree = Tree::build(&keys, 1);
    assert_eq!(tree.len(), 5);
    for id in 0..4 {
        assert!(tree.nodes[id].is_leaf);
        assert_eq!(tree.nodes[id].parent, Some(4));
        assert_eq!((tree.nodes[id].body_start, tree.nodes[id].body_end), (id, id + 1));
    }
    let root = tree.nodes[4];
    assert!(!root.is_leaf);
    assert_eq!(root.children, [Some(0), Some(1), Some(2), Some(3)]);
    assert_eq!((root.body_start, root.body_end), (0, 4));
    assert_eq!(root.parent, None);
    assert_eq!(tree.depth(), 1);
    assert_eq!(compute_levels(&tree), vec![0, 0, 0, 0, 1]);
    assert_eq!(count_leaves(&tree), 4);
}

#[test]
fn distant_groups_get_separate_parents() {
    // Two bodies near the origin and two in the far corner: the pairs are
    // grouped under their own parents, which meet in the root.
    let far = (1u64 << 21) - 1;
    let keys = vec![
        morton_key(0, 0),
        morton_key(1, 0),
        morton_key(far - 1, far),
        morton_key(far, far),
    ];
    let tree = Tree::build(&keys, 1);
    let root = tree.nodes[tree.len() - 1];
    assert_eq!((root.body_start, root.body_end), (0, 4));
    assert!(tree.nodes[0].parent.is_some());
    assert_eq!(tree.nodes[0].parent, tree.nodes[1].parent);
    assert_eq!(tree.nodes[2].parent, tree.nodes[3].parent);
    assert_ne!(tree.nodes[0].parent, tree.nodes[2].parent);
    let levels = compute_levels(&tree);
    assert_eq!(levels[tree.len() - 1] as usize, tree.depth());
    for (id, node) in tree.nodes.iter().enumerate() {
        for &c in node.children.iter().flatten() {
            assert!(c < id, "children come before their parent");
            assert!(levels[c] < levels[id]);
        }
    }
}

#[test]
fn depth_follows_first_children() {
    let n = 300;
    let (mut xs, mut ys) = random_bodies(n, 10.0);
    let (tree, _) = build(&mut xs, &mut ys, 4, 0.0, 10.0);
    let mut d = 0;
    let mut idx = tree.nodes.len() - 1;
    while !tree.nodes[idx].is_leaf {
        match tree.nodes[idx].children.iter().flatten().next() {
            Some(&c) => {
                idx = c;
                d += 1;
            }
            None => break,
        }
    }
    assert_eq!(tree.depth(), d);
    assert!(d >= 1);
}

#[test]
fn build_sorted_orders_bodies_by_key() {
    let keys = vec![9u64, 3, 3, 0, 12];
    let (tree, order) = Tree::build_sorted(&keys, 2);
    assert_eq!(order, vec![3, 1, 2, 0, 4]);
    let leaves: Vec<(usize, usize)> =
        tree.nodes.iter().filter(|n| n.is_leaf).map(|n| (n.body_start, n.body_end)).collect();
    assert_eq!(leaves, vec![(0, 2), (2, 4), (4, 5)]);
    let root = tree.nodes[tree.len() - 1];
    assert_eq!((root.body_start, root.body_end), (0, 5));
}
