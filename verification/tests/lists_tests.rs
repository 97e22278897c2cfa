use galax::layout::compact_interaction_lists;
use galax::lists::{build_p2p_lists, InteractionLists, LIST_CAPACITY};
use galax::morton::{morton_key, MORTON_BITS};
use galax::order::{permute, sort_indices_by_key};
use galax::tree::{Node, Tree};

fn normalize(x: f64, lo: f64, hi: f64) -> u64 {
    let t = ((x - lo) / (hi - lo)).clamp(0.0, 1.0 - 1e-15);
    (t * (1u64 << MORTON_BITS) as f64) as u64
}

fn build(xs: &mut Vec<f64>, ys: &mut Vec<f64>, n_max: usize, lo: f64, hi: f64) -> Tree {
    let keys: Vec<u64> = xs
        .iter()
        .zip(ys.iter())
        .map(|(&x, &y)| morton_key(normalize(x, lo, hi), normalize(y, lo, hi)))
        .collect();
    let order = sort_indices_by_key(&keys);
    permute(xs, &order);
    permute(ys, &order);
    let mut sorted = keys.clone();
    permute(&mut sorted, &order);
    Tree::build(&sorted, n_max)
}

/// Cell of every node: (center x, center y, half width), leaves from their
/// bodies' bounding box, parents from their children's boxes.
fn geometry(tree: &Tree, xs: &[f64], ys: &[f64]) -> Vec<(f64, f64, f64)> {
    let mut cells: Vec<(f64, f64, f64)> = Vec::with_capacity(tree.nodes.len());
    for node in &tree.nodes {
        if node.is_leaf {
            let (mut x0, mut x1, mut y0, mut y1) = (f64::MAX, f64::MIN, f64::MAX, f64::MIN);
            for i in node.body_start..node.body_end {
                x0 = x0.min(xs[i]);
                x1 = x1.max(xs[i]);
                y0 = y0.min(ys[i]);
                y1 = y1.max(ys[i]);
            }
            cells.push(((x0 + x1) * 0.5, (y0 + y1) * 0.5, (x1 - x0).max(y1 - y0) * 0.5 + 1e-15));
        } else {
            let (mut x0, mut x1, mut y0, mut y1) = (f64::MAX, f64::MIN, f64::MAX, f64::MIN);
            let mut hw_max = 0.0_f64;
            for &c in node.children.iter().flatten() {
                let (cx, cy, hw) = cells[c];
                hw_max = hw_max.max(hw);
                x0 = x0.min(cx - hw);
                x1 = x1.max(cx + hw);
                y0 = y0.min(cy - hw);
                y1 = y1.max(cy + hw);
            }
            cells.push(((x0 + x1) * 0.5, (y0 + y1) * 0.5, hw_max * 2.0));
        }
    }
    cells
}

fn touching(cells: &[(f64, f64, f64)], a: usize, b: usize) -> bool {
    let (ax, ay, ah) = cells[a];
    let (bx, by, bh) = cells[b];
    (ax - bx).abs() <= ah + bh + 1e-15 && (ay - by).abs() <= ah + bh + 1e-15
}

fn random_bodies(n: usize, scale: f64) -> (Vec<f64>, Vec<f64>) {
    let xs = (0..n).map(|_| fastrand::f64() * scale).collect();
    let ys = (0..n).map(|_| fastrand::f64() * scale).collect();
    (xs, ys)
}

#[test]
fn test_interaction_lists_well_separated() {
    let n = 500;
    let (mut xs, mut ys) = random_bodies(n, 100.0);
    let tree = build(&mut xs, &mut ys, 32, 0.0, 100.0);
    let cells = geometry(&tree, &xs, &ys);
    let lists = InteractionLists::build(&tree, |a, b| touching(&cells, a, b));

    for node_id in 0..tree.nodes.len() {
        let node = &tree.nodes[node_id];
        let len = lists.lengths[node_id] as usize;
        for &partner_id_u32 in lists.data[node_id][..len].iter() {
            let partner_id = partner_id_u32 as usize;
            let (nx, ny, nh) = cells[node_id];
            let (px, py, ph) = cells[partner_id];
            let dx = (nx - px).abs();
            let dy = (ny - py).abs();
            let adjacent = dx <= nh + ph + 1e-14 && dy <= nh + ph + 1e-14;
            assert!(!adjacent, "interaction partners should not be adjacent");

            let (qx, qy, qh) = cells[node.parent.unwrap()];
            let (rx, ry, rh) = cells[tree.nodes[partner_id].parent.unwrap()];
            let p_adjacent = (qx - rx).abs() <= qh + rh + 1e-14 && (qy - ry).abs() <= qh + rh + 1e-14;
            assert!(p_adjacent, "parents of interaction partners should be adjacent");
        }
    }
}

#[test]
fn test_interaction_lists_max_size() {
    let n = 2000;
    let (mut xs, mut ys) = random_bodies(n, 100.0);
    let tree = build(&mut xs, &mut ys, 32, 0.0, 100.0);
    let cells = geometry(&tree, &xs, &ys);
    let lists = InteractionLists::build(&tree, |a, b| touching(&cells, a, b));
    for &len in &lists.lengths {
        assert!(len <= 64, "interaction list length {} exceeds 64", len);
    }
    assert_eq!(lists.data.len(), tree.nodes.len());
}

#[test]
fn test_interaction_list_compaction() {
    let n_nodes = 5;
    let mut data = vec![[u32::MAX; 64]; n_nodes];
    let mut lengths = vec![0u8; n_nodes];
    data[0][..3].copy_from_slice(&[1, 2, 3]);
    lengths[0] = 3;
    data[1][..2].copy_from_slice(&[0, 4]);
    lengths[1] = 2;
    data[2][..0].copy_from_slice(&[]);
    lengths[2] = 0;
    data[3][..1].copy_from_slice(&[0]);
    lengths[3] = 1;
    data[4][..1].copy_from_slice(&[1]);
    lengths[4] = 1;
    let lists = InteractionLists { data, lengths };
    let (indices, offsets) = compact_interaction_lists(&lists);
    assert_eq!(&indices[0..3], &[1, 2, 3]);
    assert_eq!(indices, vec![1, 2, 3, 0, 4, 0, 1]);
    assert_eq!(offsets, vec![0, 3, 5, 5, 6, 7]);
}

#[test]
fn compaction_stops_at_first_sentinel() {
    let mut data = vec![[u32::MAX; 64]; 2];
    data[0][0] = 7;
    data[0][2] = 9; // after the sentinel at index 1: not read
    data[1][0] = 5;
    let lists = InteractionLists { data, lengths: vec![3, 1] };
    let (indices, offsets) = compact_interaction_lists(&lists);
    assert_eq!(indices, vec![7, 5]);
    assert_eq!(offsets, vec![0, 1, 2]);
}

/// A hand-made tree: four leaves (0..4) under parent 4, and four leaves
/// (5..9) under parent 9, both parents under root 10.
fn two_quads() -> Tree {
    let leaf = |s: usize, p: usize| Node {
        body_start: s,
        body_end: s + 1,
        children: [None; 4],
        parent: Some(p),
        is_leaf: true,
    };
    let mut nodes = vec![leaf(0, 4), leaf(1, 4), leaf(2, 4), leaf(3, 4)];
    nodes.push(Node {
        body_start: 0,
        body_end: 4,
        children: [Some(0), Some(1), Some(2), Some(3)],
        parent: Some(10),
        is_leaf: false,
    });
    nodes.extend([leaf(4, 9), leaf(5, 9), leaf(6, 9), leaf(7, 9)]);
    nodes.push(Node {
        body_start: 4,
        body_end: 8,
        children: [Some(5), Some(6), Some(7), Some(8)],
        parent: Some(10),
        is_leaf: false,
    });
    nodes.push(Node {
        body_start: 0,
        body_end: 8,
        children: [Some(4), Some(9), None, None],
        parent: None,
        is_leaf: false,
    });
    Tree { nodes, n_max: 1 }
}

#[test]
fn m2l_lists_take_far_children_of_touching_parent_neighbours() {
    let tree = two_quads();
    // Cells on a line: leaves 0..4 at x = 0..3, leaves 5..8 at x = 4..7;
    // two nodes touch when their leaf spans come within one step.
    let span = |id: usize| -> (i64, i64) {
        match id {
            0..=3 => (id as i64, id as i64),
            4 => (0, 3),
            5..=8 => (id as i64 - 1, id as i64 - 1),
            9 => (4, 7),
            _ => (0, 7),
        }
    };
    let touch = |a: usize, b: usize| {
        let (a0, a1) = span(a);
        let (b0, b1) = span(b);
        a0 <= b1 + 1 && b0 <= a1 + 1
    };
    let lists = InteractionLists::build(&tree, touch);
    // Leaf 0 (x = 0): parent 4 touches 9; of 9's children only x = 4 ... 7,
    // none touching x = 0.
    let row0: Vec<u32> = lists.data[0][..lists.lengths[0] as usize].to_vec();
    assert_eq!(row0, vec![5, 6, 7, 8]);
    // Leaf 3 (x = 3) touches leaf 5 (x = 4), which is left out.
    let row3: Vec<u32> = lists.data[3][..lists.lengths[3] as usize].to_vec();
    assert_eq!(row3, vec![6, 7, 8]);
    // Leaf 5 (x = 4) touches leaf 3 (x = 3).
    let row5: Vec<u32> = lists.data[5][..lists.lengths[5] as usize].to_vec();
    assert_eq!(row5, vec![0, 1, 2]);
    // Parents 4 and 9: their parent, the root, has no other node at its level.
    assert_eq!(lists.lengths[4], 0);
    assert_eq!(lists.lengths[9], 0);
    assert_eq!(lists.lengths[10], 0);
    // Unused entries hold the sentinel.
    assert_eq!(lists.data[0][4], u32::MAX);
}

#[test]
fn p2p_lists_hold_self_then_touching_leaves() {
    let tree = two_quads();
    let pos = |id: usize| -> i64 { if id < 4 { id as i64 } else { id as i64 - 1 } };
    let touch = |a: usize, b: usize| (pos(a) - pos(b)).abs() <= 1;
    let lists = build_p2p_lists(&tree, touch);
    let row = |id: usize| lists.data[id][..lists.lengths[id] as usize].to_vec();
    assert_eq!(row(0), vec![0, 1]);
    assert_eq!(row(3), vec![3, 2, 5]);
    assert_eq!(row(5), vec![5, 3, 6]);
    assert_eq!(row(8), vec![8, 7]);
    // Internal nodes list nothing.
    assert_eq!(lists.lengths[4], 0);
    assert_eq!(lists.lengths[9], 0);
    assert_eq!(lists.lengths[10], 0);
    assert_eq!(LIST_CAPACITY, 64);
}

#[test]
fn p2p_lists_cap_at_capacity() {
    // 70 leaves that all touch each other: each row holds itself and the
    // first 63 others.
    let mut nodes: Vec<Node> = (0..70)
        .map(|s| Node { body_start: s, body_end: s + 1, children: [None; 4], parent: None, is_leaf: true })
        .collect();
    nodes.push(Node { body_start: 0, body_end: 70, children: [None; 4], parent: None, is_leaf: false });
    let tree = Tree { nodes, n_max: 1 };
    let lists = build_p2p_lists(&tree, |_, _| true);
    assert_eq!(lists.lengths[10], 64);
    assert_eq!(lists.data[10][0], 10);
    assert_eq!(lists.data[10][1], 0);
    assert_eq!(lists.data[10][10], 9);
    assert_eq!(lists.data[10][11], 11);
    assert_eq!(lists.data[10][63], 63);
}

#[test]
fn p2p_lists_of_random_tree_list_touching_leaves() {
    // Leaves of a random tree: every partner after the row's own leaf is a
    // different leaf whose cell touches it.
    let n = 100;
    let (mut xs, mut ys) = random_bodies(n, 100.0);
    let tree = build(&mut xs, &mut ys, 32, 0.0, 100.0);
    let cells = geometry(&tree, &xs, &ys);
    let lists = build_p2p_lists(&tree, |a, b| touching(&cells, a, b));
    for (id, node) in tree.nodes.iter().enumerate() {
        let len = lists.lengths[id] as usize;
        if node.is_leaf {
            assert!(len >= 1);
            assert_eq!(lists.data[id][0] as usize, id);
            for &p in &lists.data[id][1..len] {
                let p = p as usize;
                assert_ne!(p, id);
                assert!(tree.nodes[p].is_leaf);
                assert!(touching(&cells, id, p));
            }
        } else {
            assert_eq!(len, 0);
        }
    }
}

#[test]
fn p2p_partnership_is_mutual() {
    let n = 400;
    let (mut xs, mut ys) = random_bodies(n, 100.0);
    let tree = build(&mut xs, &mut ys, 16, 0.0, 100.0);
    let cells = geometry(&tree, &xs, &ys);
    let lists = build_p2p_lists(&tree, |a, b| touching(&cells, a, b));
    let row = |id: usize| lists.data[id][..lists.lengths[id] as usize].to_vec();
    for a in 0..tree.nodes.len() {
        let ra = row(a);
        if ra.is_empty() || ra.len() == LIST_CAPACITY {
            continue;
        }
        for &b in &ra[1..] {
            let rb = row(b as usize);
            if rb.len() < LIST_CAPACITY {
                assert!(rb.contains(&(a as u32)), "{} lists {} but not the other way", a, b);
            }
        }
    }
}
