//! Leaf ranges with forced split points, and the split-point refinement
//! that drives the 2:1-balanced tree build.
use vstd::prelude::*;
use crate::tree::{Node, Tree, ranges_tile, morton_hierarchy, max_leaves, MAX_LEAVES};
use crate::order::{keys_in_order, permute, sort_indices_by_key, sorted_between};

verus! {

/// `e` is where a leaf starting at `start` ends: at `n_max` bodies (or at
/// `n`), or earlier at the first forced split point after `start`.
pub open spec fn constrained_end(e: int, start: int, n: int, n_max: int, splits: Seq<usize>) -> bool {
    let bound = if start + n_max < n {
        start + n_max
    } else {
        n
    };
    &&& start < e <= bound
    &&& (e == bound || splits.contains(e as usize))
    &&& forall|q: int| 0 <= q < splits.len() ==> !(start < #[trigger] splits[q] < e)
}

/// `ranges` are the leaf ranges of `[0, n)` with capacity `n_max` and
/// forced split points `splits`.
pub open spec fn constrained_ranges(
    ranges: Seq<(usize, usize)>,
    n: int,
    n_max: int,
    splits: Seq<usize>,
) -> bool {
    &&& ranges_tile(ranges, n)
    &&& forall|i: int|
        0 <= i < ranges.len() ==> constrained_end(
            (#[trigger] ranges[i]).1 as int,
            ranges[i].0 as int,
            n,
            n_max,
            splits,
        )
}

/// Leaf ranges bounded by `n_max` bodies and cut at every split point.
pub fn constrained_leaf_ranges(n: usize, n_max: usize, splits: &Vec<usize>) -> (ranges: Vec<
    (usize, usize),
>)
    requires
        n_max > 0,
        n + n_max <= usize::MAX,
    ensures
        constrained_ranges(ranges@, n as int, n_max as int, splits@),
        ranges.len() <= n,
{
    let mut ranges: Vec<(usize, usize)> = Vec::new();
    let mut range_start: usize = 0;
    while range_start < n
        invariant
            n_max > 0,
            n + n_max <= usize::MAX,
            range_start <= n,
            ranges.len() <= range_start,
            ranges.len() == 0 ==> range_start == 0,
            ranges.len() > 0 ==> ranges@[0].0 == 0 && ranges@[ranges.len() - 1].1 == range_start,
            forall|i: int| 0 <= i < ranges.len() ==> #[trigger] ranges@[i].0 < ranges@[i].1,
            forall|i: int| 0 < i < ranges.len() ==> #[trigger] ranges@[i].0 == ranges@[i - 1].1,
            forall|i: int|
                0 <= i < ranges.len() ==> constrained_end(
                    (#[trigger] ranges@[i]).1 as int,
                    ranges@[i].0 as int,
                    n as int,
                    n_max as int,
                    splits@,
                ),
        decreases n - range_start,
    {
        let n_max_bound: usize = if range_start + n_max < n {
            range_start + n_max
        } else {
            n
        };
        let mut range_end: usize = n_max_bound;
        let mut q: usize = 0;
        while q < splits.len()
            invariant
                range_start < range_end <= n_max_bound,
                n_max_bound <= n,
                range_end == n_max_bound || splits@.contains(range_end),
                q <= splits.len(),
                forall|t: int| 0 <= t < q ==> !(range_start < #[trigger] splits@[t] < range_end),
            decreases splits.len() - q,
        {
            let sp: usize = splits[q];
            if sp > range_start && sp < range_end {
                range_end = sp;
            }
            q = q + 1;
        }
        ranges.push((range_start, range_end));
        range_start = range_end;
    }
    ranges
}

/// Leaf ranges cut at the first split point after each start (never past
/// `n_max` bodies).
pub fn split_leaf_ranges(n: usize, n_max: usize, splits: &Vec<usize>) -> (ranges: Vec<
    (usize, usize),
>)
    requires
        n_max > 0,
        n + n_max <= usize::MAX,
        forall|q: int| 0 <= q < splits.len() ==> #[trigger] splits[q] <= n,
    ensures
        constrained_ranges(ranges@, n as int, n_max as int, splits@),
        ranges.len() <= n,
{
    let mut ranges: Vec<(usize, usize)> = Vec::new();
    let mut range_start: usize = 0;
    while range_start < n
        invariant
            n_max > 0,
            n + n_max <= usize::MAX,
            forall|q: int| 0 <= q < splits.len() ==> #[trigger] splits[q] <= n,
            range_start <= n,
            ranges.len() <= range_start,
            ranges.len() == 0 ==> range_start == 0,
            ranges.len() > 0 ==> ranges@[0].0 == 0 && ranges@[ranges.len() - 1].1 == range_start,
            forall|i: int| 0 <= i < ranges.len() ==> #[trigger] ranges@[i].0 < ranges@[i].1,
            forall|i: int| 0 < i < ranges.len() ==> #[trigger] ranges@[i].0 == ranges@[i - 1].1,
            forall|i: int|
                0 <= i < ranges.len() ==> constrained_end(
                    (#[trigger] ranges@[i]).1 as int,
                    ranges@[i].0 as int,
                    n as int,
                    n_max as int,
                    splits@,
                ),
        decreases n - range_start,
    {
        // least split point after the start, if any
        let mut least: Option<usize> = None;
        let mut q: usize = 0;
        while q < splits.len()
            invariant
                q <= splits.len(),
                forall|t: int| 0 <= t < splits.len() ==> #[trigger] splits@[t] <= n,
                match least {
                    Some(m) => range_start < m && splits@.contains(m) && forall|t: int|
                        0 <= t < q && range_start < #[trigger] splits@[t] ==> m <= splits@[t],
                    None => forall|t: int| 0 <= t < q ==> #[trigger] splits@[t] <= range_start,
                },
            decreases splits.len() - q,
        {
            let sp: usize = splits[q];
            if sp > range_start {
                match least {
                    Some(m) => {
                        if sp < m {
                            least = Some(sp);
                        }
                    },
                    None => {
                        least = Some(sp);
                    },
                }
            }
            q = q + 1;
        }
        let range_end: usize = match least {
            Some(m) => if m < range_start + n_max {
                m
            } else {
                range_start + n_max
            },
            None => if range_start + n_max < n {
                range_start + n_max
            } else {
                n
            },
        };
        ranges.push((range_start, range_end));
        range_start = range_end;
    }
    ranges
}

/// The leaf ranges for capacity `n_max` and split points `splits` are few
/// enough for the tree builder.
pub open spec fn leaves_fit(n: int, n_max: int, splits: Seq<usize>) -> bool {
    forall|ranges: Seq<(usize, usize)>|
        #[trigger] constrained_ranges(ranges, n, n_max, splits) ==> ranges.len() <= max_leaves()
}

/// Builds the tree over bodies with keys `keys` (in their current order),
/// with leaves cut at `n_max` bodies and at every split point.
pub fn build_with_constraints(keys: &Vec<u64>, n_max: usize, splits: &Vec<usize>) -> (tree: Tree)
    requires
        n_max > 0,
        keys.len() + n_max <= usize::MAX,
        leaves_fit(keys.len() as int, n_max as int, splits@),
        forall|k: int| 0 <= k < keys.len() ==> #[trigger] keys[k] < 0x40000000000u64,
    ensures
        tree.n_max == n_max,
        exists|ranges: Seq<(usize, usize)>|
            constrained_ranges(ranges, keys.len() as int, n_max as int, splits@)
                && #[trigger] morton_hierarchy(tree.nodes@, keys@, ranges),
{
    let ranges: Vec<(usize, usize)> = constrained_leaf_ranges(keys.len(), n_max, splits);
    assert(constrained_ranges(ranges@, keys.len() as int, n_max as int, splits@));
    let tree: Tree = Tree::from_leaf_ranges(keys, &ranges, n_max);
    assert(morton_hierarchy(tree.nodes@, keys@, ranges@));
    tree
}

/// Builds the tree with leaves cut at the first split point after each
/// leaf start (and at `n_max` bodies).
pub fn build_with_splits(keys: &Vec<u64>, n_max: usize, splits: &Vec<usize>) -> (tree: Tree)
    requires
        n_max > 0,
        keys.len() + n_max <= usize::MAX,
        leaves_fit(keys.len() as int, n_max as int, splits@),
        forall|q: int| 0 <= q < splits.len() ==> #[trigger] splits[q] <= keys.len(),
        forall|k: int| 0 <= k < keys.len() ==> #[trigger] keys[k] < 0x40000000000u64,
    ensures
        tree.n_max == n_max,
        exists|ranges: Seq<(usize, usize)>|
            constrained_ranges(ranges, keys.len() as int, n_max as int, splits@)
                && #[trigger] morton_hierarchy(tree.nodes@, keys@, ranges),
{
    let ranges: Vec<(usize, usize)> = split_leaf_ranges(keys.len(), n_max, splits);
    assert(constrained_ranges(ranges@, keys.len() as int, n_max as int, splits@));
    let tree: Tree = Tree::from_leaf_ranges(keys, &ranges, n_max);
    assert(morton_hierarchy(tree.nodes@, keys@, ranges@));
    tree
}

/// The split point proposed for a leaf that is too coarse: the middle of
/// its body range, for a leaf of more than two bodies.
pub open spec fn proposed_split(n: Node) -> int {
    (n.body_start + n.body_end) / 2
}

/// `x` is a new split point: the middle of a flagged leaf of more than two
/// bodies that is not a split point yet.
pub open spec fn is_new_split(
    nodes: Seq<Node>,
    too_coarse: Seq<bool>,
    split_points: Seq<usize>,
    x: usize,
) -> bool {
    exists|lid: int| 0 <= lid < nodes.len() && #[trigger] flagged_mid(nodes, too_coarse, lid, x)
        && !split_points.contains(x)
}

/// `x` is the middle of leaf `lid`, which is flagged and holds more than
/// two bodies.
pub open spec fn flagged_mid(nodes: Seq<Node>, too_coarse: Seq<bool>, lid: int, x: usize) -> bool {
    &&& nodes[lid].is_leaf
    &&& too_coarse[lid]
    &&& nodes[lid].body_end - nodes[lid].body_start > 2
    &&& x == proposed_split(nodes[lid])
}

/// The new split points proposed by leaves `0..upto`, in leaf order: the
/// middle of each flagged leaf of more than two bodies, unless it is a
/// split point already or was proposed by an earlier leaf.
pub open spec fn split_seq(
    nodes: Seq<Node>,
    too_coarse: Seq<bool>,
    split_points: Seq<usize>,
    upto: int,
) -> Seq<usize>
    decreases upto,
{
    if upto <= 0 {
        Seq::empty()
    } else {
        let prev = split_seq(nodes, too_coarse, split_points, upto - 1);
        let n = nodes[upto - 1];
        if n.is_leaf && too_coarse[upto - 1] && n.body_end - n.body_start > 2 && !split_points.contains(
            proposed_split(n) as usize,
        ) && !prev.contains(proposed_split(n) as usize) {
            prev.push(proposed_split(n) as usize)
        } else {
            prev
        }
    }
}

/// New split points for the leaves flagged too coarse (each has an
/// adjacent leaf less than half its size): the middle of every flagged
/// leaf of more than two bodies, unless it is already a split point; each
/// point once, in leaf order.
pub fn coarse_leaf_splits(tree: &Tree, too_coarse: &Vec<bool>, split_points: &Vec<usize>) -> (new_splits:
    Vec<usize>)
    requires
        too_coarse.len() == tree.nodes.len(),
        forall|k: int|
            0 <= k < tree.nodes.len() ==> #[trigger] tree.nodes[k].body_start
                <= tree.nodes[k].body_end,
    ensures
        forall|x: usize|
            #[trigger] new_splits@.contains(x) <==> is_new_split(
                tree.nodes@,
                too_coarse@,
                split_points@,
                x,
            ),
        new_splits@.no_duplicates(),
        new_splits@ == split_seq(tree.nodes@, too_coarse@, split_points@, tree.nodes.len() as int),
{
    let mut new_splits: Vec<usize> = Vec::new();
    let n: usize = tree.nodes.len();
    for lid in 0..n
        invariant
            n == tree.nodes.len(),
            too_coarse.len() == n,
            forall|k: int|
                0 <= k < tree.nodes.len() ==> #[trigger] tree.nodes[k].body_start
                    <= tree.nodes[k].body_end,
            new_splits@.no_duplicates(),
            new_splits@ == split_seq(tree.nodes@, too_coarse@, split_points@, lid as int),
            forall|x: usize|
                #[trigger] new_splits@.contains(x) <==> (exists|l: int|
                    0 <= l < lid && #[trigger] flagged_mid(tree.nodes@, too_coarse@, l, x))
                    && !split_points@.contains(x),
    {
        let node: Node = tree.nodes[lid];
        if node.is_leaf && too_coarse[lid] {
            let start: usize = node.body_start;
            let end: usize = node.body_end;
            if end - start > 2 {
                let mid: usize = start + (end - start) / 2;
                assert(mid == proposed_split(node));
                assert(flagged_mid(tree.nodes@, too_coarse@, lid as int, mid));
                if !vec_contains(split_points, mid) && !vec_contains(&new_splits, mid) {
                    let ghost before: Seq<usize> = new_splits@;
                    new_splits.push(mid);
                    proof {
                        assert forall|x: usize| #[trigger] new_splits@.contains(x) <==> (exists|l: int|
                            0 <= l < lid + 1 && #[trigger] flagged_mid(tree.nodes@, too_coarse@, l, x))
                            && !split_points@.contains(x) by {
                            if x == mid {
                                assert(new_splits@[new_splits.len() - 1] == mid);
                            } else {
                                if new_splits@.contains(x) {
                                    let t = choose|t: int|
                                        0 <= t < new_splits.len() && new_splits@[t] == x;
                                    assert(before[t] == x);
                                    assert(before.contains(x));
                                }
                                if before.contains(x) {
                                    let t = choose|t: int| 0 <= t < before.len() && before[t] == x;
                                    assert(new_splits@[t] == x);
                                }
                                if exists|l: int|
                                    0 <= l < lid + 1 && #[trigger] flagged_mid(
                                        tree.nodes@,
                                        too_coarse@,
                                        l,
                                        x,
                                    ) {
                                    let l = choose|l: int|
                                        0 <= l < lid + 1 && #[trigger] flagged_mid(
                                            tree.nodes@,
                                            too_coarse@,
                                            l,
                                            x,
                                        );
                                    assert(l != lid);
                                }
                            }
                        }
                    }
                } else {
                    proof {
                        assert forall|x: usize| #[trigger] new_splits@.contains(x) <==> (exists|l: int|
                            0 <= l < lid + 1 && #[trigger] flagged_mid(tree.nodes@, too_coarse@, l, x))
                            && !split_points@.contains(x) by {
                            if x != mid {
                                if exists|l: int|
                                    0 <= l < lid + 1 && #[trigger] flagged_mid(
                                        tree.nodes@,
                                        too_coarse@,
                                        l,
                                        x,
                                    ) {
                                    let l = choose|l: int|
                                        0 <= l < lid + 1 && #[trigger] flagged_mid(
                                            tree.nodes@,
                                            too_coarse@,
                                            l,
                                            x,
                                        );
                                    assert(l != lid);
                                }
                            }
                        }
                    }
                }
            }
        }
        proof {
            assert forall|x: usize| #[trigger] new_splits@.contains(x) <==> (exists|l: int|
                0 <= l < lid + 1 && #[trigger] flagged_mid(tree.nodes@, too_coarse@, l, x))
                && !split_points@.contains(x) by {
                if !flagged_mid(tree.nodes@, too_coarse@, lid as int, x) {
                    if exists|l: int|
                        0 <= l < lid + 1 && #[trigger] flagged_mid(tree.nodes@, too_coarse@, l, x) {
                        let l = choose|l: int|
                            0 <= l < lid + 1 && #[trigger] flagged_mid(tree.nodes@, too_coarse@, l, x);
                        assert(l != lid);
                    }
                }
            }
        }
    }
    new_splits
}

/// Whether `v` holds `x`.
pub fn vec_contains(v: &Vec<usize>, x: usize) -> (b: bool)
    ensures
        b == v@.contains(x),
{
    let mut q: usize = 0;
    while q < v.len()
        invariant
            q <= v.len(),
            forall|t: int| 0 <= t < q ==> #[trigger] v@[t] != x,
        decreases v.len() - q,
    {
        if v[q] == x {
            assert(v@[q as int] == x);
            return true;
        }
        q = q + 1;
    }
    false
}

/// `s` is strictly increasing.
pub open spec fn strictly_increasing(s: Seq<usize>) -> bool {
    forall|a: int, b: int| 0 <= a < b < s.len() ==> #[trigger] s[a] < #[trigger] s[b]
}

/// Inserts `x` into the strictly increasing `v`, unless it is there.
fn insert_sorted(v: &mut Vec<usize>, x: usize)
    requires
        strictly_increasing(old(v)@),
    ensures
        strictly_increasing(final(v)@),
        forall|y: usize| #[trigger] final(v)@.contains(y) <==> (old(v)@.contains(y) || y == x),
{
    let mut pos: usize = 0;
    while pos < v.len() && v[pos] < x
        invariant
            pos <= v.len(),
            strictly_increasing(v@),
            forall|t: int| 0 <= t < pos ==> #[trigger] v@[t] < x,
        decreases v.len() - pos,
    {
        pos = pos + 1;
    }
    if pos < v.len() && v[pos] == x {
        return;
    }
    let ghost before: Seq<usize> = v@;
    v.insert(pos, x);
    proof {
        assert(v@ == before.insert(pos as int, x));
        assert forall|a: int, b: int| 0 <= a < b < v@.len() implies #[trigger] v@[a] < #[trigger] v@[b] by {
            if b < pos {
            } else if b == pos {
                assert(before[a] < x);
            } else if a < pos {
                assert(before[a] < x);
                assert(pos < before.len());
                assert(x < before[pos as int] || x == before[pos as int]);
                assert(before[pos as int] <= before[b - 1]) by {
                    if pos < b - 1 {
                        assert(before[pos as int] < before[b - 1]);
                    }
                }
            } else if a == pos {
                assert(x <= before[pos as int]);
                assert(x != before[pos as int]);
                if pos < b - 1 {
                    assert(before[pos as int] < before[b - 1]);
                }
            } else {
                assert(before[a - 1] < before[b - 1]);
            }
        }
        assert forall|y: usize| #[trigger] v@.contains(y) <==> (before.contains(y) || y == x) by {
            if v@.contains(y) {
                let t = choose|t: int| 0 <= t < v@.len() && v@[t] == y;
                if t < pos {
                    assert(before[t] == y);
                } else if t > pos {
                    assert(before[t - 1] == y);
                }
            }
            if before.contains(y) {
                let t = choose|t: int| 0 <= t < before.len() && before[t] == y;
                if t < pos {
                    assert(v@[t] == y);
                } else {
                    assert(v@[t + 1] == y);
                }
            }
            if y == x {
                assert(v@[pos as int] == x);
            }
        }
    }
}

/// The split points of the next round: the old and the new ones
/// together, in increasing order, each once.
pub fn merge_splits(split_points: &Vec<usize>, new_splits: &Vec<usize>) -> (merged: Vec<usize>)
    ensures
        strictly_increasing(merged@),
        forall|y: usize|
            #[trigger] merged@.contains(y) <==> (split_points@.contains(y) || new_splits@.contains(y)),
{
    let mut merged: Vec<usize> = Vec::new();
    for q in 0..split_points.len()
        invariant
            strictly_increasing(merged@),
            forall|y: usize|
                #[trigger] merged@.contains(y) <==> exists|t: int|
                    0 <= t < q && #[trigger] split_points@[t] == y,
    {
        let ghost before: Seq<usize> = merged@;
        insert_sorted(&mut merged, split_points[q]);
        proof {
            assert forall|y: usize| #[trigger] merged@.contains(y) <==> exists|t: int|
                0 <= t < q + 1 && #[trigger] split_points@[t] == y by {
                if y == split_points@[q as int] {
                    assert(split_points@[q as int] == y);
                }
                if exists|t: int| 0 <= t < q + 1 && #[trigger] split_points@[t] == y {
                    let t = choose|t: int| 0 <= t < q + 1 && #[trigger] split_points@[t] == y;
                    if t < q {
                        assert(before.contains(y));
                    }
                }
            }
        }
    }
    let ghost after_old: Seq<usize> = merged@;
    for q in 0..new_splits.len()
        invariant
            strictly_increasing(merged@),
            forall|y: usize|
                #[trigger] merged@.contains(y) <==> (after_old.contains(y) || exists|t: int|
                    0 <= t < q && #[trigger] new_splits@[t] == y),
    {
        let ghost before: Seq<usize> = merged@;
        insert_sorted(&mut merged, new_splits[q]);
        proof {
            assert forall|y: usize| #[trigger] merged@.contains(y) <==> (after_old.contains(y)
                || exists|t: int| 0 <= t < q + 1 && #[trigger] new_splits@[t] == y) by {
                if y == new_splits@[q as int] {
                    assert(new_splits@[q as int] == y);
                }
                if exists|t: int| 0 <= t < q + 1 && #[trigger] new_splits@[t] == y {
                    let t = choose|t: int| 0 <= t < q + 1 && #[trigger] new_splits@[t] == y;
                    if t < q {
                        assert(before.contains(y));
                    }
                }
            }
        }
    }
    proof {
        assert forall|y: usize| #[trigger] merged@.contains(y) <==> (split_points@.contains(y)
            || new_splits@.contains(y)) by {
            if split_points@.contains(y) {
                let t = choose|t: int| 0 <= t < split_points.len() && split_points@[t] == y;
                assert(split_points@[t] == y);
            }
            if new_splits@.contains(y) {
                let t = choose|t: int| 0 <= t < new_splits.len() && new_splits@[t] == y;
                assert(new_splits@[t] == y);
            }
        }
    }
    merged
}

/// One round of 2:1 refinement: given the leaves flagged too coarse, the
/// split points for the next build (old and new ones, increasing, each
/// once), or `None` when no flagged leaf yields a new split point and the
/// tree is final.
pub fn refine_splits(tree: &Tree, too_coarse: &Vec<bool>, split_points: &Vec<usize>) -> (next:
    Option<Vec<usize>>)
    requires
        too_coarse.len() == tree.nodes.len(),
        forall|k: int|
            0 <= k < tree.nodes.len() ==> #[trigger] tree.nodes[k].body_start
                <= tree.nodes[k].body_end,
    ensures
        next is None <==> !exists|x: usize|
            #[trigger] is_new_split(tree.nodes@, too_coarse@, split_points@, x),
        next matches Some(v) ==> strictly_increasing(v@) && forall|y: usize|
            #[trigger] v@.contains(y) <==> (split_points@.contains(y) || is_new_split(
                tree.nodes@,
                too_coarse@,
                split_points@,
                y,
            )),
{
    let new_splits: Vec<usize> = coarse_leaf_splits(tree, too_coarse, split_points);
    if new_splits.len() == 0 {
        proof {
            assert forall|x: usize|
                !#[trigger] is_new_split(tree.nodes@, too_coarse@, split_points@, x) by {
                assert(!new_splits@.contains(x));
            }
        }
        None
    } else {
        proof {
            assert(new_splits@.contains(new_splits@[0]));
        }
        Some(merge_splits(split_points, &new_splits))
    }
}

/// Rounds of refinement before the balanced build gives up and builds
/// with the split points found so far.
pub const MAX_REFINE_ROUNDS: usize = 10;

/// `flags_of` can be asked about any tree and body order and answers with
/// one flag per node.
pub open spec fn flags_every_node<F: Fn(&Tree, &Vec<usize>) -> Vec<bool>>(flags_of: F) -> bool {
    &&& forall|t: Tree, o: Vec<usize>| #[trigger] flags_of.requires((&t, &o))
    &&& forall|t: Tree, o: Vec<usize>, r: Vec<bool>|
        #[trigger] flags_of.ensures((&t, &o), r) ==> r.len() == t.nodes.len()
}

/// The tree is built over `keys` with leaves cut at `n_max` bodies and at
/// the split points `splits`.
pub open spec fn built_with(tree: Tree, keys: Seq<u64>, n_max: int, splits: Seq<usize>) -> bool {
    &&& tree.n_max == n_max
    &&& exists|ranges: Seq<(usize, usize)>|
        constrained_ranges(ranges, keys.len() as int, n_max, splits) && #[trigger] morton_hierarchy(
            tree.nodes@,
            keys,
            ranges,
        )
}

/// Some flagged leaf of `nodes` yields a new split point.
pub open spec fn has_new_split(nodes: Seq<Node>, flags: Seq<bool>, splits: Seq<usize>) -> bool {
    exists|x: usize| #[trigger] is_new_split(nodes, flags, splits, x)
}

/// `next` holds the split points `old` and the new ones that the flagged
/// leaves of `nodes` yield, in increasing order, each once.
pub open spec fn next_splits(nodes: Seq<Node>, flags: Seq<bool>, old: Seq<usize>, next: Seq<usize>) -> bool {
    &&& strictly_increasing(next)
    &&& forall|y: usize| #[trigger]
        next.contains(y) <==> (old.contains(y) || is_new_split(nodes, flags, old, y))
}

/// The rounds of the balanced build over the sorted `keys`: round `k`
/// builds `trees[k]` with split points `splits[k]` (none in round 0) and,
/// unless it is the last round after `MAX_REFINE_ROUNDS` refinements, asks
/// `flags_of` about it, getting `flags[k]`. Each round but the last adds
/// new split points; the last adds none, or comes after the round limit,
/// or adds split points that would give more leaves than a tree can hold.
pub open spec fn refinement<F: Fn(&Tree, &Vec<usize>) -> Vec<bool>>(
    keys: Seq<u64>,
    n_max: int,
    flags_of: F,
    order: Vec<usize>,
    trees: Seq<Tree>,
    flags: Seq<Vec<bool>>,
    splits: Seq<Seq<usize>>,
) -> bool {
    let last = trees.len() - 1;
    &&& 1 <= trees.len() <= MAX_REFINE_ROUNDS + 1
    &&& splits.len() == trees.len()
    &&& splits[0] == Seq::<usize>::empty()
    &&& forall|k: int| 0 <= k < trees.len() ==> #[trigger] built_with(trees[k], keys, n_max, splits[k])
    &&& flags.len() <= trees.len()
    &&& forall|k: int| 0 <= k < flags.len() ==> #[trigger] flags_of.ensures((&trees[k], &order), flags[k])
    &&& forall|k: int|
        0 <= k < last ==> k < flags.len() && #[trigger] has_new_split(trees[k].nodes@, flags[k]@, splits[k])
            && next_splits(trees[k].nodes@, flags[k]@, splits[k], splits[k + 1])
    &&& (flags.len() == trees.len() && !has_new_split(trees[last].nodes@, flags[last]@, splits[last]))
        || (last == MAX_REFINE_ROUNDS && flags.len() == last)
        || (flags.len() == trees.len() && has_new_split(trees[last].nodes@, flags[last]@, splits[last])
        && exists|next: Seq<usize>|
        next_splits(trees[last].nodes@, flags[last]@, splits[last], next) && !#[trigger] leaves_fit(
            keys.len() as int,
            n_max,
            next,
        ))
}

/// 2:1-balanced build: sorts the bodies along the Z-order curve, builds
/// the tree over the sorted keys, asks `flags_of` (given the tree and the
/// body order) which leaves are too coarse, splits those in the middle and
/// builds again, until a round yields no new split point or after ten
/// refinements, or until the next split points would give more leaves
/// than a tree can hold (then the last tree built is kept). Returns the
/// final tree and the order (entry `i` is the body that goes to place
/// `i`).
pub fn build_constrained<F: Fn(&Tree, &Vec<usize>) -> Vec<bool>>(
    keys: &Vec<u64>,
    n_max: usize,
    flags_of: F,
) -> (res: (Tree, Vec<usize>))
    requires
        n_max > 0,
        keys.len() + n_max <= usize::MAX,
        keys.len() < usize::MAX / 4,
        leaves_fit(keys.len() as int, n_max as int, Seq::empty()),
        forall|k: int| 0 <= k < keys.len() ==> #[trigger] keys[k] < 0x40000000000u64,
        flags_every_node(flags_of),
    ensures
        res.1.len() == keys.len(),
        res.1@.no_duplicates(),
        forall|x: int| 0 <= x < res.1.len() ==> #[trigger] res.1@[x] < keys.len(),
        sorted_between(keys@, res.1@, 0, keys.len() as int),
        exists|trees: Seq<Tree>, flags: Seq<Vec<bool>>, splits: Seq<Seq<usize>>|
            #[trigger] refinement(
                keys_in_order(keys@, res.1@),
                n_max as int,
                flags_of,
                res.1,
                trees,
                flags,
                splits,
            ) && res.0 == trees[trees.len() - 1],
{
    let order: Vec<usize> = sort_indices_by_key(keys);
    let mut sorted: Vec<u64> = keys.clone();
    permute(&mut sorted, &order);
    let ghost skeys: Seq<u64> = keys_in_order(keys@, order@);
    proof {
        assert(sorted@ =~= skeys);
    }
    let mut split_points: Vec<usize> = Vec::new();
    let mut ranges: Vec<(usize, usize)> = constrained_leaf_ranges(sorted.len(), n_max, &split_points);
    proof {
        assert(split_points@ =~= Seq::<usize>::empty());
        assert(constrained_ranges(ranges@, keys.len() as int, n_max as int, split_points@));
        reveal(leaf_plan);
    }
    let ghost mut trees: Seq<Tree> = Seq::empty();
    let ghost mut flag_seq: Seq<Vec<bool>> = Seq::empty();
    let ghost mut split_seq_: Seq<Seq<usize>> = seq![Seq::<usize>::empty()];
    let mut round: usize = 0;
    proof {
        reveal(rounds_so_far);
    }
    while round < MAX_REFINE_ROUNDS
        invariant
            n_max > 0,
            order.len() == keys.len(),
            order@.no_duplicates(),
            forall|x: int| 0 <= x < order.len() ==> #[trigger] order@[x] < keys.len(),
            sorted_between(keys@, order@, 0, keys.len() as int),
            skeys == keys_in_order(keys@, order@),
            sorted.len() == keys.len(),
            sorted@ == skeys,
            keys.len() + n_max <= usize::MAX,
            leaf_plan(ranges@, keys.len() as int, n_max as int, split_points@),
            forall|k: int| 0 <= k < sorted.len() ==> #[trigger] sorted[k] < 0x40000000000u64,
            flags_every_node(flags_of),
            round <= MAX_REFINE_ROUNDS,
            trees.len() == round,
            split_seq_.len() == round + 1,
            split_seq_[round as int] == split_points@,
            rounds_so_far(skeys, n_max as int, flags_of, order, trees, flag_seq, split_seq_),
        decreases MAX_REFINE_ROUNDS - round,
    {
        let tree: Tree = build_over_ranges(&sorted, &ranges, n_max, Ghost(split_points@));
        let flags: Vec<bool> = flags_of(&tree, &order);
        match refine_splits(&tree, &flags, &split_points) {
            None => {
                proof {
                    lemma_rounds_end(skeys, n_max as int, flags_of, order, trees, flag_seq, split_seq_, tree, flags);
                    assert(refinement(
                        keys_in_order(keys@, order@),
                        n_max as int,
                        flags_of,
                        order,
                        trees.push(tree),
                        flag_seq.push(flags),
                        split_seq_,
                    ));
                    assert(tree == trees.push(tree)[trees.push(tree).len() - 1]);
                }
                return (tree, order);
            },
            Some(next) => {
                proof {
                    let x = choose|x: usize|
                        #[trigger] is_new_split(tree.nodes@, flags@, split_points@, x);
                    assert(has_new_split(tree.nodes@, flags@, split_points@));
                    assert(next_splits(tree.nodes@, flags@, split_points@, next@));
                }
                let fitting: Option<Vec<(usize, usize)>> = fitting_ranges(sorted.len(), n_max, &next);
                if fitting.is_none() {
                    proof {
                        lemma_rounds_end(skeys, n_max as int, flags_of, order, trees, flag_seq, split_seq_, tree, flags);
                    assert(refinement(
                        keys_in_order(keys@, order@),
                        n_max as int,
                        flags_of,
                        order,
                        trees.push(tree),
                        flag_seq.push(flags),
                        split_seq_,
                    ));
                        assert(tree == trees.push(tree)[trees.push(tree).len() - 1]);
                    }
                    return (tree, order);
                }
                proof {
                    lemma_rounds_push(skeys, n_max as int, flags_of, order, trees, flag_seq, split_seq_, tree, flags, next@);
                    trees = trees.push(tree);
                    flag_seq = flag_seq.push(flags);
                    split_seq_ = split_seq_.push(next@);
                }
                split_points = next;
                ranges = fitting.unwrap();
            },
        }
        round = round + 1;
    }
    let tree: Tree = build_over_ranges(&sorted, &ranges, n_max, Ghost(split_points@));
    proof {
        lemma_rounds_limit(skeys, n_max as int, flags_of, order, trees, flag_seq, split_seq_, tree);
        assert(tree == trees.push(tree)[trees.push(tree).len() - 1]);
    }
    (tree, order)
}

/// `ranges` are the leaf ranges for capacity `n_max` and split points
/// `splits`, and a tree can hold that many leaves.
#[verifier::opaque]
spec fn leaf_plan(ranges: Seq<(usize, usize)>, n: int, n_max: int, splits: Seq<usize>) -> bool {
    constrained_ranges(ranges, n, n_max, splits) && ranges.len() <= max_leaves()
}

/// The tree over `keys` with the given leaf ranges, which are those for
/// capacity `n_max` and split points `splits`.
fn build_over_ranges(
    keys: &Vec<u64>,
    ranges: &Vec<(usize, usize)>,
    n_max: usize,
    Ghost(splits): Ghost<Seq<usize>>,
) -> (tree: Tree)
    requires
        leaf_plan(ranges@, keys.len() as int, n_max as int, splits),
        forall|k: int| 0 <= k < keys.len() ==> #[trigger] keys[k] < 0x40000000000u64,
    ensures
        built_with(tree, keys@, n_max as int, splits),
        forall|k: int|
            0 <= k < tree.nodes.len() ==> #[trigger] tree.nodes[k].body_start
                <= tree.nodes[k].body_end,
{
    reveal(leaf_plan);
    let tree: Tree = Tree::from_leaf_ranges(keys, ranges, n_max);
    assert(morton_hierarchy(tree.nodes@, keys@, ranges@));
    assert(forall|k: int| 0 <= k < tree.nodes.len() ==> #[trigger] tree.nodes@[k].body_start
        < tree.nodes@[k].body_end);
    tree
}

/// The leaf ranges for capacity `n_max` and split points `splits`, or
/// `None` when they are more than a tree can hold.
fn fitting_ranges(n: usize, n_max: usize, splits: &Vec<usize>) -> (res: Option<Vec<(usize, usize)>>)
    requires
        n_max > 0,
        n + n_max <= usize::MAX,
    ensures
        res is None ==> !leaves_fit(n as int, n_max as int, splits@),
        res matches Some(r) ==> leaf_plan(r@, n as int, n_max as int, splits@),
{
    reveal(leaf_plan);
    let ranges: Vec<(usize, usize)> = constrained_leaf_ranges(n, n_max, splits);
    proof {
        crate::tree::lemma_max_leaves_value();
    }
    if ranges.len() > MAX_LEAVES {
        None
    } else {
        Some(ranges)
    }
}

/// The rounds of the balanced build so far: round `k` built `trees[k]`
/// with split points `splits[k]`, got `flags[k]` from `flags_of` and found
/// new split points, giving `splits[k + 1]`.
#[verifier::opaque]
pub open spec fn rounds_so_far<F: Fn(&Tree, &Vec<usize>) -> Vec<bool>>(
    keys: Seq<u64>,
    n_max: int,
    flags_of: F,
    order: Vec<usize>,
    trees: Seq<Tree>,
    flags: Seq<Vec<bool>>,
    splits: Seq<Seq<usize>>,
) -> bool {
    &&& splits.len() == trees.len() + 1
    &&& flags.len() == trees.len()
    &&& splits[0] == Seq::<usize>::empty()
    &&& forall|k: int| 0 <= k < trees.len() ==> #[trigger] built_with(trees[k], keys, n_max, splits[k])
    &&& forall|k: int| 0 <= k < trees.len() ==> #[trigger] flags_of.ensures((&trees[k], &order), flags[k])
    &&& forall|k: int|
        0 <= k < trees.len() ==> #[trigger] has_new_split(trees[k].nodes@, flags[k]@, splits[k])
            && next_splits(trees[k].nodes@, flags[k]@, splits[k], splits[k + 1])
}

/// A round that finds new split points extends the rounds so far.
proof fn lemma_rounds_push<F: Fn(&Tree, &Vec<usize>) -> Vec<bool>>(
    keys: Seq<u64>,
    n_max: int,
    flags_of: F,
    order: Vec<usize>,
    trees: Seq<Tree>,
    flags: Seq<Vec<bool>>,
    splits: Seq<Seq<usize>>,
    t: Tree,
    f: Vec<bool>,
    next: Seq<usize>,
)
    requires
        rounds_so_far(keys, n_max, flags_of, order, trees, flags, splits),
        built_with(t, keys, n_max, splits[trees.len() as int]),
        flags_of.ensures((&t, &order), f),
        has_new_split(t.nodes@, f@, splits[trees.len() as int]),
        next_splits(t.nodes@, f@, splits[trees.len() as int], next),
    ensures
        rounds_so_far(keys, n_max, flags_of, order, trees.push(t), flags.push(f), splits.push(next)),
{
    reveal(rounds_so_far);
    let trees2 = trees.push(t);
    let flags2 = flags.push(f);
    let splits2 = splits.push(next);
    assert forall|k: int| 0 <= k < trees2.len() implies #[trigger] built_with(
        trees2[k],
        keys,
        n_max,
        splits2[k],
    ) by {
        if k < trees.len() {
            assert(trees2[k] == trees[k]);
            assert(splits2[k] == splits[k]);
        }
    }
    assert forall|k: int| 0 <= k < trees2.len() implies #[trigger] flags_of.ensures(
        (&trees2[k], &order),
        flags2[k],
    ) by {
        if k < trees.len() {
            assert(trees2[k] == trees[k]);
            assert(flags2[k] == flags[k]);
        }
    }
    assert forall|k: int| 0 <= k < trees2.len() implies #[trigger] has_new_split(
        trees2[k].nodes@,
        flags2[k]@,
        splits2[k],
    ) && next_splits(trees2[k].nodes@, flags2[k]@, splits2[k], splits2[k + 1]) by {
        if k < trees.len() {
            assert(trees2[k] == trees[k]);
            assert(flags2[k] == flags[k]);
            assert(splits2[k] == splits[k]);
            assert(splits2[k + 1] == splits[k + 1]);
            assert(has_new_split(trees[k].nodes@, flags[k]@, splits[k]));
        }
    }
}

/// A round that finds no new split points, or new ones that would give too
/// many leaves, ends the refinement.
proof fn lemma_rounds_end<F: Fn(&Tree, &Vec<usize>) -> Vec<bool>>(
    keys: Seq<u64>,
    n_max: int,
    flags_of: F,
    order: Vec<usize>,
    trees: Seq<Tree>,
    flags: Seq<Vec<bool>>,
    splits: Seq<Seq<usize>>,
    t: Tree,
    f: Vec<bool>,
)
    requires
        rounds_so_far(keys, n_max, flags_of, order, trees, flags, splits),
        trees.len() <= MAX_REFINE_ROUNDS,
        built_with(t, keys, n_max, splits[trees.len() as int]),
        flags_of.ensures((&t, &order), f),
        !has_new_split(t.nodes@, f@, splits[trees.len() as int]) || (has_new_split(
            t.nodes@,
            f@,
            splits[trees.len() as int],
        ) && exists|next: Seq<usize>|
            next_splits(t.nodes@, f@, splits[trees.len() as int], next) && !#[trigger] leaves_fit(
                keys.len() as int,
                n_max,
                next,
            )),
    ensures
        refinement(keys, n_max, flags_of, order, trees.push(t), flags.push(f), splits),
{
    reveal(rounds_so_far);
    let trees2 = trees.push(t);
    let flags2 = flags.push(f);
    assert forall|k: int| 0 <= k < trees2.len() implies #[trigger] built_with(
        trees2[k],
        keys,
        n_max,
        splits[k],
    ) by {
        if k < trees.len() {
            assert(trees2[k] == trees[k]);
        }
    }
    assert forall|k: int| 0 <= k < flags2.len() implies #[trigger] flags_of.ensures(
        (&trees2[k], &order),
        flags2[k],
    ) by {
        if k < trees.len() {
            assert(trees2[k] == trees[k]);
            assert(flags2[k] == flags[k]);
        }
    }
    assert forall|k: int| 0 <= k < trees2.len() - 1 implies k < flags2.len() && #[trigger] has_new_split(
        trees2[k].nodes@,
        flags2[k]@,
        splits[k],
    ) && next_splits(trees2[k].nodes@, flags2[k]@, splits[k], splits[k + 1]) by {
        assert(trees2[k] == trees[k]);
        assert(flags2[k] == flags[k]);
        assert(has_new_split(trees[k].nodes@, flags[k]@, splits[k]));
    }
    let last = trees2.len() - 1;
    assert(trees2[last] == t);
    assert(flags2[last] == f);
    if has_new_split(t.nodes@, f@, splits[trees.len() as int]) {
        let next = choose|next: Seq<usize>|
            next_splits(t.nodes@, f@, splits[trees.len() as int], next) && !#[trigger] leaves_fit(
                keys.len() as int,
                n_max,
                next,
            );
        assert(next_splits(trees2[last].nodes@, flags2[last]@, splits[last], next));
        assert(!leaves_fit(keys.len() as int, n_max, next));
        assert(has_new_split(trees2[last].nodes@, flags2[last]@, splits[last]));
        assert(exists|next: Seq<usize>|
            next_splits(trees2[last].nodes@, flags2[last]@, splits[last], next) && !#[trigger] leaves_fit(
                keys.len() as int,
                n_max,
                next,
            ));
    } else {
        assert(!has_new_split(trees2[last].nodes@, flags2[last]@, splits[last]));
    }
    assert(flags2.len() == trees2.len());
    assert(1 <= trees2.len() <= MAX_REFINE_ROUNDS + 1);
    assert(splits.len() == trees2.len());
    assert(refinement(keys, n_max, flags_of, order, trees2, flags2, splits));
}

/// After the last allowed refinement the final build ends the refinement.
proof fn lemma_rounds_limit<F: Fn(&Tree, &Vec<usize>) -> Vec<bool>>(
    keys: Seq<u64>,
    n_max: int,
    flags_of: F,
    order: Vec<usize>,
    trees: Seq<Tree>,
    flags: Seq<Vec<bool>>,
    splits: Seq<Seq<usize>>,
    t: Tree,
)
    requires
        rounds_so_far(keys, n_max, flags_of, order, trees, flags, splits),
        trees.len() == MAX_REFINE_ROUNDS,
        built_with(t, keys, n_max, splits[trees.len() as int]),
    ensures
        refinement(keys, n_max, flags_of, order, trees.push(t), flags, splits),
{
    reveal(rounds_so_far);
    let trees2 = trees.push(t);
    assert forall|k: int| 0 <= k < trees2.len() implies #[trigger] built_with(
        trees2[k],
        keys,
        n_max,
        splits[k],
    ) by {
        if k < trees.len() {
            assert(trees2[k] == trees[k]);
        }
    }
    assert forall|k: int| 0 <= k < flags.len() implies #[trigger] flags_of.ensures(
        (&trees2[k], &order),
        flags[k],
    ) by {
        assert(trees2[k] == trees[k]);
    }
    assert forall|k: int| 0 <= k < trees2.len() - 1 implies k < flags.len() && #[trigger] has_new_split(
        trees2[k].nodes@,
        flags[k]@,
        splits[k],
    ) && next_splits(trees2[k].nodes@, flags[k]@, splits[k], splits[k + 1]) by {
        assert(trees2[k] == trees[k]);
        assert(has_new_split(trees[k].nodes@, flags[k]@, splits[k]));
    }
}

} // verus!
