//! Flat, index-based layouts of the tree and its interaction lists, in the
//! shape the compute kernels read them: compacted partner lists with
//! offsets, the leaf of every body, leaf body ranges, child tables and the
//! id range of every level.
use vstd::prelude::*;
use crate::lists::InteractionLists;
use crate::tree::{
    Node,
    Tree,
    law_leaves_cover_bodies,
    law_leaves_partition_bodies,
    morton_hierarchy,
    ranges_tile,
};

verus! {

/// The partners listed in a row: its first `k` entries, cut before the
/// first `u32::MAX`.
pub open spec fn listed(row: [u32; 64], k: int) -> Seq<u32>
    decreases k,
{
    if k <= 0 {
        Seq::empty()
    } else {
        let prev = listed(row, k - 1);
        if prev.len() == k - 1 && row[k - 1] != u32::MAX {
            prev.push(row[k - 1])
        } else {
            prev
        }
    }
}

/// The listed partners of rows `0..upto`, one row after the other.
pub open spec fn compacted(data: Seq<[u32; 64]>, lengths: Seq<u8>, upto: int) -> Seq<u32>
    decreases upto,
{
    if upto <= 0 {
        Seq::empty()
    } else {
        compacted(data, lengths, upto - 1) + listed(data[upto - 1], lengths[upto - 1] as int)
    }
}

/// A listed prefix never grows past its argument.
proof fn lemma_listed_len(row: [u32; 64], k: int)
    ensures
        listed(row, k).len() <= if k < 0 { 0 } else { k },
    decreases k,
{
    if k > 0 {
        lemma_listed_len(row, k - 1);
    }
}

/// Once a row is cut at `k`, reading further adds nothing.
proof fn lemma_listed_stops(row: [u32; 64], k: int, j: int)
    requires
        0 <= k <= j,
        listed(row, k).len() == k,
        k < 64 && row[k] == u32::MAX || k == j,
    ensures
        listed(row, j) == listed(row, k),
    decreases j - k,
{
    if j > k {
        lemma_listed_stops(row, k, j - 1);
        lemma_listed_len(row, j - 1);
        if j - 1 == k {
            assert(row[j - 1] == u32::MAX);
        } else {
            assert(listed(row, j - 1).len() == k);
        }
    }
}

/// A row read up to a point before its first `u32::MAX` lists exactly its
/// entries so far.
proof fn lemma_listed_prefix(row: [u32; 64], k: int)
    requires
        0 <= k <= 64,
        forall|j: int| 0 <= j < k ==> row[j] != u32::MAX,
    ensures
        listed(row, k).len() == k,
        forall|j: int| 0 <= j < k ==> #[trigger] listed(row, k)[j] == row[j],
    decreases k,
{
    if k > 0 {
        lemma_listed_prefix(row, k - 1);
    }
}

/// The listed partners of rows `0..v` come first in those of rows `0..upto`.
proof fn lemma_compacted_prefix(data: Seq<[u32; 64]>, lengths: Seq<u8>, v: int, upto: int)
    requires
        0 <= v <= upto,
    ensures
        compacted(data, lengths, v).len() <= compacted(data, lengths, upto).len(),
        forall|j: int|
            0 <= j < compacted(data, lengths, v).len() ==> #[trigger] compacted(data, lengths, upto)[j]
                == compacted(data, lengths, v)[j],
    decreases upto - v,
{
    if upto > v {
        lemma_compacted_prefix(data, lengths, v, upto - 1);
    }
}

/// Node `v`'s run in the compacted lists, from offset
/// `compacted(.., v).len()` to offset `compacted(.., v + 1).len()`, is its
/// row's first `m` entries, every one of them and in row order, where `m`
/// is the row's length or, if earlier, the place of its first `u32::MAX`.
pub proof fn law_compacted_run_is_row(
    data: Seq<[u32; 64]>,
    lengths: Seq<u8>,
    upto: int,
    v: int,
    m: int,
)
    requires
        0 <= v < upto <= lengths.len(),
        upto <= data.len(),
        lengths[v] <= 64,
        0 <= m <= lengths[v],
        forall|j: int| 0 <= j < m ==> data[v][j] != u32::MAX,
        m == lengths[v] || data[v][m] == u32::MAX,
    ensures
        compacted(data, lengths, v + 1).len() == compacted(data, lengths, v).len() + m,
        compacted(data, lengths, v + 1).len() <= compacted(data, lengths, upto).len(),
        forall|j: int|
            0 <= j < m ==> #[trigger] compacted(data, lengths, upto)[compacted(data, lengths, v).len()
                + j] == data[v][j],
{
    let row = data[v];
    lemma_listed_prefix(row, m);
    lemma_listed_stops(row, m, lengths[v] as int);
    lemma_compacted_prefix(data, lengths, v + 1, upto);
    let before = compacted(data, lengths, v);
    let after = compacted(data, lengths, v + 1);
    assert(after == before + listed(row, lengths[v] as int));
    assert forall|j: int| 0 <= j < m implies #[trigger] compacted(data, lengths, upto)[before.len()
        + j] == data[v][j] by {
        assert(after[before.len() + j] == listed(row, m)[j]);
    }
}

/// Compacts interaction lists into one array of partners and the offset of
/// every node's run in it: node `v`'s partners are
/// `indices[offsets[v]..offsets[v + 1]]`. A row stops at its length or at
/// its first `u32::MAX`, whichever comes first.
pub fn compact_interaction_lists(lists: &InteractionLists) -> (res: (Vec<u32>, Vec<u32>))
    requires
        lists.data.len() >= lists.lengths.len(),
        forall|v: int| 0 <= v < lists.lengths.len() ==> #[trigger] lists.lengths@[v] <= 64,
    ensures
        res.0@ == compacted(lists.data@, lists.lengths@, lists.lengths.len() as int),
        res.1.len() == lists.lengths.len() + 1,
        forall|v: int|
            0 <= v <= lists.lengths.len() ==> #[trigger] res.1@[v] == (compacted(
                lists.data@,
                lists.lengths@,
                v,
            ).len() as u32),
{
    let n_nodes: usize = lists.lengths.len();
    let mut offsets: Vec<u32> = Vec::new();
    let mut indices: Vec<u32> = Vec::new();
    offsets.push(0u32);
    for node in 0..n_nodes
        invariant
            n_nodes == lists.lengths.len(),
            lists.data.len() >= n_nodes,
            forall|v: int| 0 <= v < n_nodes ==> #[trigger] lists.lengths@[v] <= 64,
            indices@ == compacted(lists.data@, lists.lengths@, node as int),
            offsets.len() == node + 1,
            forall|v: int|
                0 <= v <= node ==> #[trigger] offsets@[v] == (compacted(
                    lists.data@,
                    lists.lengths@,
                    v,
                ).len() as u32),
    {
        let len: usize = lists.lengths[node] as usize;
        let row: [u32; 64] = lists.data[node];
        let ghost before: Seq<u32> = indices@;
        let mut k: usize = 0;
        while k < len && row[k] != u32::MAX
            invariant
                len <= 64,
                row == lists.data@[node as int],
                k <= len,
                listed(row, k as int).len() == k,
                indices@ == before + listed(row, k as int),
            decreases len - k,
        {
            indices.push(row[k]);
            k = k + 1;
        }
        proof {
            lemma_listed_stops(row, k as int, len as int);
            assert(compacted(lists.data@, lists.lengths@, node + 1) == before + listed(
                row,
                len as int,
            ));
        }
        offsets.push(indices.len() as u32);
    }
    (indices, offsets)
}

/// The last leaf among nodes `0..upto` whose body range holds body `i`.
pub open spec fn owner(nodes: Seq<Node>, i: int, upto: int) -> Option<int>
    decreases upto,
{
    if upto <= 0 {
        None
    } else if nodes[upto - 1].is_leaf && nodes[upto - 1].body_start <= i < nodes[upto - 1].body_end {
        Some(upto - 1)
    } else {
        owner(nodes, i, upto - 1)
    }
}

/// Leaf id recorded for body `i`: its owning leaf, 0 when it has none.
pub open spec fn leaf_of(nodes: Seq<Node>, i: int) -> u32 {
    match owner(nodes, i, nodes.len() as int) {
        Some(id) => id as u32,
        None => 0,
    }
}

/// Largest body end over the leaves among nodes `0..upto` (0 when none).
pub open spec fn leaf_extent(nodes: Seq<Node>, upto: int) -> int
    decreases upto,
{
    if upto <= 0 {
        0
    } else if nodes[upto - 1].is_leaf && nodes[upto - 1].body_end > leaf_extent(nodes, upto - 1) {
        nodes[upto - 1].body_end as int
    } else {
        leaf_extent(nodes, upto - 1)
    }
}

/// Body ends never pass the extent.
proof fn lemma_extent_bounds(nodes: Seq<Node>, upto: int, q: int)
    requires
        0 <= q < upto <= nodes.len(),
        nodes[q].is_leaf,
    ensures
        nodes[q].body_end <= leaf_extent(nodes, upto),
    decreases upto,
{
    if q < upto - 1 {
        lemma_extent_bounds(nodes, upto - 1, q);
    }
}

/// The extent is at least 0 and at most some body end.
proof fn lemma_extent_nonneg(nodes: Seq<Node>, upto: int)
    ensures
        0 <= leaf_extent(nodes, upto) <= usize::MAX,
    decreases upto,
{
    if upto > 0 {
        lemma_extent_nonneg(nodes, upto - 1);
    }
}

/// For every body, the id of the leaf that holds it: as many entries as
/// the largest leaf body end; where leaves overlap, the later leaf wins.
pub fn build_leaf_id(tree: &Tree) -> (leaf_id: Vec<u32>)
    ensures
        leaf_id.len() == leaf_extent(tree.nodes@, tree.nodes.len() as int),
        forall|i: int| 0 <= i < leaf_id.len() ==> #[trigger] leaf_id@[i] == leaf_of(tree.nodes@, i),
{
    let ghost nodes: Seq<Node> = tree.nodes@;
    let mut n: usize = 0;
    for id in 0..tree.nodes.len()
        invariant
            nodes == tree.nodes@,
            n == leaf_extent(nodes, id as int),
    {
        if tree.nodes[id].is_leaf && tree.nodes[id].body_end > n {
            n = tree.nodes[id].body_end;
        }
    }
    let mut leaf_id: Vec<u32> = Vec::new();
    for z in 0..n
        invariant
            leaf_id.len() == z,
            forall|i: int| 0 <= i < z ==> #[trigger] leaf_id@[i] == 0,
    {
        leaf_id.push(0);
    }
    for node_id in 0..tree.nodes.len()
        invariant
            nodes == tree.nodes@,
            n == leaf_extent(nodes, nodes.len() as int),
            leaf_id.len() == n,
            forall|i: int|
                0 <= i < n ==> #[trigger] leaf_id@[i] == match owner(nodes, i, node_id as int) {
                    Some(id) => id as u32,
                    None => 0,
                },
    {
        let node: Node = tree.nodes[node_id];
        if node.is_leaf {
            proof {
                lemma_extent_bounds(nodes, nodes.len() as int, node_id as int);
            }
            let mut i: usize = node.body_start;
            while i < node.body_end
                invariant
                    nodes == tree.nodes@,
                    node == nodes[node_id as int],
                    node.is_leaf,
                    node.body_end <= n,
                    node.body_start <= i,
                    i <= node.body_end || i == node.body_start,
                    n == leaf_extent(nodes, nodes.len() as int),
                    leaf_id.len() == n,
                    forall|q: int|
                        0 <= q < n ==> #[trigger] leaf_id@[q] == if node.body_start <= q < i {
                            node_id as u32
                        } else {
                            match owner(nodes, q, node_id as int) {
                                Some(id) => id as u32,
                                None => 0,
                            }
                        },
                decreases node.body_end - i,
            {
                leaf_id.set(i, node_id as u32);
                i = i + 1;
            }
        }
        proof {
            assert forall|q: int| 0 <= q < n implies #[trigger] leaf_id@[q] == match owner(
                nodes,
                q,
                node_id + 1,
            ) {
                Some(id) => id as u32,
                None => 0,
            } by {
                assert(owner(nodes, q, node_id + 1) == if node.is_leaf && node.body_start <= q
                    < node.body_end {
                    Some(node_id as int)
                } else {
                    owner(nodes, q, node_id as int)
                });
            }
        }
    }
    leaf_id
}

/// No leaf among nodes `lo..upto` holds body `b`, so the owner found up
/// to `upto` is the one found up to `lo`.
proof fn lemma_owner_skips(nodes: Seq<Node>, b: int, lo: int, upto: int)
    requires
        0 <= lo <= upto,
        forall|q: int|
            lo <= q < upto && (#[trigger] nodes[q]).is_leaf ==> !(nodes[q].body_start <= b
                < nodes[q].body_end),
    ensures
        owner(nodes, b, upto) == owner(nodes, b, lo),
    decreases upto - lo,
{
    if upto > lo {
        lemma_owner_skips(nodes, b, lo, upto - 1);
    }
}

/// In a Morton tree every body has exactly one leaf, and the leaf table
/// names it.
pub proof fn law_leaf_id_names_the_leaf(
    nodes: Seq<Node>,
    keys: Seq<u64>,
    ranges: Seq<(usize, usize)>,
    b: int,
) -> (leaf: int)
    requires
        morton_hierarchy(nodes, keys, ranges),
        ranges_tile(ranges, keys.len() as int),
        0 <= b < keys.len(),
    ensures
        0 <= leaf < ranges.len(),
        nodes[leaf].is_leaf,
        nodes[leaf].body_start <= b < nodes[leaf].body_end,
        owner(nodes, b, nodes.len() as int) == Some(leaf),
        leaf_of(nodes, b) == leaf as u32,
{
    let leaf = law_leaves_cover_bodies(nodes, keys, ranges, b);
    let nl = ranges.len() as int;
    assert forall|q: int|
        leaf + 1 <= q < nodes.len() && (#[trigger] nodes[q]).is_leaf implies !(nodes[q].body_start
        <= b < nodes[q].body_end) by {
        if q < nl {
            law_leaves_partition_bodies(nodes, keys, ranges, leaf, q);
        } else {
            assert(crate::tree::parent_ok(nodes, keys, nl, q));
            reveal(crate::tree::parent_ok);
        }
    }
    lemma_owner_skips(nodes, b, leaf + 1, nodes.len() as int);
    leaf
}

/// Body range of every node as `[start, end]`: that of the node for a
/// leaf, `[0, 0]` for any other node.
pub fn build_leaf_ranges(tree: &Tree) -> (ranges: Vec<[u32; 2]>)
    ensures
        ranges.len() == tree.nodes.len(),
        forall|id: int|
            0 <= id < ranges.len() ==> #[trigger] ranges@[id] == if tree.nodes@[id].is_leaf {
                [tree.nodes@[id].body_start as u32, tree.nodes@[id].body_end as u32]
            } else {
                [0u32, 0u32]
            },
{
    let mut ranges: Vec<[u32; 2]> = Vec::new();
    for node_id in 0..tree.nodes.len()
        invariant
            ranges.len() == node_id,
            forall|id: int|
                0 <= id < node_id ==> #[trigger] ranges@[id] == if tree.nodes@[id].is_leaf {
                    [tree.nodes@[id].body_start as u32, tree.nodes@[id].body_end as u32]
                } else {
                    [0u32, 0u32]
                },
    {
        let node: Node = tree.nodes[node_id];
        if node.is_leaf {
            ranges.push([node.body_start as u32, node.body_end as u32]);
        } else {
            ranges.push([0u32, 0u32]);
        }
    }
    ranges
}

/// A child slot as a signed id: the child's id, or `-1` when empty.
pub open spec fn slot_id(c: Option<usize>) -> i32 {
    match c {
        Some(id) => id as i32,
        None => -1i32,
    }
}

/// Child table: for every node, its four child slots as signed ids, `-1`
/// for an empty slot.
pub fn build_children_array(tree: &Tree) -> (arr: Vec<[i32; 4]>)
    ensures
        arr.len() == tree.nodes.len(),
        forall|id: int, k: int|
            0 <= id < arr.len() && 0 <= k < 4 ==> #[trigger] arr@[id][k] == slot_id(
                tree.nodes@[id].children[k],
            ),
{
    let mut arr: Vec<[i32; 4]> = Vec::new();
    for node_id in 0..tree.nodes.len()
        invariant
            arr.len() == node_id,
            forall|id: int, k: int|
                0 <= id < node_id && 0 <= k < 4 ==> #[trigger] arr@[id][k] == slot_id(
                    tree.nodes@[id].children[k],
                ),
    {
        let node: Node = tree.nodes[node_id];
        let mut c: [i32; 4] = [-1i32, -1, -1, -1];
        let mut k: usize = 0;
        while k < 4
            invariant
                0 <= k <= 4,
                node == tree.nodes@[node_id as int],
                forall|j: int| 0 <= j < k ==> #[trigger] c[j] == slot_id(node.children[j]),
                forall|j: int| k <= j < 4 ==> #[trigger] c[j] == -1,
            decreases 4 - k,
        {
            if let Some(id) = node.children[k] {
                c[k] = id as i32;
            }
            k = k + 1;
        }
        arr.push(c);
    }
    arr
}

/// Highest of the first `upto` levels (0 when there are none).
pub open spec fn highest(levels: Seq<u32>, upto: int) -> int
    decreases upto,
{
    if upto <= 0 {
        0
    } else if levels[upto - 1] > highest(levels, upto - 1) {
        levels[upto - 1] as int
    } else {
        highest(levels, upto - 1)
    }
}

/// First id among `0..upto` at level `l`, or `none` when there is none.
pub open spec fn first_at(levels: Seq<u32>, l: int, upto: int, none: int) -> int
    decreases upto,
{
    if upto <= 0 {
        none
    } else {
        let prev = first_at(levels, l, upto - 1, none);
        if prev == none && levels[upto - 1] == l {
            upto - 1
        } else {
            prev
        }
    }
}

/// One past the last id among `0..upto` at level `l`, or 0 when none.
pub open spec fn end_at(levels: Seq<u32>, l: int, upto: int) -> int
    decreases upto,
{
    if upto <= 0 {
        0
    } else if levels[upto - 1] == l {
        upto
    } else {
        end_at(levels, l, upto - 1)
    }
}

/// The highest level is one of the levels, or 0.
proof fn lemma_highest(levels: Seq<u32>, upto: int, q: int)
    requires
        0 <= q < upto,
    ensures
        levels[q] <= highest(levels, upto),
    decreases upto,
{
    if q < upto - 1 {
        lemma_highest(levels, upto - 1, q);
    }
}

/// `highest` stays within `u32`.
proof fn lemma_highest_bound(levels: Seq<u32>, upto: int)
    ensures
        0 <= highest(levels, upto) <= u32::MAX,
    decreases upto,
{
    if upto > 0 {
        lemma_highest_bound(levels, upto - 1);
    }
}

/// Id range of every level, for level-by-level passes: returns the highest
/// level and, for each level `l` up to it, the first id at `l` and one past
/// the last (`(n, 0)` for a level no node has).
pub fn level_ranges(levels: &Vec<u32>) -> (res: (u32, Vec<(u32, u32)>))
    requires
        levels.len() < u32::MAX,
        forall|i: int| 0 <= i < levels.len() ==> #[trigger] levels[i] < u32::MAX,
    ensures
        res.0 == highest(levels@, levels.len() as int),
        res.1.len() == res.0 + 1,
        forall|l: int|
            0 <= l <= res.0 ==> (#[trigger] res.1@[l]).0 == first_at(
                levels@,
                l,
                levels.len() as int,
                levels.len() as int,
            ) && res.1@[l].1 == end_at(levels@, l, levels.len() as int),
{
    let n: usize = levels.len();
    let mut max_level: u32 = 0;
    for i in 0..n
        invariant
            n == levels.len(),
            forall|q: int| 0 <= q < levels.len() ==> #[trigger] levels[q] < u32::MAX,
            max_level == highest(levels@, i as int),
            max_level < u32::MAX,
    {
        if levels[i] > max_level {
            max_level = levels[i];
        }
    }
    let mut ranges: Vec<(u32, u32)> = Vec::new();
    let mut l: u32 = 0;
    while l <= max_level
        invariant
            max_level < u32::MAX,
            l <= max_level + 1,
            ranges.len() == l,
            n == levels.len(),
            n < u32::MAX,
            forall|j: int| 0 <= j < l ==> #[trigger] ranges@[j] == (n as u32, 0u32),
        decreases max_level + 1 - l,
    {
        ranges.push((n as u32, 0u32));
        l = l + 1;
    }
    proof {
        lemma_highest_bound(levels@, n as int);
    }
    for i in 0..n
        invariant
            n == levels.len(),
            n < u32::MAX,
            max_level == highest(levels@, n as int),
            ranges.len() == max_level + 1,
            forall|l: int|
                0 <= l <= max_level ==> (#[trigger] ranges@[l]).0 == first_at(
                    levels@,
                    l,
                    i as int,
                    n as int,
                ) && ranges@[l].1 == end_at(levels@, l, i as int),
    {
        let lvl: usize = levels[i] as usize;
        let ii: u32 = i as u32;
        proof {
            lemma_highest(levels@, n as int, i as int);
        }
        let cur: (u32, u32) = ranges[lvl];
        let mut first: u32 = cur.0;
        let mut end: u32 = cur.1;
        if ii < first {
            first = ii;
        }
        if ii >= end {
            end = ii + 1;
        }
        ranges.set(lvl, (first, end));
        proof {
            assert forall|l: int| 0 <= l <= max_level implies (#[trigger] ranges@[l]).0 == first_at(
                levels@,
                l,
                i + 1,
                n as int,
            ) && ranges@[l].1 == end_at(levels@, l, i + 1) by {
                if l == lvl {
                    lemma_first_at_bound(levels@, l, i as int, n as int);
                }
            }
        }
    }
    (max_level, ranges)
}

/// Before id `upto`, a level's first id is below `upto` or is `none`.
proof fn lemma_first_at_bound(levels: Seq<u32>, l: int, upto: int, none: int)
    requires
        0 <= upto <= none,
    ensures
        first_at(levels, l, upto, none) < upto || first_at(levels, l, upto, none) == none,
        end_at(levels, l, upto) <= upto,
    decreases upto,
{
    if upto > 0 {
        lemma_first_at_bound(levels, l, upto - 1, none);
    }
}

} // verus!
