//! Precomputed interaction lists: for every node, up to 64 partner ids
//! (M2L: well-separated children of the parent's neighbours; P2P: the
//! leaf itself and its adjacent leaves), and their compact GPU layout.
use vstd::prelude::*;
use crate::tree::{
    Node,
    Tree,
    compute_levels,
    kids_in_range,
    law_kids_before_parents,
    lemma_level_bound,
    max_int,
    morton_hierarchy,
    node_level,
};

verus! {

/// Capacity of one interaction list.
pub const LIST_CAPACITY: usize = 64;

/// Per-node partner lists: `data[id][..lengths[id]]` are the partners of
/// node `id`; unused entries hold `u32::MAX`.
pub struct InteractionLists {
    pub data: Vec<[u32; 64]>,
    pub lengths: Vec<u8>,
}

/// The cells of nodes `a` and `b` touch or overlap, as `touching` answers
/// it.
pub open spec fn touches<F: Fn(usize, usize) -> bool>(touching: F, a: usize, b: usize) -> bool {
    touching.ensures((a, b), true)
}

/// `touching` can be called on any pair of node ids below `n` and answers
/// each pair one way.
pub open spec fn decides<F: Fn(usize, usize) -> bool>(touching: F, n: int) -> bool {
    &&& forall|a: usize, b: usize| a < n && b < n ==> #[trigger] touching.requires((a, b))
    &&& forall|a: usize, b: usize|
        #![trigger touching.ensures((a, b), true)]
        !(touching.ensures((a, b), true) && touching.ensures((a, b), false))
}

/// A list row holds the first (at most 64) entries of `partners`, the rest
/// of the row being `u32::MAX`.
pub open spec fn row_holds(row: [u32; 64], len: int, partners: Seq<u32>) -> bool {
    &&& len == if partners.len() < 64 {
        partners.len() as int
    } else {
        64
    }
    &&& forall|k: int| 0 <= k < len ==> #[trigger] row[k] == partners[k]
    &&& forall|k: int| len <= k < 64 ==> #[trigger] row[k] == u32::MAX
}

/// Appends `x` to a row unless it is full.
fn row_append(row: &mut [u32; 64], len: &mut usize, x: u32, Ghost(acc): Ghost<Seq<u32>>)
    requires
        row_holds(*old(row), *old(len) as int, acc),
    ensures
        row_holds(*final(row), *final(len) as int, acc.push(x)),
{
    if *len < 64 {
        row[*len] = x;
        *len = *len + 1;
    }
}

/// Ids `0..upto` of the leaves, in order.
pub open spec fn leaf_seq(nodes: Seq<Node>, upto: int) -> Seq<usize>
    decreases upto,
{
    if upto <= 0 {
        Seq::empty()
    } else if nodes[upto - 1].is_leaf {
        leaf_seq(nodes, upto - 1).push((upto - 1) as usize)
    } else {
        leaf_seq(nodes, upto - 1)
    }
}

/// Ids of all leaves, in order.
fn leaf_ids(tree: &Tree) -> (ids: Vec<usize>)
    ensures
        ids@ == leaf_seq(tree.nodes@, tree.nodes.len() as int),
{
    let mut ids: Vec<usize> = Vec::new();
    for id in 0..tree.nodes.len()
        invariant
            ids@ == leaf_seq(tree.nodes@, id as int),
    {
        if tree.nodes[id].is_leaf {
            ids.push(id);
        }
    }
    ids
}

/// Number of leaves of the tree.
pub fn count_leaves(tree: &Tree) -> (count: usize)
    ensures
        count == leaf_seq(tree.nodes@, tree.nodes.len() as int).len(),
{
    let ids: Vec<usize> = leaf_ids(tree);
    ids.len()
}

/// The leaves of `ls` other than `a` that touch leaf `a`, in order.
pub open spec fn touching_among<F: Fn(usize, usize) -> bool>(
    touching: F,
    a: usize,
    ls: Seq<usize>,
) -> Seq<u32>
    decreases ls.len(),
{
    if ls.len() == 0 {
        Seq::empty()
    } else {
        let rest = touching_among(touching, a, ls.drop_last());
        let b = ls.last();
        if b != a && touches(touching, a, b) {
            rest.push(b as u32)
        } else {
            rest
        }
    }
}

/// The near-field partners of node `a`: for a leaf, itself and then every
/// other leaf that touches it, in id order; nothing for other nodes.
pub open spec fn p2p_partners<F: Fn(usize, usize) -> bool>(
    nodes: Seq<Node>,
    touching: F,
    a: int,
) -> Seq<u32> {
    if nodes[a].is_leaf {
        seq![a as u32].add(touching_among(touching, a as usize, leaf_seq(nodes, nodes.len() as int)))
    } else {
        Seq::empty()
    }
}

/// The near-field row of leaf `a`: itself, then every other leaf of
/// `leaves` whose cell touches its cell, capped at 64 entries.
fn p2p_row<F: Fn(usize, usize) -> bool>(
    leaves: &Vec<usize>,
    a: usize,
    touching: &F,
    Ghost(n): Ghost<int>,
) -> (res: ([u32; 64], usize))
    requires
        decides(*touching, n),
        a < n < u32::MAX,
        forall|w: int| 0 <= w < leaves.len() ==> #[trigger] leaves@[w] < n,
    ensures
        row_holds(
            res.0,
            res.1 as int,
            seq![a as u32].add(touching_among(*touching, a, leaves@)),
        ),
{
    let mut row: [u32; 64] = [u32::MAX; 64];
    let mut len: usize = 0;
    proof {
        assert(row_holds(row, 0, Seq::<u32>::empty()));
    }
    row_append(&mut row, &mut len, a as u32, Ghost(Seq::empty()));
    proof {
        assert(seq![a as u32] =~= Seq::<u32>::empty().push(a as u32));
        assert(seq![a as u32].add(touching_among(*touching, a, leaves@.subrange(0, 0))) =~= seq![
            a as u32,
        ]);
    }
    for u in 0..leaves.len()
        invariant
            decides(*touching, n),
            a < n < u32::MAX,
            forall|w: int| 0 <= w < leaves.len() ==> #[trigger] leaves@[w] < n,
            row_holds(
                row,
                len as int,
                seq![a as u32].add(touching_among(*touching, a, leaves@.subrange(0, u as int))),
            ),
    {
        let b: usize = leaves[u];
        let ghost before: Seq<u32> = seq![a as u32].add(
            touching_among(*touching, a, leaves@.subrange(0, u as int)),
        );
        proof {
            assert(leaves@.subrange(0, u + 1).drop_last() =~= leaves@.subrange(0, u as int));
            assert(leaves@.subrange(0, u + 1).last() == b);
        }
        if a != b {
            let near: bool = touching(a, b);
            if near {
                proof {
                    assert(seq![a as u32].add(touching_among(*touching, a, leaves@.subrange(0, u + 1)))
                        =~= before.push(b as u32));
                }
                row_append(&mut row, &mut len, b as u32, Ghost(before));
            } else {
                proof {
                    assert(!touches(*touching, a, b));
                    assert(seq![a as u32].add(touching_among(*touching, a, leaves@.subrange(0, u + 1)))
                        =~= before);
                }
            }
        } else {
            proof {
                assert(seq![a as u32].add(touching_among(*touching, a, leaves@.subrange(0, u + 1)))
                    =~= before);
            }
        }
    }
    proof {
        assert(leaves@.subrange(0, leaves.len() as int) =~= leaves@);
    }
    (row, len)
}

/// Near-field (P2P) lists: each leaf lists itself, then the leaves whose
/// cells touch its cell, in id order, up to 64 entries; other nodes get
/// empty lists.
pub fn build_p2p_lists<F: Fn(usize, usize) -> bool>(tree: &Tree, touching: F) -> (lists:
    InteractionLists)
    requires
        decides(touching, tree.nodes.len() as int),
        tree.nodes.len() < u32::MAX,
    ensures
        lists.data.len() == tree.nodes.len(),
        lists.lengths.len() == tree.nodes.len(),
        forall|a: int|
            0 <= a < tree.nodes.len() ==> row_holds(
                #[trigger] lists.data@[a],
                lists.lengths@[a] as int,
                p2p_partners(tree.nodes@, touching, a),
            ),
{
    let n: usize = tree.nodes.len();
    let leaves: Vec<usize> = leaf_ids(tree);
    proof {
        lemma_leaf_seq_facts(tree.nodes@, n as int);
    }
    let mut data: Vec<[u32; 64]> = Vec::new();
    let mut lengths: Vec<u8> = Vec::new();
    for id in 0..n
        invariant
            n == tree.nodes.len(),
            n < u32::MAX,
            decides(touching, tree.nodes.len() as int),
            leaves@ == leaf_seq(tree.nodes@, n as int),
            forall|w: int| 0 <= w < leaves.len() ==> #[trigger] leaves@[w] < n,
            data.len() == id,
            lengths.len() == id,
            forall|a: int|
                0 <= a < id ==> row_holds(
                    #[trigger] data@[a],
                    lengths@[a] as int,
                    p2p_partners(tree.nodes@, touching, a),
                ),
    {
        if tree.nodes[id].is_leaf {
            let (row, len) = p2p_row(&leaves, id, &touching, Ghost(n as int));
            data.push(row);
            lengths.push(len as u8);
        } else {
            let row: [u32; 64] = [u32::MAX; 64];
            proof {
                assert(p2p_partners(tree.nodes@, touching, id as int) =~= Seq::<u32>::empty());
                assert(row_holds(row, 0, Seq::<u32>::empty()));
            }
            data.push(row);
            lengths.push(0);
        }
    }
    InteractionLists { data, lengths }
}

/// Ids `0..upto` of the nodes at level `lv`, in order.
pub open spec fn ids_at_level(nodes: Seq<Node>, lv: int, upto: int) -> Seq<usize>
    decreases upto,
{
    if upto <= 0 {
        Seq::empty()
    } else if node_level(nodes, upto - 1) == lv {
        ids_at_level(nodes, lv, upto - 1).push((upto - 1) as usize)
    } else {
        ids_at_level(nodes, lv, upto - 1)
    }
}

/// Highest level among nodes `0..upto` (0 when there are none).
pub open spec fn top_level(nodes: Seq<Node>, upto: int) -> int
    decreases upto,
{
    if upto <= 0 {
        0
    } else {
        max_int(top_level(nodes, upto - 1), node_level(nodes, upto - 1))
    }
}

/// The child in one slot, as a sequence of zero or one ids.
pub open spec fn slot_kids(c: Option<usize>) -> Seq<usize> {
    match c {
        Some(x) => seq![x],
        None => Seq::empty(),
    }
}

/// Children in slots `0..k`, in slot order.
pub open spec fn kids_upto(n: Node, k: int) -> Seq<usize>
    decreases k,
{
    if k <= 0 {
        Seq::empty()
    } else {
        kids_upto(n, k - 1) + slot_kids(n.children[k - 1])
    }
}

/// The children of `kids` whose cells do not touch the cell of node `a`.
pub open spec fn far_kids<F: Fn(usize, usize) -> bool>(
    touching: F,
    a: usize,
    kids: Seq<usize>,
) -> Seq<u32>
    decreases kids.len(),
{
    if kids.len() == 0 {
        Seq::empty()
    } else {
        let rest = far_kids(touching, a, kids.drop_last());
        let c = kids.last();
        if touches(touching, a, c) {
            rest
        } else {
            rest.push(c as u32)
        }
    }
}

/// Far-field candidates of node `a` with parent `p`: for each node `pn`
/// of `pns` in order, other than `p` and touching `p`, the children of
/// `pn` that do not touch `a`.
pub open spec fn m2l_candidates<F: Fn(usize, usize) -> bool>(
    nodes: Seq<Node>,
    touching: F,
    a: usize,
    p: usize,
    pns: Seq<usize>,
) -> Seq<u32>
    decreases pns.len(),
{
    if pns.len() == 0 {
        Seq::empty()
    } else {
        let rest = m2l_candidates(nodes, touching, a, p, pns.drop_last());
        let pn = pns.last();
        if pn != p && touches(touching, p, pn) {
            rest + far_kids(touching, a, kids_upto(nodes[pn as int], 4))
        } else {
            rest
        }
    }
}

/// The far-field (M2L) partners of node `a`: the children of its parent's
/// neighbours, one level up from `a`, that are well separated from `a`;
/// nothing for a node without parent or at the top level.
pub open spec fn m2l_partners<F: Fn(usize, usize) -> bool>(
    nodes: Seq<Node>,
    touching: F,
    a: int,
) -> Seq<u32> {
    match nodes[a].parent {
        Some(p) => if node_level(nodes, a) < top_level(nodes, nodes.len() as int) {
            m2l_candidates(
                nodes,
                touching,
                a as usize,
                p,
                ids_at_level(nodes, node_level(nodes, a) + 1, nodes.len() as int),
            )
        } else {
            Seq::empty()
        },
        None => Seq::empty(),
    }
}

/// Every parent id names a node of the tree.
pub open spec fn parents_in_range(nodes: Seq<Node>) -> bool {
    forall|id: int|
        0 <= id < nodes.len() && (#[trigger] nodes[id].parent) is Some ==> nodes[id].parent.unwrap()
            < nodes.len()
}

/// Ids of the nodes at level `lv`, in order.
fn ids_with_level(levels: &Vec<u32>, lv: u32, Ghost(nodes): Ghost<Seq<Node>>) -> (ids: Vec<usize>)
    requires
        levels.len() == nodes.len(),
        forall|id: int| 0 <= id < levels.len() ==> #[trigger] levels[id] == node_level(nodes, id),
    ensures
        ids@ == ids_at_level(nodes, lv as int, nodes.len() as int),
        forall|w: int| 0 <= w < ids.len() ==> #[trigger] ids@[w] < nodes.len(),
{
    let mut ids: Vec<usize> = Vec::new();
    for id in 0..levels.len()
        invariant
            levels.len() == nodes.len(),
            forall|q: int| 0 <= q < levels.len() ==> #[trigger] levels[q] == node_level(nodes, q),
            ids@ == ids_at_level(nodes, lv as int, id as int),
            forall|w: int| 0 <= w < ids.len() ==> #[trigger] ids@[w] < id,
    {
        if levels[id] == lv {
            ids.push(id);
        }
    }
    ids
}

/// Appends to a row the children of `node` that do not touch node `a`.
fn append_far_kids<F: Fn(usize, usize) -> bool>(
    row: &mut [u32; 64],
    len: &mut usize,
    node: &Node,
    a: usize,
    touching: &F,
    Ghost(acc): Ghost<Seq<u32>>,
    Ghost(n): Ghost<int>,
)
    requires
        decides(*touching, n),
        a < n < u32::MAX,
        forall|k: int| 0 <= k < 4 && (#[trigger] node.children[k]) is Some ==> node.children[k].unwrap() < n,
        row_holds(*old(row), *old(len) as int, acc),
    ensures
        row_holds(*final(row), *final(len) as int, acc + far_kids(*touching, a, kids_upto(*node, 4))),
{
    proof {
        assert(acc + far_kids(*touching, a, kids_upto(*node, 0)) =~= acc);
    }
    let mut k: usize = 0;
    while k < 4
        invariant
            0 <= k <= 4,
            decides(*touching, n),
            a < n < u32::MAX,
            forall|j: int| 0 <= j < 4 && (#[trigger] node.children[j]) is Some ==> node.children[j].unwrap() < n,
            row_holds(*row, *len as int, acc + far_kids(*touching, a, kids_upto(*node, k as int))),
        decreases 4 - k,
    {
        let ghost before: Seq<u32> = acc + far_kids(*touching, a, kids_upto(*node, k as int));
        let ghost prefix: Seq<usize> = kids_upto(*node, k as int);
        if let Some(c) = node.children[k] {
            proof {
                assert(node.children[k as int] is Some);
                assert(kids_upto(*node, k + 1) =~= prefix.push(c));
                assert(prefix.push(c).drop_last() =~= prefix);
            }
            let near: bool = touching(a, c);
            if near {
                proof {
                    assert(acc + far_kids(*touching, a, kids_upto(*node, k + 1)) =~= before);
                }
            } else {
                proof {
                    assert(!touches(*touching, a, c));
                    assert(acc + far_kids(*touching, a, kids_upto(*node, k + 1)) =~= before.push(
                        c as u32,
                    ));
                }
                row_append(row, len, c as u32, Ghost(before));
            }
        } else {
            proof {
                assert(kids_upto(*node, k + 1) =~= prefix);
            }
        }
        k = k + 1;
    }
}

/// The far-field row of node `a` with parent `p`, from the nodes `upper`
/// one level up.
fn m2l_row<F: Fn(usize, usize) -> bool>(
    tree: &Tree,
    upper: &Vec<usize>,
    a: usize,
    p: usize,
    touching: &F,
) -> (res: ([u32; 64], usize))
    requires
        decides(*touching, tree.nodes.len() as int),
        tree.nodes.len() < u32::MAX,
        kids_in_range(tree.nodes@),
        a < tree.nodes.len(),
        p < tree.nodes.len(),
        forall|w: int| 0 <= w < upper.len() ==> #[trigger] upper@[w] < tree.nodes.len(),
    ensures
        row_holds(res.0, res.1 as int, m2l_candidates(tree.nodes@, *touching, a, p, upper@)),
{
    let ghost n: int = tree.nodes.len() as int;
    let mut row: [u32; 64] = [u32::MAX; 64];
    let mut len: usize = 0;
    proof {
        assert(row_holds(row, 0, Seq::<u32>::empty()));
        assert(m2l_candidates(tree.nodes@, *touching, a, p, upper@.subrange(0, 0)) =~= Seq::<
            u32,
        >::empty());
    }
    for u in 0..upper.len()
        invariant
            n == tree.nodes.len(),
            decides(*touching, n),
            n < u32::MAX,
            kids_in_range(tree.nodes@),
            a < n,
            p < n,
            forall|w: int| 0 <= w < upper.len() ==> #[trigger] upper@[w] < n,
            row_holds(
                row,
                len as int,
                m2l_candidates(tree.nodes@, *touching, a, p, upper@.subrange(0, u as int)),
            ),
    {
        let pn: usize = upper[u];
        let ghost before: Seq<u32> = m2l_candidates(
            tree.nodes@,
            *touching,
            a,
            p,
            upper@.subrange(0, u as int),
        );
        proof {
            assert(upper@.subrange(0, u + 1).drop_last() =~= upper@.subrange(0, u as int));
            assert(upper@.subrange(0, u + 1).last() == pn);
        }
        let mut neighbour: bool = false;
        if pn != p {
            neighbour = touching(p, pn);
        }
        if neighbour {
            let node: Node = tree.nodes[pn];
            proof {
                assert forall|k: int| 0 <= k < 4 && (#[trigger] node.children[k]) is Some implies node.children[k].unwrap() < n by {
                    assert(tree.nodes@[pn as int].children[k] is Some);
                }
            }
            append_far_kids(&mut row, &mut len, &node, a, touching, Ghost(before), Ghost(n));
        } else {
            proof {
                if pn != p {
                    assert(!touches(*touching, p, pn));
                }
            }
        }
    }
    proof {
        assert(upper@.subrange(0, upper.len() as int) =~= upper@);
    }
    (row, len)
}

/// Highest level among nodes `0..upto` is reached by one of them.
proof fn lemma_top_level(nodes: Seq<Node>, upto: int, q: int)
    requires
        0 <= q < upto,
    ensures
        node_level(nodes, q) <= top_level(nodes, upto),
    decreases upto,
{
    if q < upto - 1 {
        lemma_top_level(nodes, upto - 1, q);
    }
}

impl InteractionLists {
    /// Far-field (M2L) lists: for every node below the top level with a
    /// parent, the children of the parent's touching same-level neighbours
    /// whose cells do not touch the node, in id and slot order, up to 64
    /// entries; other nodes get empty lists.
    pub fn build<F: Fn(usize, usize) -> bool>(tree: &Tree, touching: F) -> (lists: Self)
        requires
            decides(touching, tree.nodes.len() as int),
            tree.nodes.len() < u32::MAX,
            kids_in_range(tree.nodes@),
            parents_in_range(tree.nodes@),
        ensures
            lists.data.len() == tree.nodes.len(),
            lists.lengths.len() == tree.nodes.len(),
            forall|a: int|
                0 <= a < tree.nodes.len() ==> row_holds(
                    #[trigger] lists.data@[a],
                    lists.lengths@[a] as int,
                    m2l_partners(tree.nodes@, touching, a),
                ),
    {
        let n: usize = tree.nodes.len();
        let ghost nodes: Seq<Node> = tree.nodes@;
        let levels: Vec<u32> = compute_levels(tree);
        let mut max_level: u32 = 0;
        for id in 0..n
            invariant
                n == nodes.len(),
                nodes == tree.nodes@,
                levels.len() == n,
                forall|q: int| 0 <= q < n ==> #[trigger] levels[q] == node_level(nodes, q),
                max_level == top_level(nodes, id as int),
        {
            if levels[id] > max_level {
                max_level = levels[id];
            }
        }
        let empty_row: [u32; 64] = [u32::MAX; 64];
        proof {
            assert(row_holds(empty_row, 0, Seq::<u32>::empty()));
        }
        let mut data: Vec<[u32; 64]> = Vec::new();
        let mut lengths: Vec<u8> = Vec::new();
        for z in 0..n
            invariant
                data.len() == z,
                lengths.len() == z,
                row_holds(empty_row, 0, Seq::<u32>::empty()),
                forall|q: int|
                    0 <= q < z ==> row_holds(#[trigger] data@[q], lengths@[q] as int, Seq::empty()),
        {
            data.push(empty_row);
            lengths.push(0);
        }
        let mut lv: u32 = 0;
        proof {
            assert forall|q: int| 0 <= q < n implies node_level(nodes, q) >= 0 by {
                lemma_level_bound(nodes, q);
            }
        }
        while lv < max_level
            invariant
                n == nodes.len(),
                nodes == tree.nodes@,
                n < u32::MAX,
                decides(touching, n as int),
                kids_in_range(nodes),
                parents_in_range(nodes),
                levels.len() == n,
                forall|q: int| 0 <= q < n ==> #[trigger] levels[q] == node_level(nodes, q),
                max_level == top_level(nodes, n as int),
                lv <= max_level,
                row_holds(empty_row, 0, Seq::<u32>::empty()),
                data.len() == n,
                lengths.len() == n,
                forall|q: int|
                    0 <= q < n && node_level(nodes, q) < lv ==> row_holds(
                        #[trigger] data@[q],
                        lengths@[q] as int,
                        m2l_partners(nodes, touching, q),
                    ),
                forall|q: int|
                    0 <= q < n && node_level(nodes, q) >= lv ==> row_holds(
                        #[trigger] data@[q],
                        lengths@[q] as int,
                        Seq::empty(),
                    ),
            decreases max_level - lv,
        {
            let upper: Vec<usize> = ids_with_level(&levels, lv + 1, Ghost(nodes));
            for id in 0..n
                invariant
                    n == nodes.len(),
                    nodes == tree.nodes@,
                    n < u32::MAX,
                    decides(touching, n as int),
                    kids_in_range(nodes),
                    parents_in_range(nodes),
                    levels.len() == n,
                    forall|q: int| 0 <= q < n ==> #[trigger] levels[q] == node_level(nodes, q),
                    max_level == top_level(nodes, n as int),
                    lv < max_level,
                    upper@ == ids_at_level(nodes, lv + 1, n as int),
                    forall|w: int| 0 <= w < upper.len() ==> #[trigger] upper@[w] < n,
                    row_holds(empty_row, 0, Seq::<u32>::empty()),
                    data.len() == n,
                    lengths.len() == n,
                    forall|q: int|
                        0 <= q < n && (node_level(nodes, q) < lv || (node_level(nodes, q) == lv
                            && q < id)) ==> row_holds(
                            #[trigger] data@[q],
                            lengths@[q] as int,
                            m2l_partners(nodes, touching, q),
                        ),
                    forall|q: int|
                        0 <= q < n && (node_level(nodes, q) > lv || (node_level(nodes, q) == lv
                            && q >= id)) ==> row_holds(
                            #[trigger] data@[q],
                            lengths@[q] as int,
                            Seq::empty(),
                        ),
            {
                if levels[id] == lv {
                    proof {
                        assert(node_level(nodes, id as int) == lv);
                    }
                    match tree.nodes[id].parent {
                        Some(p) => {
                            proof {
                                assert(nodes[id as int].parent is Some);
                            }
                            let (row, len) = m2l_row(tree, &upper, id, p, &touching);
                            data.set(id, row);
                            lengths.set(id, len as u8);
                        },
                        None => {
                            proof {
                                assert(m2l_partners(nodes, touching, id as int) =~= Seq::<
                                    u32,
                                >::empty());
                            }
                        },
                    }
                }
            }
            lv = lv + 1;
        }
        proof {
            assert forall|q: int| 0 <= q < n implies row_holds(
                #[trigger] data@[q],
                lengths@[q] as int,
                m2l_partners(nodes, touching, q),
            ) by {
                if node_level(nodes, q) >= lv {
                    lemma_top_level(nodes, n as int, q);
                    assert(m2l_partners(nodes, touching, q) =~= Seq::<u32>::empty());
                }
            }
        }
        InteractionLists { data, lengths }
    }
}

/// A tree built by Morton grouping names only its own nodes as children
/// and parents, so both list builders accept it.
pub proof fn law_built_tree_links_in_range(
    nodes: Seq<Node>,
    keys: Seq<u64>,
    ranges: Seq<(usize, usize)>,
)
    requires
        morton_hierarchy(nodes, keys, ranges),
    ensures
        kids_in_range(nodes),
        parents_in_range(nodes),
{
    law_kids_before_parents(nodes, keys, ranges);
    assert forall|id: int|
        0 <= id < nodes.len() && (#[trigger] nodes[id].parent) is Some implies nodes[id].parent.unwrap()
        < nodes.len() by {
        if id == nodes.len() - 1 {
            assert(nodes[nodes.len() - 1].parent is None);
        }
    }
}

/// Every child kept by `far_kids` is a child of `kids` that does not
/// touch `a`.
proof fn lemma_far_kids(touching: impl Fn(usize, usize) -> bool, a: usize, kids: Seq<usize>, n: int)
    requires
        n <= u32::MAX,
        forall|w: int| 0 <= w < kids.len() ==> #[trigger] kids[w] < n,
    ensures
        forall|k: int|
            0 <= k < far_kids(touching, a, kids).len() ==> (#[trigger] far_kids(touching, a, kids)[k])
                < n && !touches(touching, a, far_kids(touching, a, kids)[k] as usize),
    decreases kids.len(),
{
    if kids.len() > 0 {
        let init = kids.drop_last();
        lemma_far_kids(touching, a, init, n);
        let prev = far_kids(touching, a, init);
        let cur = far_kids(touching, a, kids);
        let c = kids.last();
        assert(c == kids[kids.len() - 1]);
        assert forall|k: int| 0 <= k < cur.len() implies (#[trigger] cur[k]) < n && !touches(
            touching,
            a,
            cur[k] as usize,
        ) by {
            if k < prev.len() {
                assert(cur[k] == prev[k]);
            } else {
                assert(cur[k] == c as u32);
                assert((c as u32) as usize == c);
            }
        }
    }
}

/// The children in slots `0..k` are children of the node.
proof fn lemma_kids_upto(node: Node, k: int, n: int)
    requires
        0 <= k <= 4,
        forall|j: int| 0 <= j < 4 && (#[trigger] node.children[j]) is Some ==> node.children[j].unwrap() < n,
    ensures
        forall|w: int| 0 <= w < kids_upto(node, k).len() ==> #[trigger] kids_upto(node, k)[w] < n,
    decreases k,
{
    if k > 0 {
        lemma_kids_upto(node, k - 1, n);
        let prev = kids_upto(node, k - 1);
        let cur = kids_upto(node, k);
        assert(node.children[k - 1] is Some ==> node.children[k - 1].unwrap() < n);
        assert forall|w: int| 0 <= w < cur.len() implies #[trigger] cur[w] < n by {
            if w < prev.len() {
                assert(cur[w] == prev[w]);
            } else {
                assert(cur[w] == slot_kids(node.children[k - 1])[w - prev.len()]);
            }
        }
    }
}

/// Every far-field candidate is a node id that does not touch `a`.
proof fn lemma_m2l_candidates(
    nodes: Seq<Node>,
    touching: impl Fn(usize, usize) -> bool,
    a: usize,
    p: usize,
    pns: Seq<usize>,
)
    requires
        kids_in_range(nodes),
        nodes.len() <= u32::MAX,
        forall|w: int| 0 <= w < pns.len() ==> #[trigger] pns[w] < nodes.len(),
    ensures
        forall|k: int|
            0 <= k < m2l_candidates(nodes, touching, a, p, pns).len() ==> (#[trigger] m2l_candidates(
                nodes,
                touching,
                a,
                p,
                pns,
            )[k]) < nodes.len() && !touches(
                touching,
                a,
                m2l_candidates(nodes, touching, a, p, pns)[k] as usize,
            ),
    decreases pns.len(),
{
    if pns.len() > 0 {
        let init = pns.drop_last();
        lemma_m2l_candidates(nodes, touching, a, p, init);
        let pn = pns.last();
        let node = nodes[pn as int];
        assert forall|j: int| 0 <= j < 4 && (#[trigger] node.children[j]) is Some implies node.children[j].unwrap()
            < nodes.len() by {
            assert(nodes[pn as int].children[j] is Some);
        }
        lemma_kids_upto(node, 4, nodes.len() as int);
        lemma_far_kids(touching, a, kids_upto(node, 4), nodes.len() as int);
        let prev = m2l_candidates(nodes, touching, a, p, init);
        let cur = m2l_candidates(nodes, touching, a, p, pns);
        let far = far_kids(touching, a, kids_upto(node, 4));
        assert forall|k: int| 0 <= k < cur.len() implies (#[trigger] cur[k]) < nodes.len()
            && !touches(touching, a, cur[k] as usize) by {
            if k < prev.len() {
                assert(cur[k] == prev[k]);
            } else {
                assert(cur[k] == far[k - prev.len()]);
            }
        }
    }
}

/// Far-field partners are well separated: each is a node of the tree whose
/// cell does not touch the node's cell.
pub proof fn law_m2l_partners_well_separated(
    nodes: Seq<Node>,
    touching: impl Fn(usize, usize) -> bool,
    a: int,
)
    requires
        kids_in_range(nodes),
        nodes.len() < u32::MAX,
        0 <= a < nodes.len(),
    ensures
        forall|k: int|
            0 <= k < m2l_partners(nodes, touching, a).len() ==> (#[trigger] m2l_partners(
                nodes,
                touching,
                a,
            )[k]) < nodes.len() && !touches(
                touching,
                a as usize,
                m2l_partners(nodes, touching, a)[k] as usize,
            ),
{
    match nodes[a].parent {
        Some(p) => {
            if node_level(nodes, a) < top_level(nodes, nodes.len() as int) {
                let lv = node_level(nodes, a) + 1;
                lemma_ids_at_level(nodes, lv, nodes.len() as int);
                lemma_m2l_candidates(
                    nodes,
                    touching,
                    a as usize,
                    p,
                    ids_at_level(nodes, lv, nodes.len() as int),
                );
            }
        },
        None => {},
    }
}

/// Every child kept by `far_kids` is one of `kids`.
proof fn lemma_far_kids_from(touching: impl Fn(usize, usize) -> bool, a: usize, kids: Seq<usize>)
    requires
        forall|w: int| 0 <= w < kids.len() ==> #[trigger] kids[w] < u32::MAX,
    ensures
        forall|k: int|
            0 <= k < far_kids(touching, a, kids).len() ==> kids.contains(
                (#[trigger] far_kids(touching, a, kids)[k]) as usize,
            ),
    decreases kids.len(),
{
    if kids.len() > 0 {
        let init = kids.drop_last();
        lemma_far_kids_from(touching, a, init);
        let prev = far_kids(touching, a, init);
        let cur = far_kids(touching, a, kids);
        assert forall|k: int| 0 <= k < cur.len() implies kids.contains(
            (#[trigger] cur[k]) as usize,
        ) by {
            if k < prev.len() {
                assert(cur[k] == prev[k]);
                let w = choose|w: int| 0 <= w < init.len() && #[trigger] init[w] == prev[k] as usize;
                assert(kids[w] == init[w]);
            } else {
                assert(kids[kids.len() - 1] == kids.last());
            }
        }
    }
}

/// `x` is a child of a node of `pns`, other than `p`, that touches `p`.
pub open spec fn child_of_neighbour<F: Fn(usize, usize) -> bool>(
    nodes: Seq<Node>,
    touching: F,
    p: usize,
    pns: Seq<usize>,
    x: usize,
) -> bool {
    exists|w: int|
        0 <= w < pns.len() && pns[w] != p && touches(touching, p, pns[w]) && #[trigger] kids_upto(
            nodes[pns[w] as int],
            4,
        ).contains(x)
}

/// Every far-field candidate is a child of a node of `pns`, other than
/// `p`, that touches `p`.
proof fn lemma_m2l_candidates_from(
    nodes: Seq<Node>,
    touching: impl Fn(usize, usize) -> bool,
    a: usize,
    p: usize,
    pns: Seq<usize>,
)
    requires
        kids_in_range(nodes),
        nodes.len() <= u32::MAX,
        forall|w: int| 0 <= w < pns.len() ==> #[trigger] pns[w] < nodes.len(),
    ensures
        forall|k: int|
            0 <= k < m2l_candidates(nodes, touching, a, p, pns).len() ==> child_of_neighbour(
                nodes,
                touching,
                p,
                pns,
                (#[trigger] m2l_candidates(nodes, touching, a, p, pns)[k]) as usize,
            ),
    decreases pns.len(),
{
    if pns.len() > 0 {
        let init = pns.drop_last();
        lemma_m2l_candidates_from(nodes, touching, a, p, init);
        let pn = pns.last();
        let node = nodes[pn as int];
        assert forall|j: int| 0 <= j < 4 && (#[trigger] node.children[j]) is Some implies node.children[j].unwrap()
            < nodes.len() by {
            assert(nodes[pn as int].children[j] is Some);
        }
        lemma_kids_upto(node, 4, nodes.len() as int);
        lemma_far_kids_from(touching, a, kids_upto(node, 4));
        let prev = m2l_candidates(nodes, touching, a, p, init);
        let cur = m2l_candidates(nodes, touching, a, p, pns);
        let far = far_kids(touching, a, kids_upto(node, 4));
        assert forall|k: int| 0 <= k < cur.len() implies child_of_neighbour(
            nodes,
            touching,
            p,
            pns,
            (#[trigger] cur[k]) as usize,
        ) by {
            if k < prev.len() {
                assert(cur[k] == prev[k]);
                assert(child_of_neighbour(nodes, touching, p, init, prev[k] as usize));
                let w = choose|w: int|
                    0 <= w < init.len() && init[w] != p && touches(touching, p, init[w])
                        && #[trigger] kids_upto(nodes[init[w] as int], 4).contains(prev[k] as usize);
                assert(pns[w] == init[w]);
                assert(kids_upto(nodes[pns[w] as int], 4).contains(cur[k] as usize));
            } else {
                assert(cur[k] == far[k - prev.len()]);
                assert(pns[pns.len() - 1] == pn);
                assert(kids_upto(nodes[pns[pns.len() - 1] as int], 4).contains(cur[k] as usize));
            }
        }
    }
}

/// Far-field partners come from the parent's neighbourhood: each is a
/// child of a node one level above the node, other than its parent, whose
/// cell touches the parent's cell.
pub proof fn law_m2l_partners_from_parent_neighbours(
    nodes: Seq<Node>,
    touching: impl Fn(usize, usize) -> bool,
    a: int,
    k: int,
)
    requires
        kids_in_range(nodes),
        nodes.len() < u32::MAX,
        0 <= a < nodes.len(),
        0 <= k < m2l_partners(nodes, touching, a).len(),
    ensures
        nodes[a].parent is Some,
        exists|pn: int|
            0 <= pn < nodes.len() && pn != nodes[a].parent.unwrap() && node_level(nodes, pn)
                == node_level(nodes, a) + 1 && touches(
                touching,
                nodes[a].parent.unwrap(),
                pn as usize,
            ) && #[trigger] kids_upto(nodes[pn], 4).contains(
                m2l_partners(nodes, touching, a)[k] as usize,
            ),
{
    let p = nodes[a].parent.unwrap();
    let lv = node_level(nodes, a) + 1;
    let pns = ids_at_level(nodes, lv, nodes.len() as int);
    lemma_ids_at_level(nodes, lv, nodes.len() as int);
    lemma_ids_at_level_levels(nodes, lv, nodes.len() as int);
    lemma_m2l_candidates_from(nodes, touching, a as usize, p, pns);
    let x = m2l_partners(nodes, touching, a)[k];
    assert(child_of_neighbour(nodes, touching, p, pns, x as usize));
    let w = choose|w: int|
        0 <= w < pns.len() && pns[w] != p && touches(touching, p, pns[w]) && #[trigger] kids_upto(
            nodes[pns[w] as int],
            4,
        ).contains(x as usize);
    let pn = pns[w] as int;
    assert(kids_upto(nodes[pn], 4).contains(x as usize));
}

/// A child in one of slots `0..k` is among `kids_upto(node, k)`.
proof fn lemma_kids_upto_has(node: Node, k: int, j: int, c: usize)
    requires
        0 <= j < k <= 4,
        node.children[j] == Some(c),
    ensures
        kids_upto(node, k).contains(c),
    decreases k,
{
    if j < k - 1 {
        lemma_kids_upto_has(node, k - 1, j, c);
        let prev = kids_upto(node, k - 1);
        let w = choose|w: int| 0 <= w < prev.len() && prev[w] == c;
        assert(kids_upto(node, k)[w] == c);
    } else {
        let prev = kids_upto(node, k - 1);
        assert(kids_upto(node, k)[prev.len() as int] == c);
    }
}

/// `far_kids` keeps every child of `kids` that does not touch `a`.
proof fn lemma_far_kids_has(touching: impl Fn(usize, usize) -> bool, a: usize, kids: Seq<usize>, c: usize)
    requires
        kids.contains(c),
        !touches(touching, a, c),
    ensures
        far_kids(touching, a, kids).contains(c as u32),
    decreases kids.len(),
{
    let init = kids.drop_last();
    let cur = far_kids(touching, a, kids);
    if kids.last() == c {
        assert(cur[cur.len() - 1] == c as u32);
    } else {
        let w = choose|w: int| 0 <= w < kids.len() && kids[w] == c;
        assert(w != kids.len() - 1);
        assert(init[w] == c);
        lemma_far_kids_has(touching, a, init, c);
        let prev = far_kids(touching, a, init);
        let q = choose|q: int| 0 <= q < prev.len() && prev[q] == c as u32;
        assert(cur[q] == c as u32);
    }
}

/// The candidates from `pns` include every kept child of a node of `pns`
/// other than `p` that touches `p`.
proof fn lemma_m2l_candidates_has(
    nodes: Seq<Node>,
    touching: impl Fn(usize, usize) -> bool,
    a: usize,
    p: usize,
    pns: Seq<usize>,
    pn: usize,
    x: u32,
)
    requires
        pns.contains(pn),
        pn != p,
        touches(touching, p, pn),
        far_kids(touching, a, kids_upto(nodes[pn as int], 4)).contains(x),
    ensures
        m2l_candidates(nodes, touching, a, p, pns).contains(x),
    decreases pns.len(),
{
    let init = pns.drop_last();
    let cur = m2l_candidates(nodes, touching, a, p, pns);
    let prev = m2l_candidates(nodes, touching, a, p, init);
    if pns.last() == pn {
        let far = far_kids(touching, a, kids_upto(nodes[pn as int], 4));
        let q = choose|q: int| 0 <= q < far.len() && far[q] == x;
        assert(cur == prev + far);
        assert(cur[prev.len() + q] == x);
    } else {
        let w = choose|w: int| 0 <= w < pns.len() && pns[w] == pn;
        assert(init[w] == pn);
        lemma_m2l_candidates_has(nodes, touching, a, p, init, pn, x);
        let q = choose|q: int| 0 <= q < prev.len() && prev[q] == x;
        assert(cur[q] == x);
    }
}

/// Every node of level `lv` among `0..upto` is listed by `ids_at_level`.
proof fn lemma_ids_at_level_has(nodes: Seq<Node>, lv: int, upto: int, q: int)
    requires
        0 <= q < upto,
        node_level(nodes, q) == lv,
    ensures
        ids_at_level(nodes, lv, upto).contains(q as usize),
    decreases upto,
{
    let cur = ids_at_level(nodes, lv, upto);
    if q == upto - 1 {
        assert(cur[cur.len() - 1] == q as usize);
    } else {
        lemma_ids_at_level_has(nodes, lv, upto - 1, q);
        let prev = ids_at_level(nodes, lv, upto - 1);
        let w = choose|w: int| 0 <= w < prev.len() && prev[w] == q as usize;
        if node_level(nodes, upto - 1) == lv {
            assert(cur[w] == q as usize);
        } else {
            assert(cur[w] == q as usize);
        }
    }
}

/// Far-field lists are complete: for every node `a` with parent `p`, each
/// child `c` of a node `pn` one level above `a`, other than `p`, whose cell
/// touches `p`'s, is a far-field partner of `a` as soon as `c`'s cell does
/// not touch `a`'s. This holds for inner nodes as much as for leaves.
pub proof fn law_m2l_partners_complete(
    nodes: Seq<Node>,
    touching: impl Fn(usize, usize) -> bool,
    a: int,
    pn: int,
    j: int,
)
    requires
        kids_in_range(nodes),
        nodes.len() < u32::MAX,
        0 <= a < nodes.len(),
        nodes[a].parent is Some,
        0 <= pn < nodes.len(),
        pn != nodes[a].parent.unwrap(),
        node_level(nodes, pn) == node_level(nodes, a) + 1,
        touches(touching, nodes[a].parent.unwrap(), pn as usize),
        0 <= j < 4,
        nodes[pn].children[j] is Some,
        !touches(touching, a as usize, nodes[pn].children[j].unwrap()),
    ensures
        m2l_partners(nodes, touching, a).contains(nodes[pn].children[j].unwrap() as u32),
{
    let p = nodes[a].parent.unwrap();
    let c = nodes[pn].children[j].unwrap();
    let n = nodes.len() as int;
    let lv = node_level(nodes, a) + 1;
    lemma_top_level(nodes, n, pn);
    lemma_ids_at_level_has(nodes, lv, n, pn);
    lemma_kids_upto_has(nodes[pn], 4, j, c);
    lemma_far_kids_has(touching, a as usize, kids_upto(nodes[pn], 4), c);
    lemma_m2l_candidates_has(
        nodes,
        touching,
        a as usize,
        p,
        ids_at_level(nodes, lv, n),
        pn as usize,
        c as u32,
    );
}

/// A built far-field row holds every partner that
/// `law_m2l_partners_complete` names, unless the row is full (64 entries).
pub proof fn law_m2l_row_complete(
    nodes: Seq<Node>,
    touching: impl Fn(usize, usize) -> bool,
    row: [u32; 64],
    len: int,
    a: int,
    pn: int,
    j: int,
)
    requires
        kids_in_range(nodes),
        nodes.len() < u32::MAX,
        0 <= a < nodes.len(),
        row_holds(row, len, m2l_partners(nodes, touching, a)),
        nodes[a].parent is Some,
        0 <= pn < nodes.len(),
        pn != nodes[a].parent.unwrap(),
        node_level(nodes, pn) == node_level(nodes, a) + 1,
        touches(touching, nodes[a].parent.unwrap(), pn as usize),
        0 <= j < 4,
        nodes[pn].children[j] is Some,
        !touches(touching, a as usize, nodes[pn].children[j].unwrap()),
    ensures
        len == 64 || exists|k: int|
            0 <= k < len && #[trigger] row[k] == nodes[pn].children[j].unwrap() as u32,
{
    law_m2l_partners_complete(nodes, touching, a, pn, j);
    let partners = m2l_partners(nodes, touching, a);
    let x = nodes[pn].children[j].unwrap() as u32;
    let w = choose|w: int| 0 <= w < partners.len() && partners[w] == x;
    if len < 64 {
        assert(row[w] == x);
    }
}

/// Entries of `ids_at_level` are at that level.
proof fn lemma_ids_at_level_levels(nodes: Seq<Node>, lv: int, upto: int)
    requires
        upto <= nodes.len() <= usize::MAX,
    ensures
        forall|w: int|
            0 <= w < ids_at_level(nodes, lv, upto).len() ==> node_level(
                nodes,
                #[trigger] ids_at_level(nodes, lv, upto)[w] as int,
            ) == lv,
    decreases upto,
{
    if upto > 0 {
        lemma_ids_at_level_levels(nodes, lv, upto - 1);
        let prev = ids_at_level(nodes, lv, upto - 1);
        let cur = ids_at_level(nodes, lv, upto);
        assert forall|w: int| 0 <= w < cur.len() implies node_level(
            nodes,
            #[trigger] cur[w] as int,
        ) == lv by {
            if w < prev.len() {
                assert(cur[w] == prev[w]);
            } else {
                assert(cur[w] as int == upto - 1);
            }
        }
    }
}

/// A leaf is kept by `touching_among` exactly when it is one of `ls`,
/// differs from `a` and touches `a`.
proof fn lemma_touching_among_contains(
    touching: impl Fn(usize, usize) -> bool,
    a: usize,
    ls: Seq<usize>,
    x: usize,
)
    requires
        x < u32::MAX,
        forall|w: int| 0 <= w < ls.len() ==> #[trigger] ls[w] < u32::MAX,
    ensures
        touching_among(touching, a, ls).contains(x as u32) <==> (ls.contains(x) && x != a && touches(
            touching,
            a,
            x,
        )),
    decreases ls.len(),
{
    lemma_touching_among(touching, a, ls);
    if ls.len() > 0 {
        let init = ls.drop_last();
        lemma_touching_among_contains(touching, a, init, x);
        let prev = touching_among(touching, a, init);
        let cur = touching_among(touching, a, ls);
        let b = ls.last();
        if ls.contains(x) && x != a && touches(touching, a, x) {
            let w = choose|w: int| 0 <= w < ls.len() && ls[w] == x;
            if w < init.len() {
                assert(init[w] == x);
                assert(prev.contains(x as u32));
                let t = choose|t: int| 0 <= t < prev.len() && prev[t] == x as u32;
                assert(cur[t] == prev[t]);
            } else {
                assert(b == x);
                assert(cur[cur.len() - 1] == x as u32);
            }
        }
        if cur.contains(x as u32) {
            let t = choose|t: int| 0 <= t < cur.len() && cur[t] == x as u32;
            assert((cur[t] as usize) == x);
        }
    }
}

/// Near-field lists are complete: a leaf lists every other leaf whose cell
/// touches its own.
pub proof fn law_p2p_partners_complete(
    nodes: Seq<Node>,
    touching: impl Fn(usize, usize) -> bool,
    a: int,
    b: int,
)
    requires
        nodes.len() < u32::MAX,
        0 <= a < nodes.len(),
        0 <= b < nodes.len(),
        a != b,
        nodes[a].is_leaf,
        nodes[b].is_leaf,
        touches(touching, a as usize, b as usize),
    ensures
        p2p_partners(nodes, touching, a).contains(b as u32),
{
    let ls = leaf_seq(nodes, nodes.len() as int);
    lemma_leaf_seq_facts(nodes, nodes.len() as int);
    assert forall|w: int| 0 <= w < ls.len() implies #[trigger] ls[w] < u32::MAX by {}
    lemma_leaf_in_seq(nodes, nodes.len() as int, b);
    lemma_touching_among_contains(touching, a as usize, ls, b as usize);
    let rest = touching_among(touching, a as usize, ls);
    let q = choose|q: int| 0 <= q < rest.len() && rest[q] == b as u32;
    assert(p2p_partners(nodes, touching, a)[q + 1] == b as u32);
}

/// With a symmetric `touching`, near-field partnership is mutual: leaf
/// `b` is among the partners of `a` exactly when `a` is among those of
/// `b`.
pub proof fn law_p2p_partners_symmetric(
    nodes: Seq<Node>,
    touching: impl Fn(usize, usize) -> bool,
    a: int,
    b: int,
)
    requires
        nodes.len() < u32::MAX,
        0 <= a < nodes.len(),
        0 <= b < nodes.len(),
        a != b,
        touches(touching, a as usize, b as usize) == touches(touching, b as usize, a as usize),
    ensures
        p2p_partners(nodes, touching, a).contains(b as u32) <==> p2p_partners(
            nodes,
            touching,
            b,
        ).contains(a as u32),
{
    let ls = leaf_seq(nodes, nodes.len() as int);
    lemma_leaf_seq_facts(nodes, nodes.len() as int);
    assert forall|w: int| 0 <= w < ls.len() implies #[trigger] ls[w] < u32::MAX by {}
    lemma_touching_among_contains(touching, a as usize, ls, b as usize);
    lemma_touching_among_contains(touching, b as usize, ls, a as usize);
    if nodes[a].is_leaf {
        lemma_leaf_in_seq(nodes, nodes.len() as int, a);
    }
    if nodes[b].is_leaf {
        lemma_leaf_in_seq(nodes, nodes.len() as int, b);
    }
    if ls.contains(a as usize) {
        let w = choose|w: int| 0 <= w < ls.len() && ls[w] == a as usize;
        assert(nodes[ls[w] as int].is_leaf);
    }
    if ls.contains(b as usize) {
        let w = choose|w: int| 0 <= w < ls.len() && ls[w] == b as usize;
        assert(nodes[ls[w] as int].is_leaf);
    }
    let pa = p2p_partners(nodes, touching, a);
    let pb = p2p_partners(nodes, touching, b);
    let ra = touching_among(touching, a as usize, ls);
    let rb = touching_among(touching, b as usize, ls);
    if nodes[a].is_leaf {
        assert(pa == seq![a as u32].add(ra));
        if pa.contains(b as u32) {
            let t = choose|t: int| 0 <= t < pa.len() && pa[t] == b as u32;
            assert(t != 0);
            assert(ra[t - 1] == b as u32);
            assert(ra.contains(b as u32));
        }
        if ra.contains(b as u32) {
            let t = choose|t: int| 0 <= t < ra.len() && ra[t] == b as u32;
            assert(pa[t + 1] == b as u32);
        }
    }
    if nodes[b].is_leaf {
        assert(pb == seq![b as u32].add(rb));
        if pb.contains(a as u32) {
            let t = choose|t: int| 0 <= t < pb.len() && pb[t] == a as u32;
            assert(t != 0);
            assert(rb[t - 1] == a as u32);
            assert(rb.contains(a as u32));
        }
        if rb.contains(a as u32) {
            let t = choose|t: int| 0 <= t < rb.len() && rb[t] == a as u32;
            assert(pb[t + 1] == a as u32);
        }
    }
}

/// Entries of `ids_at_level` are node ids below `upto`.
proof fn lemma_ids_at_level(nodes: Seq<Node>, lv: int, upto: int)
    requires
        upto <= nodes.len() <= usize::MAX,
    ensures
        forall|w: int|
            0 <= w < ids_at_level(nodes, lv, upto).len() ==> #[trigger] ids_at_level(nodes, lv, upto)[w]
                < upto,
    decreases upto,
{
    if upto > 0 {
        lemma_ids_at_level(nodes, lv, upto - 1);
        let prev = ids_at_level(nodes, lv, upto - 1);
        let cur = ids_at_level(nodes, lv, upto);
        assert forall|w: int| 0 <= w < cur.len() implies #[trigger] cur[w] < upto by {
            if w < prev.len() {
                assert(cur[w] == prev[w]);
            }
        }
    }
}

/// Every leaf kept by `touching_among` is a leaf of `ls` other than `a`
/// that touches `a`.
proof fn lemma_touching_among(touching: impl Fn(usize, usize) -> bool, a: usize, ls: Seq<usize>)
    requires
        forall|w: int| 0 <= w < ls.len() ==> #[trigger] ls[w] < u32::MAX,
    ensures
        forall|k: int|
            0 <= k < touching_among(touching, a, ls).len() ==> {
                let b = #[trigger] touching_among(touching, a, ls)[k];
                &&& ls.contains(b as usize)
                &&& b as usize != a
                &&& touches(touching, a, b as usize)
            },
    decreases ls.len(),
{
    if ls.len() > 0 {
        let init = ls.drop_last();
        lemma_touching_among(touching, a, init);
        let cur = touching_among(touching, a, ls);
        assert forall|k: int| 0 <= k < cur.len() implies {
            let b = #[trigger] cur[k];
            &&& ls.contains(b as usize)
            &&& b as usize != a
            &&& touches(touching, a, b as usize)
        } by {
            let prev = touching_among(touching, a, init);
            if k < prev.len() {
                assert(cur[k] == prev[k]);
                let b = prev[k];
                let w = choose|w: int| 0 <= w < init.len() && #[trigger] init[w] == b as usize;
                assert(ls[w] == b as usize);
            } else {
                assert(ls[ls.len() - 1] == ls.last());
            }
        }
    }
}

/// Near-field lists: a leaf lists itself first, then only other leaves
/// whose cells touch its cell; other nodes list nothing.
pub proof fn law_p2p_partners_touch(
    nodes: Seq<Node>,
    touching: impl Fn(usize, usize) -> bool,
    a: int,
)
    requires
        nodes.len() < u32::MAX,
        0 <= a < nodes.len(),
    ensures
        nodes[a].is_leaf ==> p2p_partners(nodes, touching, a)[0] == a,
        !nodes[a].is_leaf ==> p2p_partners(nodes, touching, a).len() == 0,
        forall|k: int|
            1 <= k < p2p_partners(nodes, touching, a).len() ==> {
                let b = #[trigger] p2p_partners(nodes, touching, a)[k] as int;
                &&& 0 <= b < nodes.len()
                &&& b != a
                &&& nodes[b].is_leaf
                &&& touches(touching, a as usize, b as usize)
            },
{
    if nodes[a].is_leaf {
        let ls = leaf_seq(nodes, nodes.len() as int);
        lemma_leaf_seq_facts(nodes, nodes.len() as int);
        lemma_touching_among(touching, a as usize, ls);
        let rest = touching_among(touching, a as usize, ls);
        assert forall|k: int| 1 <= k < p2p_partners(nodes, touching, a).len() implies {
            let b = #[trigger] p2p_partners(nodes, touching, a)[k] as int;
            &&& 0 <= b < nodes.len()
            &&& b != a
            &&& nodes[b].is_leaf
            &&& touches(touching, a as usize, b as usize)
        } by {
            assert(p2p_partners(nodes, touching, a)[k] == rest[k - 1]);
            let b = rest[k - 1];
            let w = choose|w: int| 0 <= w < ls.len() && #[trigger] ls[w] == b as usize;
            assert(ls[w] < nodes.len());
        }
    }
}

/// Every entry of `leaf_seq` is a leaf below `upto`.
proof fn lemma_leaf_seq_facts(nodes: Seq<Node>, upto: int)
    requires
        upto <= nodes.len() <= usize::MAX,
    ensures
        forall|w: int|
            0 <= w < leaf_seq(nodes, upto).len() ==> (#[trigger] leaf_seq(nodes, upto)[w]) < upto
                && nodes[leaf_seq(nodes, upto)[w] as int].is_leaf,
        leaf_seq(nodes, upto).len() <= if upto < 0 { 0 } else { upto },
    decreases upto,
{
    if upto > 0 {
        lemma_leaf_seq_facts(nodes, upto - 1);
        let prev = leaf_seq(nodes, upto - 1);
        let cur = leaf_seq(nodes, upto);
        assert forall|w: int| 0 <= w < cur.len() implies (#[trigger] cur[w]) < upto
            && nodes[cur[w] as int].is_leaf by {
            if w < prev.len() {
                assert(cur[w] == prev[w]);
            } else {
                assert(nodes[upto - 1].is_leaf);
                assert(cur == prev.push((upto - 1) as usize));
                assert(cur[w] as int == upto - 1);
            }
        }
    }
}

/// Every leaf below `upto` is in `leaf_seq`.
proof fn lemma_leaf_in_seq(nodes: Seq<Node>, upto: int, q: int)
    requires
        0 <= q < upto,
        nodes[q].is_leaf,
    ensures
        leaf_seq(nodes, upto).contains(q as usize),
    decreases upto,
{
    if q < upto - 1 {
        lemma_leaf_in_seq(nodes, upto - 1, q);
        let w = choose|w: int|
            0 <= w < leaf_seq(nodes, upto - 1).len() && #[trigger] leaf_seq(nodes, upto - 1)[w]
                == q as usize;
        if nodes[upto - 1].is_leaf {
            assert(leaf_seq(nodes, upto)[w] == q as usize);
        }
    } else {
        let s = leaf_seq(nodes, upto);
        assert(s[s.len() - 1] == q as usize);
    }
}

} // verus!
