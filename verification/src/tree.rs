//! Bottom-up quadtree topology over Morton-sorted bodies: leaves are
//! contiguous body ranges, parents merge up to four consecutive nodes of
//! one round whose Morton keys share the prefix of that round.
use vstd::prelude::*;

verus! {

/// One cell of the tree: its contiguous body range `[body_start, body_end)`,
/// up to four children (a prefix of `Some`), its parent, and whether it is
/// a leaf.
#[derive(Clone, Copy)]
pub struct Node {
    pub body_start: usize,
    pub body_end: usize,
    pub children: [Option<usize>; 4],
    pub parent: Option<usize>,
    pub is_leaf: bool,
}

/// The tree: its nodes (leaves first, then each round of parents, the
/// root last) and the leaf capacity it was built with.
pub struct Tree {
    pub nodes: Vec<Node>,
    pub n_max: usize,
}

/// `4^e`.
pub open spec fn pow4(e: nat) -> nat
    decreases e,
{
    if e == 0 {
        1
    } else {
        4 * pow4((e - 1) as nat)
    }
}

/// The most leaves a tree can have: with 42-bit keys, eleven rounds of
/// full grouping remain once every key prefix has become zero.
pub open spec fn max_leaves() -> nat {
    pow4(11)
}

/// `max_leaves()` as a machine integer.
pub const MAX_LEAVES: usize = 4194304;

/// `ranges` cuts `[0, n)` into consecutive non-empty pieces, in order.
pub open spec fn ranges_tile(ranges: Seq<(usize, usize)>, n: int) -> bool {
    &&& (n == 0 <==> ranges.len() == 0)
    &&& ranges.len() > 0 ==> ranges[0].0 == 0 && ranges[ranges.len() - 1].1 == n
    &&& forall|i: int| 0 <= i < ranges.len() ==> #[trigger] ranges[i].0 < ranges[i].1
    &&& forall|i: int| 0 < i < ranges.len() ==> #[trigger] ranges[i].0 == ranges[i - 1].1
}

/// The leaf ranges of `Tree::build`: chunks of `n_max` bodies, the last
/// one possibly shorter.
pub open spec fn chunk_ranges(n: int, n_max: int) -> Seq<(usize, usize)> {
    Seq::new(
        ((n + n_max - 1) / n_max) as nat,
        |i: int|
            (
                (i * n_max) as usize,
                if (i + 1) * n_max <= n {
                    ((i + 1) * n_max) as usize
                } else {
                    n as usize
                },
            ),
    )
}

/// Cuts `[0, n)` into consecutive ranges of `n_max` bodies (the last one
/// holds the rest).
pub fn leaf_ranges(n: usize, n_max: usize) -> (ranges: Vec<(usize, usize)>)
    requires
        n_max > 0,
        n + n_max <= usize::MAX,
    ensures
        ranges@ == chunk_ranges(n as int, n_max as int),
        ranges_tile(ranges@, n as int),
{
    let mut ranges: Vec<(usize, usize)> = Vec::new();
    let mut range_start: usize = 0;
    assert(ranges.len() * n_max == 0) by (nonlinear_arith)
        requires
            ranges.len() == 0,
    ;
    if n == 0 {
        assert((n + n_max - 1) / (n_max as int) == 0) by (nonlinear_arith)
            requires
                n == 0,
                n_max > 0,
        ;
    }
    while range_start < n
        invariant
            n_max > 0,
            n + n_max <= usize::MAX,
            range_start <= n,
            range_start == ranges.len() * n_max || range_start == n,
            range_start < n ==> range_start == ranges.len() * n_max,
            range_start == n ==> ranges.len() == (n + n_max - 1) / (n_max as int),
            range_start < n ==> ranges.len() * n_max < n,
            forall|i: int|
                0 <= i < ranges.len() ==> #[trigger] ranges@[i] == (
                    (i * n_max) as usize,
                    if (i + 1) * n_max <= n {
                        ((i + 1) * n_max) as usize
                    } else {
                        n as usize
                    },
                ),
            ranges.len() > 0 ==> ranges@[ranges.len() - 1].1 == range_start,
        decreases n - range_start,
    {
        let range_end = if range_start + n_max < n { range_start + n_max } else { n };
        proof {
            let k = ranges.len() as int;
            assert(range_start == k * n_max);
            assert((k + 1) * n_max == k * n_max + n_max) by (nonlinear_arith);
            if range_end == n {
                assert(n <= (k + 1) * n_max);
                assert((n + n_max - 1) / (n_max as int) == k + 1) by (nonlinear_arith)
                    requires
                        k * n_max < n,
                        n <= (k + 1) * n_max,
                        n_max > 0,
                ;
            }
        }
        ranges.push((range_start, range_end));
        range_start = range_end;
    }
    proof {
        if n == 0 {
            assert((n + n_max - 1) / (n_max as int) == 0) by (nonlinear_arith)
                requires
                    n == 0,
                    n_max > 0,
            ;
        }
        assert forall|i: int| 0 <= i < ranges.len() implies #[trigger] ranges@[i].0 < ranges@[i].1 by {
            assert(i * n_max < n) by (nonlinear_arith)
                requires
                    0 <= i < ranges.len(),
                    ranges.len() == (n + n_max - 1) / (n_max as int),
                    n_max > 0,
            ;
            assert(i * n_max < (i + 1) * n_max) by (nonlinear_arith)
                requires
                    n_max > 0,
            ;
        }
        assert forall|i: int| 0 < i < ranges.len() implies #[trigger] ranges@[i].0 == ranges@[i
            - 1].1 by {
            assert((i - 1 + 1) * n_max == i * n_max);
            assert(i * n_max < n) by (nonlinear_arith)
                requires
                    0 <= i < ranges.len(),
                    ranges.len() == (n + n_max - 1) / (n_max as int),
                    n_max > 0,
            ;
        }
        if n > 0 {
            assert((n + n_max - 1) / (n_max as int) >= 1) by (nonlinear_arith)
                requires
                    n > 0,
                    n_max > 0,
            ;
        }
        if ranges.len() > 0 {
            assert(ranges@[0].0 == 0);
        }
        assert(ranges@ =~= chunk_ranges(n as int, n_max as int));
    }
    ranges
}

/// Number of children of a node (its children are a prefix of `Some`).
pub open spec fn kid_count(n: Node) -> int {
    if n.children[3] is Some {
        4
    } else if n.children[2] is Some {
        3
    } else if n.children[1] is Some {
        2
    } else if n.children[0] is Some {
        1
    } else {
        0
    }
}

/// Id of the first child (`-1` for a node without children).
pub open spec fn first_kid(n: Node) -> int {
    match n.children[0] {
        Some(c) => c as int,
        None => -1,
    }
}

/// Id of the last child.
pub open spec fn last_kid(n: Node) -> int {
    first_kid(n) + kid_count(n) - 1
}

/// The children of `n` are one to four consecutive ids, listed in order
/// and followed by `None`.
pub open spec fn kids_contiguous(n: Node) -> bool {
    &&& 1 <= kid_count(n) <= 4
    &&& forall|k: int|
        0 <= k < 4 ==> (k < kid_count(n) ==> #[trigger] n.children[k] is Some
            && n.children[k].unwrap() == first_kid(n) + k) && (k >= kid_count(n)
            ==> n.children[k] is None)
}

/// `n` is the leaf for body range `r`.
pub open spec fn leaf_for(n: Node, r: (usize, usize)) -> bool {
    &&& n.is_leaf
    &&& n.body_start == r.0
    &&& n.body_end == r.1
    &&& forall|k: int| 0 <= k < 4 ==> #[trigger] n.children[k] is None
}

/// The grouping round in which node `id` was made: 0 for the leaves, one
/// more than its children's round for a parent.
pub open spec fn round(nodes: Seq<Node>, n_leaves: int, id: int) -> int
    decreases id,
{
    if id < n_leaves {
        0
    } else {
        let c = first_kid(nodes[id]);
        if 0 <= c < id {
            round(nodes, n_leaves, c) + 1
        } else {
            0
        }
    }
}

/// Morton key of the first body of node `id`, with its lowest `shift`
/// bits dropped.
pub open spec fn key_prefix(keys: Seq<u64>, nodes: Seq<Node>, id: int, shift: int) -> u64 {
    keys[nodes[id].body_start as int] >> (shift as u64)
}

/// The prefix shift used to group the nodes of round `r`.
pub open spec fn round_shift(r: int) -> int {
    2 * (r + 1)
}

/// Parent `p` merges a maximal run of consecutive nodes of one round that
/// share the Morton prefix of that round: the run stops at four nodes, at
/// the end of the round, or at the first node with another prefix. A
/// round with a single node makes no parent.
#[verifier::opaque]
pub open spec fn parent_ok(nodes: Seq<Node>, keys: Seq<u64>, n_leaves: int, p: int) -> bool {
    let n = nodes[p];
    let f = first_kid(n);
    let l = last_kid(n);
    let sh = round_shift(round(nodes, n_leaves, f));
    &&& !n.is_leaf
    &&& kids_contiguous(n)
    &&& 0 <= f
    &&& l < p
    &&& n.body_start == nodes[f].body_start
    &&& n.body_end == nodes[l].body_end
    &&& forall|k: int| f <= k < l ==> #[trigger] nodes[k + 1].body_start == nodes[k].body_end
    &&& round(nodes, n_leaves, l) == round(nodes, n_leaves, f)
    &&& forall|k: int| f <= k <= l ==> #[trigger] nodes[k].parent == Some(p as usize)
    &&& forall|k: int|
        f <= k <= l ==> #[trigger] key_prefix(keys, nodes, k, sh) == key_prefix(keys, nodes, f, sh)
    &&& (kid_count(n) == 4 || round(nodes, n_leaves, l + 1) != round(nodes, n_leaves, l)
        || key_prefix(keys, nodes, l + 1, sh) != key_prefix(keys, nodes, f, sh))
    &&& (kid_count(n) >= 2 || (f > 0 && round(nodes, n_leaves, f - 1) == round(nodes, n_leaves, f))
        || round(nodes, n_leaves, l + 1) == round(nodes, n_leaves, f))
}

/// `nodes` is the tree that bottom-up Morton grouping makes over the leaf
/// ranges `ranges` with body keys `keys`: the leaves come first, in range
/// order; then the parents, each merging the next run of nodes, round by
/// round, until one node (the root, last) is left alone in its round.
pub open spec fn morton_hierarchy(
    nodes: Seq<Node>,
    keys: Seq<u64>,
    ranges: Seq<(usize, usize)>,
) -> bool {
    let nl = ranges.len() as int;
    let nn = nodes.len() as int;
    &&& nl <= nn
    &&& (nl == 0 ==> nn == 0)
    &&& forall|i: int| 0 <= i < nl ==> #[trigger] leaf_for(nodes[i], ranges[i])
    &&& forall|p: int| nl <= p < nn ==> #[trigger] parent_ok(nodes, keys, nl, p)
    &&& nn > nl ==> first_kid(nodes[nl]) == 0 && last_kid(nodes[nn - 1]) == nn - 2
    &&& kids_chained(nodes, nl, nn)
    &&& nn > 0 ==> nodes[nn - 1].parent is None
    &&& nn > 0 ==> nodes[nn - 1].body_start == 0 && nodes[nn - 1].body_end == keys.len()
    &&& nn > 1 ==> round(nodes, nl, nn - 2) != round(nodes, nl, nn - 1)
    &&& forall|k: int|
        0 <= k < nn ==> #[trigger] nodes[k].body_start < nodes[k].body_end <= keys.len()
    &&& forall|k: int|
        0 <= k < nn - 1 ==> #[trigger] nodes[k].parent is Some && k < nodes[k].parent.unwrap()
            < nn
}

/// `round` of a node only depends on the children of nodes up to it.
pub proof fn lemma_round_frame(s1: Seq<Node>, s2: Seq<Node>, n_leaves: int, id: int)
    requires
        0 <= id,
        forall|k: int| 0 <= k <= id ==> #[trigger] s1[k].children == s2[k].children,
    ensures
        round(s1, n_leaves, id) == round(s2, n_leaves, id),
    decreases id,
{
    if id >= n_leaves {
        let c = first_kid(s1[id]);
        assert(s1[id].children == s2[id].children);
        if 0 <= c < id {
            lemma_round_frame(s1, s2, n_leaves, c);
        }
    }
}

/// A parent's well-formedness is kept when only nodes past its children
/// change, and no child list or body start of an older node changes.
pub proof fn lemma_parent_ok_frame(
    s1: Seq<Node>,
    s2: Seq<Node>,
    keys: Seq<u64>,
    n_leaves: int,
    p: int,
    a: int,
    b: int,
)
    requires
        0 <= p < b,
        a <= b,
        b <= s1.len(),
        b <= s2.len(),
        parent_ok(s1, keys, n_leaves, p),
        last_kid(s1[p]) < a,
        forall|k: int| 0 <= k < a ==> #[trigger] s2[k] == s1[k],
        forall|k: int|
            0 <= k < b ==> (#[trigger] s2[k]).children == s1[k].children && s2[k].body_start
                == s1[k].body_start && s2[k].body_end == s1[k].body_end,
        s2[p].is_leaf == s1[p].is_leaf,
        s2[p].body_end == s1[p].body_end,
    ensures
        parent_ok(s2, keys, n_leaves, p),
{
    reveal(parent_ok);
    let n = s1[p];
    let f = first_kid(n);
    let l = last_kid(n);
    assert(s2[p].children == s1[p].children);
    assert(s2[p].body_start == s1[p].body_start);
    assert forall|k: int| 0 <= k < b implies round(s1, n_leaves, k) == round(s2, n_leaves, k) by {
        assert forall|j: int| 0 <= j <= k implies #[trigger] s1[j].children == s2[j].children by {
            assert(s2[j].children == s1[j].children);
        }
        lemma_round_frame(s1, s2, n_leaves, k);
    }
    let sh = round_shift(round(s1, n_leaves, f));
    assert(round(s1, n_leaves, f) == round(s2, n_leaves, f));
    assert(round(s1, n_leaves, l) == round(s2, n_leaves, l));
    assert(round(s1, n_leaves, l + 1) == round(s2, n_leaves, l + 1));
    assert(f > 0 ==> round(s1, n_leaves, f - 1) == round(s2, n_leaves, f - 1));
    assert forall|k: int| f <= k <= l + 1 implies key_prefix(keys, s1, k, sh) == key_prefix(
        keys,
        s2,
        k,
        sh,
    ) by {
        assert(s2[k].body_start == s1[k].body_start);
    }
    assert forall|k: int| f <= k < l implies #[trigger] s2[k + 1].body_start == s2[k].body_end by {
        assert(s2[k + 1].body_start == s1[k + 1].body_start);
        assert(s2[k].body_end == s1[k].body_end);
        assert(s1[k + 1].body_start == s1[k].body_end);
    }
    assert forall|k: int| f <= k <= l implies #[trigger] s2[k].parent == Some(p as usize) by {
        assert(s2[k] == s1[k]);
        assert(s1[k].parent == Some(p as usize));
    }
    assert forall|k: int| f <= k <= l implies #[trigger] key_prefix(keys, s2, k, sh) == key_prefix(
        keys,
        s2,
        f,
        sh,
    ) by {
        assert(key_prefix(keys, s1, k, sh) == key_prefix(keys, s1, f, sh));
    }
}

pub proof fn lemma_max_leaves_value()
    ensures
        max_leaves() == 4194304,
{
    reveal_with_fuel(pow4, 12);
}

proof fn lemma_pow4_ge_one(e: nat)
    ensures
        pow4(e) >= 1,
    decreases e,
{
    if e > 0 {
        lemma_pow4_ge_one((e - 1) as nat);
    }
}

proof fn lemma_pow4_mono(a: nat, b: nat)
    requires
        a <= b,
    ensures
        pow4(a) <= pow4(b),
    decreases b,
{
    if a < b {
        lemma_pow4_mono(a, (b - 1) as nat);
        lemma_pow4_ge_one((b - 1) as nat);
    }
}

/// Grouping `c` nodes into runs of four (the last possibly shorter) leaves
/// at most a quarter as many, rounded up.
proof fn lemma_quarter(c: int, g: int, e: nat)
    requires
        e >= 1,
        4 * g - 3 <= c,
        c <= pow4(e),
    ensures
        g <= pow4((e - 1) as nat),
{
    assert(pow4(e) == 4 * pow4((e - 1) as nat));
}

/// A 42-bit key has no bits left after a shift of 42 or more.
proof fn lemma_key_prefix_zero(k: u64, s: u32)
    requires
        k < 0x40000000000u64,
        42 <= s < 64,
    ensures
        k >> s == 0,
{
    assert(k >> s == 0u64) by (bit_vector)
        requires
            k < 0x40000000000u64,
            42 <= s < 64,
    ;
}

/// `n` with its parent set to `p`.
pub open spec fn with_parent(n: Node, p: usize) -> Node {
    Node { parent: Some(p), ..n }
}

/// Makes node `old(nodes).len()` the parent of nodes `[i, j)`.
fn attach_parent(nodes: &mut Vec<Node>, i: usize, j: usize)
    requires
        i < j,
        j - i <= 4,
        j <= old(nodes).len(),
        old(nodes).len() < usize::MAX,
    ensures
        final(nodes).len() == old(nodes).len() + 1,
        forall|k: int|
            0 <= k < old(nodes).len() && !(i <= k < j) ==> #[trigger] final(nodes)@[k]
                == old(nodes)@[k],
        forall|k: int|
            i <= k < j ==> #[trigger] final(nodes)@[k] == with_parent(old(nodes)@[k], old(nodes).len()),
        !final(nodes)@[old(nodes).len() as int].is_leaf,
        final(nodes)@[old(nodes).len() as int].parent is None,
        final(nodes)@[old(nodes).len() as int].body_start == old(nodes)@[i as int].body_start,
        final(nodes)@[old(nodes).len() as int].body_end == old(nodes)@[j - 1].body_end,
        kids_contiguous(final(nodes)@[old(nodes).len() as int]),
        first_kid(final(nodes)@[old(nodes).len() as int]) == i,
        kid_count(final(nodes)@[old(nodes).len() as int]) == j - i,
{
    let pid: usize = nodes.len();
    let mut si: usize = i;
    while si < j
        invariant
            i <= si <= j,
            j <= nodes.len(),
            nodes.len() == old(nodes).len(),
            pid == old(nodes).len(),
            forall|k: int|
                0 <= k < old(nodes).len() && !(i <= k < si) ==> #[trigger] nodes@[k] == old(
                    nodes,
                )@[k],
            forall|k: int|
                i <= k < si ==> #[trigger] nodes@[k] == with_parent(old(nodes)@[k], old(nodes).len()),
        decreases j - si,
    {
        let nd: Node = nodes[si];
        nodes.set(si, Node { parent: Some(pid), ..nd });
        si = si + 1;
    }
    let start: usize = nodes[i].body_start;
    let end: usize = nodes[j - 1].body_end;
    let c1: Option<usize> = if j - i > 1 { Some(i + 1) } else { None };
    let c2: Option<usize> = if j - i > 2 { Some(i + 2) } else { None };
    let c3: Option<usize> = if j - i > 3 { Some(i + 3) } else { None };
    nodes.push(
        Node {
            body_start: start,
            body_end: end,
            children: [Some(i), c1, c2, c3],
            parent: None,
            is_leaf: false,
        },
    );
    proof {
        let p = nodes@[pid as int];
        assert(p.children[0] == Some(i));
        assert(p.children[1] == c1);
        assert(p.children[2] == c2);
        assert(p.children[3] == c3);
    }
}

/// Each parent in `(lo, hi)` takes its children right after those of the
/// parent before it.
pub open spec fn kids_chained(nodes: Seq<Node>, lo: int, hi: int) -> bool {
    forall|p: int, q: int|
        #![trigger nodes[p], nodes[q]]
        lo <= q && p == q + 1 && p < hi ==> first_kid(nodes[p]) == last_kid(nodes[q]) + 1
}

/// The body ranges of nodes `[lo, hi)` follow one another.
pub open spec fn bodies_chained(nodes: Seq<Node>, lo: int, hi: int) -> bool {
    forall|p: int, q: int|
        #![trigger nodes[p].body_start, nodes[q].body_end]
        lo <= q && p == q + 1 && p < hi ==> nodes[p].body_start == nodes[q].body_end
}

/// State of the bottom-up build between rounds: nodes `[cs, ce)` form
/// round `r`, still without parents; everything before them is finished.
pub open spec fn built_through(
    nodes: Seq<Node>,
    keys: Seq<u64>,
    ranges: Seq<(usize, usize)>,
    cs: int,
    ce: int,
    r: int,
) -> bool {
    let nl = ranges.len() as int;
    &&& ce == nodes.len()
    &&& r >= 0
    &&& 0 <= cs <= ce
    &&& nl > 0 ==> cs < ce
    &&& nl == 0 ==> ce == 0
    &&& nl <= ce
    &&& r == 0 ==> cs == 0 && ce == nl
    &&& r > 0 ==> cs >= nl
    &&& forall|q: int| 0 <= q < nl ==> #[trigger] leaf_for(nodes[q], ranges[q])
    &&& forall|p: int| nl <= p < ce ==> #[trigger] parent_ok(nodes, keys, nl, p)
    &&& ce > nl ==> first_kid(nodes[nl]) == 0 && last_kid(nodes[ce - 1]) == cs - 1
    &&& kids_chained(nodes, nl, ce)
    &&& forall|k: int| cs <= k < ce ==> (#[trigger] nodes[k]).parent is None
    &&& forall|k: int| cs <= k < ce ==> #[trigger] round(nodes, nl, k) == r
    &&& forall|k: int| 0 <= k < cs ==> #[trigger] round(nodes, nl, k) < r
    &&& forall|k: int|
        0 <= k < cs ==> #[trigger] nodes[k].parent is Some && k < nodes[k].parent.unwrap() < ce
    &&& forall|k: int|
        0 <= k < ce ==> #[trigger] nodes[k].body_start < nodes[k].body_end <= keys.len()
    &&& bodies_chained(nodes, cs, ce)
    &&& cs < ce ==> nodes[cs].body_start == 0 && nodes[ce - 1].body_end == keys.len()
}

/// State in the middle of round `r`: nodes `[cs, i)` have been grouped
/// into the new parents `[ce, nodes.len())`.
pub open spec fn grouping_through(
    nodes: Seq<Node>,
    keys: Seq<u64>,
    ranges: Seq<(usize, usize)>,
    cs: int,
    ce: int,
    i: int,
    r: int,
) -> bool {
    let nl = ranges.len() as int;
    let len = nodes.len() as int;
    &&& 0 < nl <= ce <= len
    &&& 0 <= cs
    &&& r >= 0
    &&& ce - cs >= 2
    &&& cs <= i <= ce
    &&& r == 0 ==> cs == 0 && ce == nl
    &&& r > 0 ==> cs >= nl
    &&& len == ce ==> i == cs
    &&& len > ce ==> first_kid(nodes[ce]) == cs && last_kid(nodes[len - 1]) == i - 1
    &&& ce > nl ==> first_kid(nodes[nl]) == 0 && last_kid(nodes[ce - 1]) == cs - 1
    &&& forall|q: int| 0 <= q < nl ==> #[trigger] leaf_for(nodes[q], ranges[q])
    &&& forall|p: int| nl <= p < len ==> #[trigger] parent_ok(nodes, keys, nl, p)
    &&& forall|p: int| nl <= p < len ==> last_kid(#[trigger] nodes[p]) < i
    &&& kids_chained(nodes, nl, len)
    &&& forall|k: int| i <= k < ce ==> (#[trigger] nodes[k]).parent is None
    &&& forall|k: int| cs <= k < ce ==> #[trigger] round(nodes, nl, k) == r
    &&& forall|k: int|
        ce <= k < len ==> #[trigger] round(nodes, nl, k) == r + 1 && nodes[k].parent is None
    &&& forall|k: int| 0 <= k < cs ==> #[trigger] round(nodes, nl, k) < r
    &&& forall|k: int|
        0 <= k < i ==> #[trigger] nodes[k].parent is Some && k < nodes[k].parent.unwrap() < len
    &&& forall|k: int|
        0 <= k < len ==> #[trigger] nodes[k].body_start < nodes[k].body_end <= keys.len()
    &&& bodies_chained(nodes, cs, ce)
    &&& bodies_chained(nodes, ce, len)
    &&& len > ce ==> nodes[ce].body_start == nodes[cs].body_start && nodes[len - 1].body_end
        == nodes[i - 1].body_end
    &&& nodes[cs].body_start == 0 && nodes[ce - 1].body_end == keys.len()
}

proof fn lemma_round_begins(
    nodes: Seq<Node>,
    keys: Seq<u64>,
    ranges: Seq<(usize, usize)>,
    cs: int,
    ce: int,
    r: int,
)
    requires
        built_through(nodes, keys, ranges, cs, ce, r),
        ce - cs >= 2,
    ensures
        grouping_through(nodes, keys, ranges, cs, ce, cs, r),
{
    let nl = ranges.len() as int;
    let len = nodes.len() as int;
    assert forall|p: int| nl <= p < ce implies last_kid(#[trigger] nodes[p]) < cs by {
        lemma_last_kid_below(nodes, keys, nl, ce, p);
    }
    assert forall|k: int| cs <= k < ce implies #[trigger] round(nodes, nl, k) == r by {
        assert(nodes[k].parent is None && round(nodes, nl, k) == r);
    }
    assert forall|k: int| cs <= k < ce implies (#[trigger] nodes[k]).parent is None by {
        assert(nodes[k].parent is None && round(nodes, nl, k) == r);
    }
    assert forall|k: int|
        ce <= k < len implies #[trigger] round(nodes, nl, k) == r + 1 && nodes[k].parent is None by {}
}

/// Along the parent chain, last children grow with the parent id.
proof fn lemma_last_kid_below(nodes: Seq<Node>, keys: Seq<u64>, nl: int, top: int, p: int)
    requires
        nl <= p < top,
        top <= nodes.len(),
        forall|q: int| nl <= q < top ==> #[trigger] parent_ok(nodes, keys, nl, q),
        kids_chained(nodes, nl, top),
    ensures
        last_kid(nodes[p]) <= last_kid(nodes[top - 1]),
    decreases top - p,
{
    if p < top - 1 {
        lemma_last_kid_below(nodes, keys, nl, top, p + 1);
        assert(parent_ok(nodes, keys, nl, p + 1));
        reveal(parent_ok);
        assert(kids_contiguous(nodes[p + 1]));
        assert(nodes[p + 1] == nodes[p + 1] && nodes[p] == nodes[p]);
        assert(first_kid(nodes[p + 1]) == last_kid(nodes[p]) + 1);
    }
}

#[verifier::rlimit(60)]
proof fn lemma_round_ends(
    nodes: Seq<Node>,
    keys: Seq<u64>,
    ranges: Seq<(usize, usize)>,
    cs: int,
    ce: int,
    r: int,
)
    requires
        grouping_through(nodes, keys, ranges, cs, ce, ce, r),
    ensures
        built_through(nodes, keys, ranges, ce, nodes.len() as int, r + 1),
{
    let nl = ranges.len() as int;
    let len = nodes.len() as int;
    assert forall|k: int| 0 <= k < ce implies #[trigger] round(nodes, nl, k) < r + 1 by {
        if k >= cs {
            assert(round(nodes, nl, k) == r);
        } else {
            assert(round(nodes, nl, k) < r);
        }
    }
    assert forall|k: int| ce <= k < len implies #[trigger] round(nodes, nl, k) == r + 1 by {
        assert(round(nodes, nl, k) == r + 1 && nodes[k].parent is None);
    }
    assert forall|k: int| ce <= k < len implies (#[trigger] nodes[k]).parent is None by {
        assert(round(nodes, nl, k) == r + 1 && nodes[k].parent is None);
    }
    assert(len > ce);
    if ce > nl {
        assert(first_kid(nodes[nl]) == 0);
    } else {
        assert(cs == 0);
        assert(first_kid(nodes[ce]) == cs);
    }
    assert(last_kid(nodes[len - 1]) == ce - 1);
}

/// After attaching a parent to `[i, j)`, older nodes keep their children,
/// bodies and rounds.
proof fn lemma_step_shape(b: Seq<Node>, a: Seq<Node>, nl: int, i: int, j: int)
    requires
        0 <= i < j <= b.len(),
        a.len() == b.len() + 1,
        forall|k: int| 0 <= k < b.len() && !(i <= k < j) ==> #[trigger] a[k] == b[k],
        forall|k: int| i <= k < j ==> #[trigger] a[k] == with_parent(b[k], b.len() as usize),
    ensures
        forall|k: int|
            0 <= k < b.len() ==> (#[trigger] a[k]).children == b[k].children && a[k].body_start
                == b[k].body_start && a[k].body_end == b[k].body_end && a[k].is_leaf
                == b[k].is_leaf,
        forall|k: int| 0 <= k < b.len() ==> #[trigger] round(a, nl, k) == round(b, nl, k),
{
    let pp = b.len() as int;
    assert forall|k: int| 0 <= k < pp implies (#[trigger] a[k]).children == b[k].children
        && a[k].body_start == b[k].body_start && a[k].body_end == b[k].body_end && a[k].is_leaf
        == b[k].is_leaf by {
        if i <= k < j {
            assert(a[k] == with_parent(b[k], pp as usize));
        }
    }
    assert forall|k: int| 0 <= k < pp implies #[trigger] round(a, nl, k) == round(b, nl, k) by {
        assert forall|m: int| 0 <= m <= k implies #[trigger] b[m].children == a[m].children by {
            assert(a[m].children == b[m].children);
        }
        lemma_round_frame(b, a, nl, k);
    }
}

/// Parents made before the step stay well formed.
proof fn lemma_step_old_parents(b: Seq<Node>, a: Seq<Node>, keys: Seq<u64>, nl: int, i: int, j: int)
    requires
        0 <= i < j <= b.len(),
        0 <= nl,
        a.len() == b.len() + 1,
        forall|k: int| 0 <= k < b.len() && !(i <= k < j) ==> #[trigger] a[k] == b[k],
        forall|k: int|
            0 <= k < b.len() ==> (#[trigger] a[k]).children == b[k].children && a[k].body_start
                == b[k].body_start && a[k].body_end == b[k].body_end && a[k].is_leaf
                == b[k].is_leaf,
        forall|p: int| nl <= p < b.len() ==> #[trigger] parent_ok(b, keys, nl, p),
        forall|p: int| nl <= p < b.len() ==> last_kid(#[trigger] b[p]) < i,
    ensures
        forall|p: int| nl <= p < b.len() ==> #[trigger] parent_ok(a, keys, nl, p),
{
    assert forall|p: int| nl <= p < b.len() implies #[trigger] parent_ok(a, keys, nl, p) by {
        assert(last_kid(b[p]) < i);
        assert(a[p].is_leaf == b[p].is_leaf);
        lemma_parent_ok_frame(b, a, keys, nl, p, i, b.len() as int);
    }
}

/// The effect of `attach_parent(nodes, i, j)`: `a` is `b` with the nodes
/// `[i, j)` given the new parent `b.len()`, which is pushed at the end.
pub open spec fn attached(b: Seq<Node>, a: Seq<Node>, i: int, j: int) -> bool {
    &&& a.len() == b.len() + 1
    &&& b.len() < usize::MAX
    &&& forall|k: int| 0 <= k < b.len() && !(i <= k < j) ==> #[trigger] a[k] == b[k]
    &&& forall|k: int| i <= k < j ==> #[trigger] a[k] == with_parent(b[k], b.len() as usize)
    &&& !a[b.len() as int].is_leaf
    &&& a[b.len() as int].parent is None
    &&& a[b.len() as int].body_start == b[i].body_start
    &&& a[b.len() as int].body_end == b[j - 1].body_end
    &&& kids_contiguous(a[b.len() as int])
    &&& first_kid(a[b.len() as int]) == i
    &&& kid_count(a[b.len() as int]) == j - i
}

/// The run `[i, j)` starts at `i`, shares the prefix of `i`, and stops at
/// four nodes, at the end of the round, or before another prefix.
pub open spec fn maximal_run(keys: Seq<u64>, b: Seq<Node>, ce: int, i: int, j: int, r: int) -> bool {
    &&& i < j <= ce
    &&& j - i <= 4
    &&& forall|k: int|
        i <= k < j ==> #[trigger] key_prefix(keys, b, k, round_shift(r)) == key_prefix(
            keys,
            b,
            i,
            round_shift(r),
        )
    &&& (j == ce || j - i == 4 || key_prefix(keys, b, j, round_shift(r)) != key_prefix(
        keys,
        b,
        i,
        round_shift(r),
    ))
}

/// The new parent of the run `[i, j)` is well formed and one round up.
#[verifier::rlimit(40)]
proof fn lemma_step_new_parent(
    b: Seq<Node>,
    a: Seq<Node>,
    keys: Seq<u64>,
    ranges: Seq<(usize, usize)>,
    cs: int,
    ce: int,
    i: int,
    j: int,
    r: int,
)
    requires
        grouping_through(b, keys, ranges, cs, ce, i, r),
        maximal_run(keys, b, ce, i, j, r),
        attached(b, a, i, j),
    ensures
        parent_ok(a, keys, ranges.len() as int, b.len() as int),
        round(a, ranges.len() as int, b.len() as int) == r + 1,
        forall|k: int|
            0 <= k < b.len() ==> (#[trigger] a[k]).children == b[k].children && a[k].body_start
                == b[k].body_start && a[k].body_end == b[k].body_end && a[k].is_leaf
                == b[k].is_leaf,
        forall|k: int| 0 <= k < b.len() ==> #[trigger] round(a, ranges.len() as int, k) == round(b, ranges.len() as int, k),
        a[b.len() as int].body_start < a[b.len() as int].body_end <= keys.len(),
{
    let nl = ranges.len() as int;
    let pp = b.len() as int;
    lemma_step_shape(b, a, nl, i, j);
    assert(round(a, nl, i) == r);
    assert(round(a, nl, pp) == r + 1);
    let sh = round_shift(r);
    assert(round(a, nl, j - 1) == r);
    assert forall|k: int| i <= k <= j - 1 implies #[trigger] a[k].parent == Some(pp as usize) by {
        assert(a[k] == with_parent(b[k], pp as usize));
    }
    assert forall|k: int| i <= k <= j - 1 implies #[trigger] key_prefix(keys, a, k, sh)
        == key_prefix(keys, a, i, sh) by {
        assert(a[k].body_start == b[k].body_start);
        assert(a[i].body_start == b[i].body_start);
        assert(key_prefix(keys, b, k, sh) == key_prefix(keys, b, i, sh));
    }
    if j < ce {
        assert(round(a, nl, j) == r);
        assert(a[j].body_start == b[j].body_start);
    } else {
        assert(round(a, nl, j) == r + 1);
    }
    if j - i == 1 {
        if i > cs {
            assert(round(a, nl, i - 1) == r);
        } else {
            assert(j < ce);
        }
    }
    assert forall|k: int| i <= k < j - 1 implies #[trigger] a[k + 1].body_start == a[k].body_end by {
        assert(b[k + 1].body_start == b[k].body_end);
    }
    assert(parent_ok(a, keys, nl, pp)) by {
        reveal(parent_ok);
    }
    assert(b[i].body_start < b[i].body_end);
    if j - i >= 2 {
        assert(b[i + 1].body_start == b[i].body_end);
    }
    if j - i >= 3 {
        assert(b[i + 2].body_start == b[i + 1].body_end);
    }
    if j - i >= 4 {
        assert(b[i + 3].body_start == b[i + 2].body_end);
    }
    assert(b[j - 1].body_end <= keys.len());
}

proof fn lemma_new_round_fact(
    b: Seq<Node>,
    keys: Seq<u64>,
    ranges: Seq<(usize, usize)>,
    cs: int,
    ce: int,
    i: int,
    r: int,
    k: int,
)
    requires
        grouping_through(b, keys, ranges, cs, ce, i, r),
        ce <= k < b.len(),
    ensures
        round(b, ranges.len() as int, k) == r + 1,
        b[k].parent is None,
{
    assert(round(b, ranges.len() as int, k) == r + 1);
}

/// Adding the parent of the run `[i, j)` keeps the grouping state.
#[verifier::rlimit(100)]
proof fn lemma_group_step(
    b: Seq<Node>,
    a: Seq<Node>,
    keys: Seq<u64>,
    ranges: Seq<(usize, usize)>,
    cs: int,
    ce: int,
    i: int,
    j: int,
    r: int,
)
    requires
        grouping_through(b, keys, ranges, cs, ce, i, r),
        maximal_run(keys, b, ce, i, j, r),
        attached(b, a, i, j),
    ensures
        grouping_through(a, keys, ranges, cs, ce, j, r),
{
    let nl = ranges.len() as int;
    let pp = b.len() as int;
    lemma_step_new_parent(b, a, keys, ranges, cs, ce, i, j, r);
    lemma_step_old_parents(b, a, keys, nl, i, j);
    if pp > ce {
        assert(b[pp - 1].body_end == b[i - 1].body_end);
        assert(b[i].body_start == b[i - 1].body_end);
        assert(last_kid(a[pp - 1]) == i - 1);
    } else {
        assert(i == cs);
        if ce > nl {
            assert(last_kid(a[ce - 1]) == cs - 1);
        }
    }
    assert forall|p: int| nl <= p < pp + 1 implies last_kid(#[trigger] a[p]) < j by {
        if p < pp {
            assert(last_kid(b[p]) < i);
        }
    }
    assert forall|k: int| 0 <= k < j implies #[trigger] a[k].parent is Some && k
        < a[k].parent.unwrap() < pp + 1 by {
        if k < i {
            assert(a[k] == b[k]);
            assert(b[k].parent is Some && k < b[k].parent.unwrap() < pp);
        } else {
            assert(a[k] == with_parent(b[k], pp as usize));
        }
    }
    assert forall|k: int| j <= k < ce implies (#[trigger] a[k]).parent is None by {
        assert(a[k] == b[k]);
    }
    assert forall|q: int| 0 <= q < nl implies #[trigger] leaf_for(a[q], ranges[q]) by {
        assert(leaf_for(b[q], ranges[q]));
        assert(a[q].children == b[q].children);
    }
    assert forall|p: int, q: int|
        #![trigger a[p], a[q]]
        nl <= q && p == q + 1 && p < pp + 1 implies first_kid(a[p]) == last_kid(a[q]) + 1 by {
        if p < pp {
            assert(b[p] == b[p] && b[q] == b[q]);
        }
    }
    assert forall|p: int, q: int|
        #![trigger a[p].body_start, a[q].body_end]
        cs <= q && p == q + 1 && p < ce implies a[p].body_start == a[q].body_end by {
        assert(b[p].body_start == b[p].body_start && b[q].body_end == b[q].body_end);
    }
    assert forall|p: int, q: int|
        #![trigger a[p].body_start, a[q].body_end]
        ce <= q && p == q + 1 && p < pp + 1 implies a[p].body_start == a[q].body_end by {
        if p < pp {
            assert(b[p].body_start == b[p].body_start && b[q].body_end == b[q].body_end);
        } else {
            assert(b[i].body_start == b[i - 1].body_end);
        }
    }
    assert(kids_chained(a, nl, pp + 1));
    assert(bodies_chained(a, cs, ce));
    assert(bodies_chained(a, ce, pp + 1));
    assert forall|p: int| nl <= p < pp + 1 implies #[trigger] parent_ok(a, keys, nl, p) by {
        if p < pp {
            assert(parent_ok(a, keys, nl, p));
        }
    }
    assert forall|k: int| cs <= k < ce implies #[trigger] round(a, nl, k) == r by {
        assert(round(b, nl, k) == r);
    }
    assert forall|k: int| 0 <= k < cs implies #[trigger] round(a, nl, k) < r by {
        assert(round(b, nl, k) < r);
    }
    assert forall|k: int| ce <= k < pp + 1 implies #[trigger] round(a, nl, k) == r + 1
        && a[k].parent is None by {
        if k < pp {
            lemma_new_round_fact(b, keys, ranges, cs, ce, i, r, k);
            assert(a[k] == b[k]);
        }
    }
    assert forall|k: int| 0 <= k < pp + 1 implies #[trigger] a[k].body_start < a[k].body_end
        <= keys.len() by {
        if k < pp {
            assert(b[k].body_start < b[k].body_end <= keys.len());
        }
    }
    assert(pp + 1 > ce);
    assert(first_kid(a[ce]) == cs);
    assert(last_kid(a[pp]) == j - 1);
    assert(a[ce].body_start == a[cs].body_start);
    assert(a[pp].body_end == a[j - 1].body_end);
    assert(a[cs].body_start == 0 && a[ce - 1].body_end == keys.len());
    if ce > nl {
        assert(first_kid(a[nl]) == 0);
        assert(last_kid(a[ce - 1]) == cs - 1);
    }
}

/// Runs one round: groups nodes `[cs, ce)` into new parents.
fn group_round(
    keys: &Vec<u64>,
    nodes: &mut Vec<Node>,
    cs: usize,
    ce: usize,
    group_shift: u32,
    Ghost(ranges): Ghost<Seq<(usize, usize)>>,
    Ghost(r): Ghost<int>,
)
    requires
        built_through(old(nodes)@, keys@, ranges, cs as int, ce as int, r),
        ce - cs >= 2,
        group_shift == round_shift(r),
        0 <= r <= 30,
        ce <= 32 * max_leaves(),
        forall|k: int| 0 <= k < keys.len() ==> #[trigger] keys[k] < 0x40000000000u64,
    ensures
        built_through(final(nodes)@, keys@, ranges, ce as int, final(nodes).len() as int, r + 1),
        final(nodes).len() - ce <= ce - cs,
        group_shift >= 42 ==> 4 * (final(nodes).len() - ce) - 3 <= ce - cs,
{
    let ghost nl: int = ranges.len() as int;
    proof {
        lemma_round_begins(nodes@, keys@, ranges, cs as int, ce as int, r);
        lemma_max_leaves_value();
    }
    let mut i: usize = cs;
    while i < ce
        invariant
            grouping_through(nodes@, keys@, ranges, cs as int, ce as int, i as int, r),
            cs <= i <= ce,
            ce - cs >= 2,
            ce <= 32 * max_leaves(),
            max_leaves() == 4194304,
            nodes.len() - ce <= i - cs,
            group_shift == round_shift(r),
            0 <= r <= 30,
            group_shift >= 42 ==> nodes.len() > ce ==> 4 * (nodes.len() - ce) - 3 <= i - cs,
            group_shift >= 42 ==> i - cs == 4 * (nodes.len() - ce) || i == ce,
            forall|k: int| 0 <= k < keys.len() ==> #[trigger] keys[k] < 0x40000000000u64,
        decreases ce - i,
    {
        let first_key: u64 = keys[nodes[i].body_start];
        let group_id: u64 = first_key >> group_shift;
        let mut j: usize = i + 1;
        while j < ce && j - i < 4 && (keys[nodes[j].body_start] >> group_shift) == group_id
            invariant
                i < j <= ce,
                j - i <= 4,
                ce <= nodes.len(),
                group_shift < 64,
                group_shift == round_shift(r),
                forall|k: int|
                    0 <= k < nodes.len() ==> #[trigger] nodes@[k].body_start < nodes@[k].body_end
                        <= keys.len(),
                group_id == key_prefix(keys@, nodes@, i as int, round_shift(r)),
                forall|k: int|
                    i <= k < j ==> #[trigger] key_prefix(keys@, nodes@, k, round_shift(r))
                        == group_id,
            decreases ce - j,
        {
            j = j + 1;
        }
        proof {
            if group_shift >= 42 && j < ce && j - i < 4 {
                lemma_key_prefix_zero(keys@[nodes@[j as int].body_start as int], group_shift);
                lemma_key_prefix_zero(keys@[nodes@[i as int].body_start as int], group_shift);
            }
        }
        let ghost before: Seq<Node> = nodes@;
        attach_parent(nodes, i, j);
        proof {
            lemma_group_step(
                before,
                nodes@,
                keys@,
                ranges,
                cs as int,
                ce as int,
                i as int,
                j as int,
                r,
            );
        }
        i = j;
    }
    proof {
        lemma_round_ends(nodes@, keys@, ranges, cs as int, ce as int, r);
    }
}

impl Tree {
    /// Builds the tree over the given leaf ranges: one leaf per range, then
    /// rounds of parents, each merging up to four consecutive nodes whose
    /// Morton keys agree above the round's shift (2 bits in the first
    /// round, 2 more each round), until one node is left.
    pub fn from_leaf_ranges(keys: &Vec<u64>, ranges: &Vec<(usize, usize)>, n_max: usize) -> (tree:
        Tree)
        requires
            ranges_tile(ranges@, keys.len() as int),
            ranges.len() <= max_leaves(),
            forall|k: int| 0 <= k < keys.len() ==> #[trigger] keys[k] < 0x40000000000u64,
        ensures
            tree.n_max == n_max,
            morton_hierarchy(tree.nodes@, keys@, ranges@),
    {
        let mut nodes: Vec<Node> = Vec::new();
        let nl: usize = ranges.len();
        let no_kids: [Option<usize>; 4] = [None, None, None, None];
        assert(forall|k: int| 0 <= k < 4 ==> #[trigger] no_kids[k] is None) by {
            assert(no_kids[0] is None && no_kids[1] is None && no_kids[2] is None && no_kids[3] is None);
        }
        for idx in 0..nl
            invariant
                forall|k: int| 0 <= k < 4 ==> #[trigger] no_kids[k] is None,
                nodes.len() == idx,
                nl == ranges.len(),
                ranges_tile(ranges@, keys.len() as int),
                forall|q: int| 0 <= q < idx ==> #[trigger] leaf_for(nodes@[q], ranges@[q]),
                forall|q: int| 0 <= q < idx ==> (#[trigger] nodes@[q]).parent is None,
        {
            let (start, end) = ranges[idx];
            nodes.push(
                Node {
                    body_start: start,
                    body_end: end,
                    children: no_kids,
                    parent: None,
                    is_leaf: true,
                },
            );
        }
        let mut current_start: usize = 0;
        let mut current_end: usize = nodes.len();
        let mut group_shift: u32 = 2;
        let ghost mut r: int = 0;
        proof {
            lemma_leaves_built(nodes@, keys@, ranges@);
            lemma_pow4_mono(11, 31);
        }
        while current_end - current_start > 1
            invariant
                built_through(nodes@, keys@, ranges@, current_start as int, current_end as int, r),
                nl == ranges.len(),
                nl <= max_leaves(),
                forall|k: int| 0 <= k < keys.len() ==> #[trigger] keys[k] < 0x40000000000u64,
                group_shift == round_shift(r),
                0 <= r <= 31,
                current_end - current_start <= pow4((31 - r) as nat),
                current_end - current_start <= nl,
                current_end <= (r + 1) * nl,
            decreases 64 - group_shift,
        {
            proof {
                if r == 31 {
                    assert(pow4(0) == 1);
                }
            }
            let ghost old_count: int = current_end - current_start;
            proof {
                assert((r + 1) * nl <= 32 * max_leaves()) by (nonlinear_arith)
                    requires
                        0 <= r <= 31,
                        nl <= max_leaves(),
                ;
            }
            group_round(keys, &mut nodes, current_start, current_end, group_shift, Ghost(ranges@), Ghost(r));
            proof {
                let g = nodes.len() - current_end;
                assert((r + 2) * nl == (r + 1) * nl + nl) by (nonlinear_arith);
                if group_shift >= 42 {
                    lemma_quarter(old_count, g, (31 - r) as nat);
                } else {
                    lemma_pow4_mono(11, (31 - r - 1) as nat);
                }
            }
            current_start = current_end;
            current_end = nodes.len();
            group_shift = group_shift + 2;
            proof {
                r = r + 1;
            }
        }
        proof {
            lemma_build_done(nodes@, keys@, ranges@, current_start as int, current_end as int, r);
        }
        Tree { nodes, n_max }
    }
}

proof fn lemma_leaves_built(nodes: Seq<Node>, keys: Seq<u64>, ranges: Seq<(usize, usize)>)
    requires
        nodes.len() == ranges.len(),
        ranges_tile(ranges, keys.len() as int),
        forall|q: int| 0 <= q < ranges.len() ==> #[trigger] leaf_for(nodes[q], ranges[q]),
        forall|q: int| 0 <= q < ranges.len() ==> (#[trigger] nodes[q]).parent is None,
    ensures
        built_through(nodes, keys, ranges, 0, nodes.len() as int, 0),
{
    let nl = ranges.len() as int;
    assert forall|k: int| 0 <= k < nl implies #[trigger] round(nodes, nl, k) == 0 by {}
    assert forall|k: int| 0 <= k < nl implies (#[trigger] nodes[k]).parent is None by {
        assert(leaf_for(nodes[k], ranges[k]));
    }
    assert forall|k: int| 0 <= k < nl implies #[trigger] nodes[k].body_start < nodes[k].body_end
        <= keys.len() by {
        assert(leaf_for(nodes[k], ranges[k]));
        assert(ranges[k].0 < ranges[k].1);
        lemma_range_end_bounded(ranges, keys.len() as int, k);
    }
    assert forall|p: int, q: int|
        #![trigger nodes[p].body_start, nodes[q].body_end]
        0 <= q && p == q + 1 && p < nl implies nodes[p].body_start == nodes[q].body_end by {
        assert(leaf_for(nodes[p], ranges[p]));
        assert(leaf_for(nodes[q], ranges[q]));
        assert(ranges[p].0 == ranges[p - 1].1);
    }
    assert forall|q: int| 0 <= q < nl implies #[trigger] leaf_for(nodes[q], ranges[q]) by {
        assert(leaf_for(nodes[q], ranges[q]));
    }
    if nl > 0 {
        assert(leaf_for(nodes[0], ranges[0]));
        assert(leaf_for(nodes[nl - 1], ranges[nl - 1]));
    }
}

/// Every range of a tiling of `[0, n)` ends at or before `n`.
proof fn lemma_range_end_bounded(ranges: Seq<(usize, usize)>, n: int, k: int)
    requires
        ranges_tile(ranges, n),
        0 <= k < ranges.len(),
    ensures
        ranges[k].1 <= n,
    decreases ranges.len() - k,
{
    if k < ranges.len() - 1 {
        lemma_range_end_bounded(ranges, n, k + 1);
        assert(ranges[k + 1].0 == ranges[k].1);
        assert(ranges[k + 1].0 < ranges[k + 1].1);
    }
}

proof fn lemma_build_done(
    nodes: Seq<Node>,
    keys: Seq<u64>,
    ranges: Seq<(usize, usize)>,
    cs: int,
    ce: int,
    r: int,
)
    requires
        built_through(nodes, keys, ranges, cs, ce, r),
        ce - cs <= 1,
    ensures
        morton_hierarchy(nodes, keys, ranges),
{
    let nl = ranges.len() as int;
    let nn = nodes.len() as int;
    if nn > 0 {
        assert(cs == nn - 1);
        assert(nodes[nn - 1].parent is None);
        if nn > 1 {
            assert(round(nodes, nl, nn - 1) == r);
            assert(round(nodes, nl, nn - 2) < r);
        }
    }
    assert forall|k: int| 0 <= k < nn - 1 implies #[trigger] nodes[k].parent is Some && k
        < nodes[k].parent.unwrap() < nn by {}
}

impl Tree {
    /// Builds the tree over Morton-sorted bodies with keys `keys`: leaves
    /// of `n_max` consecutive bodies, then bottom-up Morton grouping.
    pub fn build(keys: &Vec<u64>, n_max: usize) -> (tree: Tree)
        requires
            n_max > 0,
            keys.len() + n_max <= usize::MAX,
            (keys.len() + n_max - 1) / (n_max as int) <= max_leaves(),
            forall|k: int| 0 <= k < keys.len() ==> #[trigger] keys[k] < 0x40000000000u64,
        ensures
            tree.n_max == n_max,
            morton_hierarchy(tree.nodes@, keys@, chunk_ranges(keys.len() as int, n_max as int)),
    {
        let ranges: Vec<(usize, usize)> = leaf_ranges(keys.len(), n_max);
        Tree::from_leaf_ranges(keys, &ranges, n_max)
    }

    /// Number of nodes.
    pub fn len(&self) -> (n: usize)
        ensures
            n == self.nodes.len(),
    {
        self.nodes.len()
    }
}

/// Every child id is smaller than its parent's id.
pub open spec fn kids_below(nodes: Seq<Node>) -> bool {
    forall|id: int, k: int|
        0 <= id < nodes.len() && 0 <= k < 4 && (#[trigger] nodes[id].children[k]) is Some
            ==> nodes[id].children[k].unwrap() < id
}

/// In a Morton tree, children come before their parents.
pub proof fn law_kids_before_parents(
    nodes: Seq<Node>,
    keys: Seq<u64>,
    ranges: Seq<(usize, usize)>,
)
    requires
        morton_hierarchy(nodes, keys, ranges),
    ensures
        kids_below(nodes),
{
    let nl = ranges.len() as int;
    assert forall|id: int, k: int|
        0 <= id < nodes.len() && 0 <= k < 4 && (#[trigger] nodes[id].children[k]) is Some implies nodes[id].children[k].unwrap()
        < id by {
        if id < nl {
            assert(leaf_for(nodes[id], ranges[id]));
        } else {
            assert(parent_ok(nodes, keys, nl, id));
            reveal(parent_ok);
        }
    }
}

/// Each parent's body range holds the ranges of its children, and the
/// children's ranges follow one another.
pub proof fn law_parent_covers_children(
    nodes: Seq<Node>,
    keys: Seq<u64>,
    ranges: Seq<(usize, usize)>,
    p: int,
    k: int,
)
    requires
        morton_hierarchy(nodes, keys, ranges),
        nodes.len() <= usize::MAX,
        0 <= p < nodes.len(),
        0 <= k < 4,
        nodes[p].children[k] is Some,
    ensures
        nodes[p].body_start <= nodes[nodes[p].children[k].unwrap() as int].body_start,
        nodes[nodes[p].children[k].unwrap() as int].body_end <= nodes[p].body_end,
        nodes[nodes[p].children[k].unwrap() as int].parent == Some(p as usize),
{
    let nl = ranges.len() as int;
    if p < nl {
        assert(leaf_for(nodes[p], ranges[p]));
    } else {
        assert(parent_ok(nodes, keys, nl, p));
        reveal(parent_ok);
        let n = nodes[p];
        let f = first_kid(n);
        let l = last_kid(n);
        let c = n.children[k].unwrap() as int;
        assert(c == f + k);
        assert(k < kid_count(n));
        assert forall|m: int| f <= m <= c implies nodes[f].body_start <= #[trigger] nodes[m].body_start by {
            lemma_chain_starts(nodes, f, m);
        }
        lemma_chain_ends(nodes, c, l);
    }
}

proof fn lemma_chain_starts(nodes: Seq<Node>, f: int, m: int)
    requires
        0 <= f <= m < nodes.len(),
        forall|k: int| f <= k < m ==> #[trigger] nodes[k + 1].body_start == nodes[k].body_end,
        forall|k: int| f <= k <= m ==> #[trigger] nodes[k].body_start < nodes[k].body_end,
    ensures
        nodes[f].body_start <= nodes[m].body_start,
    decreases m - f,
{
    if m > f {
        lemma_chain_starts(nodes, f, m - 1);
        let q = m - 1;
        assert(nodes[q + 1].body_start == nodes[q].body_end);
        assert(nodes[m - 1].body_start < nodes[m - 1].body_end);
    }
}

proof fn lemma_chain_ends(nodes: Seq<Node>, c: int, l: int)
    requires
        0 <= c <= l < nodes.len(),
        forall|k: int| c <= k < l ==> #[trigger] nodes[k + 1].body_start == nodes[k].body_end,
        forall|k: int| c <= k <= l ==> #[trigger] nodes[k].body_start < nodes[k].body_end,
    ensures
        nodes[c].body_end <= nodes[l].body_end,
    decreases l - c,
{
    if l > c {
        lemma_chain_ends(nodes, c + 1, l);
        assert(nodes[c + 1].body_start == nodes[c].body_end);
        assert(nodes[c + 1].body_start < nodes[c + 1].body_end);
    }
}

/// The leaves cover every body exactly once: body `b` lies in leaf `i`
/// iff `i` is the leaf whose range holds it, and no two leaves overlap.
pub proof fn law_leaves_partition_bodies(
    nodes: Seq<Node>,
    keys: Seq<u64>,
    ranges: Seq<(usize, usize)>,
    i: int,
    j: int,
)
    requires
        morton_hierarchy(nodes, keys, ranges),
        ranges_tile(ranges, keys.len() as int),
        0 <= i < j < ranges.len(),
    ensures
        nodes[i].is_leaf && nodes[j].is_leaf,
        nodes[i].body_end <= nodes[j].body_start,
{
    assert(leaf_for(nodes[i], ranges[i]));
    assert(leaf_for(nodes[j], ranges[j]));
    lemma_tile_ordered(ranges, keys.len() as int, i, j);
}

proof fn lemma_tile_ordered(ranges: Seq<(usize, usize)>, n: int, i: int, j: int)
    requires
        ranges_tile(ranges, n),
        0 <= i < j < ranges.len(),
    ensures
        ranges[i].1 <= ranges[j].0,
    decreases j - i,
{
    if j > i + 1 {
        lemma_tile_ordered(ranges, n, i, j - 1);
        assert(ranges[j].0 == ranges[j - 1].1);
        assert(ranges[j - 1].0 < ranges[j - 1].1);
    } else {
        assert(ranges[j].0 == ranges[j - 1].1);
    }
}

/// Every body lies in some leaf.
pub proof fn law_leaves_cover_bodies(
    nodes: Seq<Node>,
    keys: Seq<u64>,
    ranges: Seq<(usize, usize)>,
    b: int,
) -> (leaf: int)
    requires
        morton_hierarchy(nodes, keys, ranges),
        ranges_tile(ranges, keys.len() as int),
        0 <= b < keys.len(),
    ensures
        0 <= leaf < ranges.len(),
        nodes[leaf].is_leaf,
        nodes[leaf].body_start <= b < nodes[leaf].body_end,
{
    let leaf = lemma_find_range(ranges, keys.len() as int, b, 0);
    assert(leaf_for(nodes[leaf], ranges[leaf]));
    leaf
}

proof fn lemma_find_range(ranges: Seq<(usize, usize)>, n: int, b: int, from: int) -> (r: int)
    requires
        ranges_tile(ranges, n),
        0 <= b < n,
        0 <= from < ranges.len(),
        ranges[from].0 <= b,
    ensures
        from <= r < ranges.len(),
        ranges[r].0 <= b < ranges[r].1,
    decreases ranges.len() - from,
{
    if b < ranges[from].1 {
        from
    } else {
        if from + 1 < ranges.len() {
            assert(ranges[from + 1].0 == ranges[from].1);
            lemma_find_range(ranges, n, b, from + 1)
        } else {
            assert(ranges[ranges.len() - 1].1 == n);
            from
        }
    }
}

/// In a tree built with leaf capacity `n_max`, every leaf holds between 1
/// and `n_max` bodies, and only the last leaf may hold fewer than `n_max`.
pub proof fn law_leaf_size_bounded(nodes: Seq<Node>, keys: Seq<u64>, n_max: int, i: int)
    requires
        n_max > 0,
        morton_hierarchy(nodes, keys, chunk_ranges(keys.len() as int, n_max)),
        0 <= i < chunk_ranges(keys.len() as int, n_max).len(),
        keys.len() + n_max <= usize::MAX,
    ensures
        nodes[i].is_leaf,
        1 <= nodes[i].body_end - nodes[i].body_start <= n_max,
        i + 1 < chunk_ranges(keys.len() as int, n_max).len() ==> nodes[i].body_end
            - nodes[i].body_start == n_max,
{
    let n = keys.len() as int;
    let ranges = chunk_ranges(n, n_max);
    assert(leaf_for(nodes[i], ranges[i]));
    let count = (n + n_max - 1) / n_max;
    assert(i * n_max < n) by (nonlinear_arith)
        requires
            0 <= i < count,
            count == (n + n_max - 1) / n_max,
            n_max > 0,
            n >= 0,
    ;
    assert(0 <= i * n_max) by (nonlinear_arith)
        requires
            0 <= i,
            n_max > 0,
    ;
    assert((i + 1) * n_max == i * n_max + n_max) by (nonlinear_arith);
    if i + 1 < count {
        assert((i + 1) * n_max <= n) by (nonlinear_arith)
            requires
                0 <= i,
                i + 1 < count,
                count == (n + n_max - 1) / n_max,
                n_max > 0,
                n >= 0,
        ;
    }
}

/// Siblings lie in one cell of their round: their Morton keys agree above
/// the round's shift.
pub proof fn law_siblings_share_prefix(
    nodes: Seq<Node>,
    keys: Seq<u64>,
    ranges: Seq<(usize, usize)>,
    p: int,
    k: int,
)
    requires
        morton_hierarchy(nodes, keys, ranges),
        ranges.len() <= p < nodes.len(),
        0 <= k < 4,
        nodes[p].children[k] is Some,
    ensures
        key_prefix(
            keys,
            nodes,
            nodes[p].children[k].unwrap() as int,
            round_shift(round(nodes, ranges.len() as int, first_kid(nodes[p]))),
        ) == key_prefix(
            keys,
            nodes,
            first_kid(nodes[p]),
            round_shift(round(nodes, ranges.len() as int, first_kid(nodes[p]))),
        ),
{
    assert(parent_ok(nodes, keys, ranges.len() as int, p));
    reveal(parent_ok);
    let n = nodes[p];
    assert(n.children[k] is Some);
    assert(k < kid_count(n));
    let c = n.children[k].unwrap() as int;
    assert(first_kid(n) <= c <= last_kid(n));
}

/// Larger of two integers.
pub open spec fn max_int(a: int, b: int) -> int {
    if a >= b {
        a
    } else {
        b
    }
}

/// What child slot `k` of node `id` adds to its level: nothing when the
/// slot is empty, one more than the child's level for an earlier child,
/// and 1 for a child that is not earlier (its level is not known yet).
pub open spec fn slot_level(nodes: Seq<Node>, id: int, k: int) -> int
    decreases id, 0int,
{
    match nodes[id].children[k] {
        Some(c) => if 0 <= c < id {
            node_level(nodes, c as int) + 1
        } else {
            1
        },
        None => 0,
    }
}

/// Level of node `id`: 0 for a node without children, else one more than
/// the highest level among its children.
pub open spec fn node_level(nodes: Seq<Node>, id: int) -> int
    decreases id, 1int,
{
    if id < 0 {
        0
    } else {
        max_int(
            max_int(slot_level(nodes, id, 0), slot_level(nodes, id, 1)),
            max_int(slot_level(nodes, id, 2), slot_level(nodes, id, 3)),
        )
    }
}

pub proof fn lemma_level_bound(nodes: Seq<Node>, id: int)
    requires
        0 <= id,
    ensures
        0 <= node_level(nodes, id) <= id + 1,
    decreases id,
{
    assert forall|k: int| 0 <= k < 4 implies 0 <= #[trigger] slot_level(nodes, id, k) <= id + 1 by {
        match nodes[id].children[k] {
            Some(c) => {
                if 0 <= c < id {
                    lemma_level_bound(nodes, c as int);
                }
            },
            None => {},
        }
    }
    assert(0 <= slot_level(nodes, id, 0) <= id + 1);
    assert(0 <= slot_level(nodes, id, 1) <= id + 1);
    assert(0 <= slot_level(nodes, id, 2) <= id + 1);
    assert(0 <= slot_level(nodes, id, 3) <= id + 1);
}

/// Every child id names a node of the tree.
pub open spec fn kids_in_range(nodes: Seq<Node>) -> bool {
    forall|id: int, k: int|
        0 <= id < nodes.len() && 0 <= k < 4 && (#[trigger] nodes[id].children[k]) is Some
            ==> nodes[id].children[k].unwrap() < nodes.len()
}

/// Level of every node: 0 for leaves, coarser nodes higher.
pub fn compute_levels(tree: &Tree) -> (levels: Vec<u32>)
    requires
        kids_in_range(tree.nodes@),
        tree.nodes.len() < u32::MAX,
    ensures
        levels.len() == tree.nodes.len(),
        forall|id: int| 0 <= id < levels.len() ==> #[trigger] levels[id] == node_level(tree.nodes@, id),
{
    let n: usize = tree.nodes.len();
    let mut levels: Vec<u32> = Vec::new();
    for z in 0..n
        invariant
            levels.len() == z,
            forall|q: int| 0 <= q < z ==> #[trigger] levels[q] == 0,
    {
        levels.push(0);
    }
    for node_id in 0..n
        invariant
            n == tree.nodes.len(),
            n < u32::MAX,
            levels.len() == n,
            kids_in_range(tree.nodes@),
            forall|q: int| 0 <= q < node_id ==> #[trigger] levels[q] == node_level(tree.nodes@, q),
            forall|q: int| node_id <= q < n ==> #[trigger] levels[q] == 0,
    {
        let node: Node = tree.nodes[node_id];
        let ghost nodes: Seq<Node> = tree.nodes@;
        let mut max_cl: u32 = 0;
        let mut k: usize = 0;
        while k < 4
            invariant
                0 <= k <= 4,
                node == nodes[node_id as int],
                nodes == tree.nodes@,
                n == nodes.len(),
                n < u32::MAX,
                node_id < n,
                levels.len() == n,
                kids_in_range(nodes),
                forall|q: int| 0 <= q < node_id ==> #[trigger] levels[q] == node_level(nodes, q),
                forall|q: int| node_id <= q < n ==> #[trigger] levels[q] == 0,
                max_cl as int == (if k == 0 {
                    0
                } else if k == 1 {
                    slot_level(nodes, node_id as int, 0)
                } else if k == 2 {
                    max_int(slot_level(nodes, node_id as int, 0), slot_level(nodes, node_id as int, 1))
                } else if k == 3 {
                    max_int(
                        max_int(slot_level(nodes, node_id as int, 0), slot_level(nodes, node_id as int, 1)),
                        slot_level(nodes, node_id as int, 2),
                    )
                } else {
                    node_level(nodes, node_id as int)
                }),
            decreases 4 - k,
        {
            if let Some(c) = node.children[k] {
                proof {
                    assert(nodes[node_id as int].children[k as int] is Some);
                    if c < node_id {
                        lemma_level_bound(nodes, c as int);
                    }
                }
                let v: u32 = levels[c] + 1;
                if v > max_cl {
                    max_cl = v;
                }
            }
            k = k + 1;
        }
        levels.set(node_id, max_cl);
    }
    levels
}

/// First occupied child slot of a node.
pub open spec fn first_child(n: Node) -> Option<usize> {
    if n.children[0] is Some {
        n.children[0]
    } else if n.children[1] is Some {
        n.children[1]
    } else if n.children[2] is Some {
        n.children[2]
    } else {
        n.children[3]
    }
}

/// Number of steps from node `id` down through first children until a
/// leaf (or a node without children) is reached.
pub open spec fn descent_depth(nodes: Seq<Node>, id: int) -> int
    decreases id,
{
    if id < 0 || nodes[id].is_leaf {
        0
    } else {
        match first_child(nodes[id]) {
            Some(c) => if c < id {
                1 + descent_depth(nodes, c as int)
            } else {
                0
            },
            None => 0,
        }
    }
}

/// First occupied child slot of `n`.
fn first_child_of(n: &Node) -> (c: Option<usize>)
    ensures
        c == first_child(*n),
{
    if n.children[0].is_some() {
        n.children[0]
    } else if n.children[1].is_some() {
        n.children[1]
    } else if n.children[2].is_some() {
        n.children[2]
    } else {
        n.children[3]
    }
}

impl Tree {
    /// Depth of the tree: the steps from the root down its first children
    /// to a leaf.
    pub fn depth(&self) -> (d: usize)
        requires
            self.nodes.len() > 0,
            kids_below(self.nodes@),
        ensures
            d == descent_depth(self.nodes@, self.nodes.len() - 1),
    {
        let mut d: usize = 0;
        let mut idx: usize = self.nodes.len() - 1;
        let ghost top: int = self.nodes.len() - 1;
        while !self.nodes[idx].is_leaf && first_child_of(&self.nodes[idx]).is_some()
            invariant
                idx < self.nodes.len(),
                top == self.nodes.len() - 1,
                kids_below(self.nodes@),
                d + descent_depth(self.nodes@, idx as int) == descent_depth(self.nodes@, top),
                d <= top - idx,
            decreases idx,
        {
            let node: Node = self.nodes[idx];
            let next: Option<usize> = first_child_of(&node);
            let child: usize = next.unwrap();
            proof {
                let k: int = if node.children[0] is Some {
                    0
                } else if node.children[1] is Some {
                    1
                } else if node.children[2] is Some {
                    2
                } else {
                    3
                };
                assert(self.nodes@[idx as int].children[k] is Some);
            }
            idx = child;
            d = d + 1;
        }
        d
    }
}

} // verus!
