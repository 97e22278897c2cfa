//! Spatial index over the tree: every node keyed by its level and its
//! integer grid cell at that level, and the search for the eight
//! neighbours of a cell at the same, finer or coarser levels.
use vstd::prelude::*;
use std::collections::BTreeMap;
use crate::tree::{Node, Tree, compute_levels, kids_in_range, node_level};

verus! {

/// `2^e` (1 for `e <= 0`).
pub open spec fn pow2i(e: int) -> int
    decreases e,
{
    if e <= 0 {
        1
    } else {
        2 * pow2i(e - 1)
    }
}

/// Grid coordinates small enough that stepping to a neighbour and then
/// refining its cell by four levels stays within `i64`.
pub open spec fn coord_ok(x: i64) -> bool {
    -0x07ff_ffff_ffff_ffff < x < 0x07ff_ffff_ffff_ffff
}

/// Key of node `q`: its level and its grid cell.
pub open spec fn node_key(nodes: Seq<Node>, cells: Seq<(i64, i64)>, q: int) -> (u32, i64, i64) {
    (node_level(nodes, q) as u32, cells[q].0, cells[q].1)
}

/// The index built from nodes `0..upto`: node `id` is filed under its
/// level and grid cell, a later node replacing an earlier one with the
/// same key.
pub open spec fn index_map(nodes: Seq<Node>, cells: Seq<(i64, i64)>, upto: int) -> Map<
    (u32, i64, i64),
    usize,
>
    decreases upto,
{
    if upto <= 0 {
        Map::empty()
    } else {
        index_map(nodes, cells, upto - 1).insert(node_key(nodes, cells, upto - 1), (upto - 1) as usize)
    }
}

/// The node filed at a key, if any.
pub open spec fn at(m: Map<(u32, i64, i64), usize>, lv: u32, i: int, j: int) -> Option<usize> {
    m.get((lv, i as i64, j as i64))
}

/// First hit in row `i` of a block, columns `j0 + b .. j0 + scale`.
pub open spec fn scan_cols(
    m: Map<(u32, i64, i64), usize>,
    lv: u32,
    i: int,
    j0: int,
    scale: int,
    b: int,
) -> Option<usize>
    decreases scale - b,
{
    if b >= scale {
        None
    } else if at(m, lv, i, j0 + b) is Some {
        at(m, lv, i, j0 + b)
    } else {
        scan_cols(m, lv, i, j0, scale, b + 1)
    }
}

/// First hit in a `scale` by `scale` block with corner `(i0, j0)`, rows
/// `a..scale`, row by row.
pub open spec fn scan_block(
    m: Map<(u32, i64, i64), usize>,
    lv: u32,
    i0: int,
    j0: int,
    scale: int,
    a: int,
) -> Option<usize>
    decreases scale - a,
{
    if a >= scale {
        None
    } else if scan_cols(m, lv, i0 + a, j0, scale, 0) is Some {
        scan_cols(m, lv, i0 + a, j0, scale, 0)
    } else {
        scan_block(m, lv, i0, j0, scale, a + 1)
    }
}

/// First hit among the descendants of cell `(ti, tj)` at level `lv`,
/// trying one to four levels finer, from `f` on.
pub open spec fn finer(m: Map<(u32, i64, i64), usize>, lv: u32, ti: int, tj: int, f: int) -> Option<
    usize,
>
    decreases 5 - f,
{
    if f < 1 || f > 4 {
        None
    } else {
        let s = pow2i(f);
        let hit = scan_block(m, (lv + f) as u32, ti * s, tj * s, s, 0);
        if hit is Some {
            hit
        } else {
            finer(m, lv, ti, tj, f + 1)
        }
    }
}

/// Grid coordinate `t` taken `c` levels coarser: `t >> c` for `t >= 0`,
/// and `(t - 2^c + 1) >> c` below zero.
pub open spec fn shifted(t: int, c: int) -> int {
    let d = pow2i(c);
    if t >= 0 {
        t / d
    } else {
        (t - d + 1) / d
    }
}

/// First hit among the ancestors of cell `(ti, tj)` at level `lv`, from
/// `c` levels coarser up to level 0.
pub open spec fn coarser(m: Map<(u32, i64, i64), usize>, lv: u32, ti: int, tj: int, c: int) -> Option<
    usize,
>
    decreases lv + 1 - c,
{
    if c < 1 || c > lv {
        None
    } else {
        let hit = at(m, (lv - c) as u32, shifted(ti, c), shifted(tj, c));
        if hit is Some {
            hit
        } else {
            coarser(m, lv, ti, tj, c + 1)
        }
    }
}

/// The neighbour found for target cell `(ti, tj)` at level `lv`: the node
/// of that cell, else the first finer descendant, else the first coarser
/// ancestor.
pub open spec fn neighbor_at(m: Map<(u32, i64, i64), usize>, lv: u32, ti: int, tj: int) -> Option<
    usize,
> {
    if at(m, lv, ti, tj) is Some {
        at(m, lv, ti, tj)
    } else if finer(m, lv, ti, tj, 1) is Some {
        finer(m, lv, ti, tj, 1)
    } else {
        coarser(m, lv, ti, tj, 1)
    }
}

/// Column step of direction `k`: E, NE, N, NW, W, SW, S, SE.
pub open spec fn dir_i(k: int) -> int {
    if k == 0 || k == 1 || k == 7 {
        1
    } else if k == 3 || k == 4 || k == 5 {
        -1
    } else {
        0
    }
}

/// Row step of direction `k`: E, NE, N, NW, W, SW, S, SE.
pub open spec fn dir_j(k: int) -> int {
    if k == 1 || k == 2 || k == 3 {
        1
    } else if k == 5 || k == 6 || k == 7 {
        -1
    } else {
        0
    }
}

/// A hit of a column scan is a node filed in the index.
proof fn lemma_scan_cols_filed(m: Map<(u32, i64, i64), usize>, lv: u32, i: int, j0: int, scale: int, b: int)
    ensures
        scan_cols(m, lv, i, j0, scale, b) matches Some(id) ==> exists|k: (u32, i64, i64)|
            #[trigger] m.contains_key(k) && m[k] == id,
    decreases scale - b,
{
    if b < scale {
        if at(m, lv, i, j0 + b) is Some {
            assert(m.contains_key((lv, i as i64, (j0 + b) as i64)));
        } else {
            lemma_scan_cols_filed(m, lv, i, j0, scale, b + 1);
        }
    }
}

/// A hit of a block scan is a node filed in the index.
proof fn lemma_scan_block_filed(m: Map<(u32, i64, i64), usize>, lv: u32, i0: int, j0: int, scale: int, a: int)
    ensures
        scan_block(m, lv, i0, j0, scale, a) matches Some(id) ==> exists|k: (u32, i64, i64)|
            #[trigger] m.contains_key(k) && m[k] == id,
    decreases scale - a,
{
    if a < scale {
        lemma_scan_cols_filed(m, lv, i0 + a, j0, scale, 0);
        lemma_scan_block_filed(m, lv, i0, j0, scale, a + 1);
    }
}

/// A hit among finer cells is a node filed in the index.
proof fn lemma_finer_filed(m: Map<(u32, i64, i64), usize>, lv: u32, ti: int, tj: int, f: int)
    ensures
        finer(m, lv, ti, tj, f) matches Some(id) ==> exists|k: (u32, i64, i64)|
            #[trigger] m.contains_key(k) && m[k] == id,
    decreases 5 - f,
{
    if 1 <= f <= 4 {
        let s = pow2i(f);
        lemma_scan_block_filed(m, (lv + f) as u32, ti * s, tj * s, s, 0);
        lemma_finer_filed(m, lv, ti, tj, f + 1);
    }
}

/// A hit among coarser cells is a node filed in the index.
proof fn lemma_coarser_filed(m: Map<(u32, i64, i64), usize>, lv: u32, ti: int, tj: int, c: int)
    ensures
        coarser(m, lv, ti, tj, c) matches Some(id) ==> exists|k: (u32, i64, i64)|
            #[trigger] m.contains_key(k) && m[k] == id,
    decreases lv + 1 - c,
{
    if 1 <= c <= lv {
        let k = ((lv - c) as u32, shifted(ti, c) as i64, shifted(tj, c) as i64);
        if m.contains_key(k) {
            assert(m.contains_key(k) && m[k] == m[k]);
        }
        lemma_coarser_filed(m, lv, ti, tj, c + 1);
    }
}

/// The neighbour search finds only nodes filed in the index, and when a
/// node is filed at the target cell on the same level it finds that node.
pub proof fn law_neighbor_found_is_filed(m: Map<(u32, i64, i64), usize>, lv: u32, ti: int, tj: int)
    ensures
        m.contains_key((lv, ti as i64, tj as i64)) ==> neighbor_at(m, lv, ti, tj) == Some(
            m[(lv, ti as i64, tj as i64)],
        ),
        neighbor_at(m, lv, ti, tj) matches Some(id) ==> exists|k: (u32, i64, i64)|
            #[trigger] m.contains_key(k) && m[k] == id,
{
    if m.contains_key((lv, ti as i64, tj as i64)) {
        assert(m.contains_key((lv, ti as i64, tj as i64)) && m[(lv, ti as i64, tj as i64)] == m[(
            lv,
            ti as i64,
            tj as i64,
        )]);
    }
    lemma_finer_filed(m, lv, ti, tj, 1);
    lemma_coarser_filed(m, lv, ti, tj, 1);
}

/// The eight neighbour directions, in slot order, step one cell east,
/// north-east, north, north-west, west, south-west, south and south-east.
pub proof fn law_neighbour_directions()
    ensures
        dir_i(0) == 1 && dir_j(0) == 0,
        dir_i(1) == 1 && dir_j(1) == 1,
        dir_i(2) == 0 && dir_j(2) == 1,
        dir_i(3) == -1 && dir_j(3) == 1,
        dir_i(4) == -1 && dir_j(4) == 0,
        dir_i(5) == -1 && dir_j(5) == -1,
        dir_i(6) == 0 && dir_j(6) == -1,
        dir_i(7) == 1 && dir_j(7) == -1,
{
}

/// Map from (level, grid column, grid row) to node id.
pub struct SpatialIndex {
    map: BTreeMap<(u32, i64, i64), usize>,
}

impl View for SpatialIndex {
    type V = Map<(u32, i64, i64), usize>;

    closed spec fn view(&self) -> Map<(u32, i64, i64), usize> {
        self.map@
    }
}

/// The index keys are ordered as std documents for tuples of integers.
proof fn lemma_keys_ordered()
    ensures
        vstd::laws_cmp::obeys_cmp::<(u32, i64, i64)>(),
{
    broadcast use vstd::laws_cmp::group_laws_cmp;

}

/// Steps of direction `k`.
fn dir_steps(k: usize) -> (d: (i64, i64))
    requires
        k < 8,
    ensures
        d.0 == dir_i(k as int),
        d.1 == dir_j(k as int),
{
    if k == 0 {
        (1, 0)
    } else if k == 1 {
        (1, 1)
    } else if k == 2 {
        (0, 1)
    } else if k == 3 {
        (-1, 1)
    } else if k == 4 {
        (-1, 0)
    } else if k == 5 {
        (-1, -1)
    } else if k == 6 {
        (0, -1)
    } else {
        (1, -1)
    }
}

/// `t` taken `c` levels coarser, as the arithmetic shift `t >> c` of the
/// adjusted coordinate.
fn coarser_coord(t: i64, c: u32) -> (r: i64)
    requires
        -0x0800_0000_0000_0000 < t < 0x0800_0000_0000_0000,
        1 <= c <= 62,
    ensures
        r == shifted(t as int, c as int),
{
    let mut d: u64 = 1;
    let mut k: u32 = 0;
    while k < c
        invariant
            k <= c <= 62,
            d == pow2i(k as int),
            d <= 0x4000_0000_0000_0000,
        decreases c - k,
    {
        proof {
            lemma_pow2i_bound(k as int, 61);
        }
        d = d * 2;
        k = k + 1;
    }
    proof {
        lemma_pow2i_bound(c as int, 62);
        lemma_pow2i_bound(1, c as int);
        reveal_with_fuel(pow2i, 2);
    }
    if t >= 0 {
        let q: u64 = (t as u64) / d;
        q as i64
    } else {
        let y: u64 = (d - 1) + ((0 - t) as u64);
        let q: u64 = (y + (d - 1)) / d;
        proof {
            let big: int = y + d - 1;
            let x: int = t - d + 1;
            vstd::arithmetic::div_mod::lemma_fundamental_div_mod(big, d as int);
            vstd::arithmetic::div_mod::lemma_mod_pos_bound(big, d as int);
            let r: int = big % (d as int);
            assert(q == big / (d as int));
            assert(x == (-(q as int)) * d + (d - 1 - r) && 2 * q <= big) by (nonlinear_arith)
                requires
                    x == -(y as int),
                    big == y + d - 1,
                    big == d * q + r,
                    0 <= r < d,
                    d >= 2,
                    q >= 0,
            ;
            vstd::arithmetic::div_mod::lemma_fundamental_div_mod_converse(
                x,
                d as int,
                -(q as int),
                d - 1 - r,
            );
        }
        0 - (q as i64)
    }
}

/// `2^k <= 2^bound` when `k <= bound`, and `2^62` is `0x4000_0000_0000_0000`.
proof fn lemma_pow2i_bound(k: int, bound: int)
    requires
        0 <= k <= bound <= 62,
    ensures
        1 <= pow2i(k) <= pow2i(bound),
        pow2i(62) == 0x4000_0000_0000_0000,
        pow2i(61) == 0x2000_0000_0000_0000,
    decreases bound - k,
{
    reveal_with_fuel(pow2i, 63);
    if k < bound {
        lemma_pow2i_bound(k, bound - 1);
    }
}

impl SpatialIndex {
    /// Builds the index: node `id` is filed under its level and its grid
    /// cell `cells[id]`; a later node with the same key replaces an earlier
    /// one.
    pub fn build(tree: &Tree, cells: &Vec<(i64, i64)>) -> (index: Self)
        requires
            kids_in_range(tree.nodes@),
            tree.nodes.len() < u32::MAX,
            cells.len() == tree.nodes.len(),
        ensures
            index@ == index_map(tree.nodes@, cells@, tree.nodes.len() as int),
    {
        let levels: Vec<u32> = compute_levels(tree);
        let mut map: BTreeMap<(u32, i64, i64), usize> = BTreeMap::new();
        for node_id in 0..tree.nodes.len()
            invariant
                levels.len() == tree.nodes.len(),
                cells.len() == tree.nodes.len(),
                forall|q: int|
                    0 <= q < levels.len() ==> #[trigger] levels[q] == node_level(tree.nodes@, q),
                map@ == index_map(tree.nodes@, cells@, node_id as int),
        {
            proof {
                lemma_keys_ordered();
            }
            let lv: u32 = levels[node_id];
            let (i, j) = cells[node_id];
            map.insert((lv, i, j), node_id);
        }
        SpatialIndex { map }
    }

    /// The node filed under level `lv` and grid cell `(i, j)`, if any.
    pub fn lookup(&self, lv: u32, i: i64, j: i64) -> (r: Option<usize>)
        ensures
            r == self@.get((lv, i, j)),
    {
        proof {
            lemma_keys_ordered();
        }
        match self.map.get(&(lv, i, j)) {
            Some(id) => Some(*id),
            None => None,
        }
    }

    /// First hit in a `scale` by `scale` block of level `lv` with corner
    /// `(i0, j0)`, row by row.
    fn scan_block_at(&self, lv: u32, i0: i64, j0: i64, scale: i64) -> (r: Option<usize>)
        requires
            1 <= scale <= 16,
            -0x7fff_ffff_ffff_fff0 <= i0 <= 0x7fff_ffff_ffff_fff0,
            -0x7fff_ffff_ffff_fff0 <= j0 <= 0x7fff_ffff_ffff_fff0,
        ensures
            r == scan_block(self@, lv, i0 as int, j0 as int, scale as int, 0),
    {
        let mut a: i64 = 0;
        while a < scale
            invariant
                0 <= a <= scale <= 16,
                -0x7fff_ffff_ffff_fff0 <= i0 <= 0x7fff_ffff_ffff_fff0,
                -0x7fff_ffff_ffff_fff0 <= j0 <= 0x7fff_ffff_ffff_fff0,
                scan_block(self@, lv, i0 as int, j0 as int, scale as int, 0) == scan_block(
                    self@,
                    lv,
                    i0 as int,
                    j0 as int,
                    scale as int,
                    a as int,
                ),
            decreases scale - a,
        {
            let mut b: i64 = 0;
            while b < scale
                invariant
                    0 <= a < scale <= 16,
                    0 <= b <= scale,
                    -0x7fff_ffff_ffff_fff0 <= i0 <= 0x7fff_ffff_ffff_fff0,
                    -0x7fff_ffff_ffff_fff0 <= j0 <= 0x7fff_ffff_ffff_fff0,
                    scan_block(self@, lv, i0 as int, j0 as int, scale as int, 0) == scan_block(
                        self@,
                        lv,
                        i0 as int,
                        j0 as int,
                        scale as int,
                        a as int,
                    ),
                    scan_cols(self@, lv, i0 + a, j0 as int, scale as int, 0) == scan_cols(
                        self@,
                        lv,
                        i0 + a,
                        j0 as int,
                        scale as int,
                        b as int,
                    ),
                decreases scale - b,
            {
                let hit: Option<usize> = self.lookup(lv, i0 + a, j0 + b);
                if hit.is_some() {
                    proof {
                        assert(at(self@, lv, i0 + a, j0 + b) == hit);
                        assert(scan_cols(self@, lv, i0 + a, j0 as int, scale as int, b as int)
                            == hit);
                        assert(scan_block(self@, lv, i0 as int, j0 as int, scale as int, a as int)
                            == scan_cols(self@, lv, i0 + a, j0 as int, scale as int, 0));
                    }
                    return hit;
                }
                b = b + 1;
            }
            a = a + 1;
        }
        None
    }

    /// The neighbour of grid cell `(ti, tj)` at level `lv`: the node of that
    /// cell, else the first node one to four levels finer inside it, else
    /// the first node filed under one of its ancestors.
    fn neighbor_in(&self, lv: u32, ti: i64, tj: i64) -> (r: Option<usize>)
        requires
            lv <= 62,
            -0x07ff_ffff_ffff_ffff <= ti <= 0x07ff_ffff_ffff_ffff,
            -0x07ff_ffff_ffff_ffff <= tj <= 0x07ff_ffff_ffff_ffff,
        ensures
            r == neighbor_at(self@, lv, ti as int, tj as int),
    {
        let same: Option<usize> = self.lookup(lv, ti, tj);
        if same.is_some() {
            return same;
        }
        let mut f: u32 = 1;
        let mut scale: i64 = 2;
        proof {
            reveal_with_fuel(pow2i, 2);
        }
        while f <= 4
            invariant
                1 <= f <= 5,
                lv <= 62,
                scale == pow2i(f as int),
                at(self@, lv, ti as int, tj as int) is None,
                -0x07ff_ffff_ffff_ffff <= ti <= 0x07ff_ffff_ffff_ffff,
                -0x07ff_ffff_ffff_ffff <= tj <= 0x07ff_ffff_ffff_ffff,
                finer(self@, lv, ti as int, tj as int, 1) == finer(
                    self@,
                    lv,
                    ti as int,
                    tj as int,
                    f as int,
                ),
            decreases 5 - f,
        {
            proof {
                reveal_with_fuel(pow2i, 5);
                assert(scale <= 16);
                assert(-0x7fff_ffff_ffff_fff0 <= ti * scale <= 0x7fff_ffff_ffff_fff0) by (
                nonlinear_arith)
                    requires
                        1 <= scale <= 16,
                        -0x07ff_ffff_ffff_ffff <= ti <= 0x07ff_ffff_ffff_ffff,
                ;
                assert(-0x7fff_ffff_ffff_fff0 <= tj * scale <= 0x7fff_ffff_ffff_fff0) by (
                nonlinear_arith)
                    requires
                        1 <= scale <= 16,
                        -0x07ff_ffff_ffff_ffff <= tj <= 0x07ff_ffff_ffff_ffff,
                ;
            }
            let hit: Option<usize> = self.scan_block_at(lv + f, ti * scale, tj * scale, scale);
            proof {
                assert(finer(self@, lv, ti as int, tj as int, f as int) == if hit is Some {
                    hit
                } else {
                    finer(self@, lv, ti as int, tj as int, f + 1)
                });
            }
            if hit.is_some() {
                return hit;
            }
            f = f + 1;
            scale = scale * 2;
        }
        let mut c: u32 = 1;
        while c <= lv
            invariant
                1 <= c <= lv + 1,
                lv <= 62,
                at(self@, lv, ti as int, tj as int) is None,
                finer(self@, lv, ti as int, tj as int, 1) is None,
                -0x07ff_ffff_ffff_ffff <= ti <= 0x07ff_ffff_ffff_ffff,
                -0x07ff_ffff_ffff_ffff <= tj <= 0x07ff_ffff_ffff_ffff,
                coarser(self@, lv, ti as int, tj as int, 1) == coarser(
                    self@,
                    lv,
                    ti as int,
                    tj as int,
                    c as int,
                ),
            decreases lv + 1 - c,
        {
            let ci: i64 = coarser_coord(ti, c);
            let cj: i64 = coarser_coord(tj, c);
            let hit: Option<usize> = self.lookup(lv - c, ci, cj);
            proof {
                assert(coarser(self@, lv, ti as int, tj as int, c as int) == if hit is Some {
                    hit
                } else {
                    coarser(self@, lv, ti as int, tj as int, c + 1)
                });
            }
            if hit.is_some() {
                return hit;
            }
            c = c + 1;
        }
        None
    }

    /// The eight neighbours of node `node_id` (E, NE, N, NW, W, SW, S, SE),
    /// whose grid cell at its own level is `(ni, nj)`: for each direction,
    /// the node of the adjacent cell at the same level, else one inside it
    /// up to four levels finer, else one covering it at a coarser level.
    pub fn neighbors_of(&self, tree: &Tree, node_id: usize, ni: i64, nj: i64) -> (res: [Option<
        usize,
    >; 8])
        requires
            kids_in_range(tree.nodes@),
            tree.nodes.len() < u32::MAX,
            node_id < tree.nodes.len(),
            node_level(tree.nodes@, node_id as int) <= 62,
            coord_ok(ni),
            coord_ok(nj),
        ensures
            forall|k: int|
                0 <= k < 8 ==> #[trigger] res[k] == neighbor_at(
                    self@,
                    node_level(tree.nodes@, node_id as int) as u32,
                    ni + dir_i(k),
                    nj + dir_j(k),
                ),
            ({
                let lv = node_level(tree.nodes@, node_id as int) as u32;
                &&& res[0] == neighbor_at(self@, lv, ni + 1, nj as int)
                &&& res[1] == neighbor_at(self@, lv, ni + 1, nj + 1)
                &&& res[2] == neighbor_at(self@, lv, ni as int, nj + 1)
                &&& res[3] == neighbor_at(self@, lv, ni - 1, nj + 1)
                &&& res[4] == neighbor_at(self@, lv, ni - 1, nj as int)
                &&& res[5] == neighbor_at(self@, lv, ni - 1, nj - 1)
                &&& res[6] == neighbor_at(self@, lv, ni as int, nj - 1)
                &&& res[7] == neighbor_at(self@, lv, ni + 1, nj - 1)
            }),
    {
        let levels: Vec<u32> = compute_levels(tree);
        let lv: u32 = levels[node_id];
        let mut result: [Option<usize>; 8] = [None; 8];
        let mut k: usize = 0;
        while k < 8
            invariant
                0 <= k <= 8,
                lv == node_level(tree.nodes@, node_id as int),
                lv <= 62,
                coord_ok(ni),
                coord_ok(nj),
                forall|q: int|
                    0 <= q < k ==> #[trigger] result[q] == neighbor_at(
                        self@,
                        lv,
                        ni + dir_i(q),
                        nj + dir_j(q),
                    ),
            decreases 8 - k,
        {
            let (di, dj) = dir_steps(k);
            let found: Option<usize> = self.neighbor_in(lv, ni + di, nj + dj);
            result[k] = found;
            k = k + 1;
        }
        proof {
            law_neighbour_directions();
            assert(result[0] == neighbor_at(self@, lv, ni + dir_i(0), nj + dir_j(0)));
            assert(result[1] == neighbor_at(self@, lv, ni + dir_i(1), nj + dir_j(1)));
            assert(result[2] == neighbor_at(self@, lv, ni + dir_i(2), nj + dir_j(2)));
            assert(result[3] == neighbor_at(self@, lv, ni + dir_i(3), nj + dir_j(3)));
            assert(result[4] == neighbor_at(self@, lv, ni + dir_i(4), nj + dir_j(4)));
            assert(result[5] == neighbor_at(self@, lv, ni + dir_i(5), nj + dir_j(5)));
            assert(result[6] == neighbor_at(self@, lv, ni + dir_i(6), nj + dir_j(6)));
            assert(result[7] == neighbor_at(self@, lv, ni + dir_i(7), nj + dir_j(7)));
        }
        result
    }
}

/// Looking up a node's own key after building finds that node or a later
/// one with the same key; with keys that differ, it finds the node itself.
pub proof fn law_index_finds_own_key(nodes: Seq<Node>, cells: Seq<(i64, i64)>, upto: int, id: int)
    requires
        0 <= id < upto <= cells.len(),
        upto <= nodes.len() <= usize::MAX,
    ensures
        index_map(nodes, cells, upto).contains_key(node_key(nodes, cells, id)),
        id <= index_map(nodes, cells, upto)[node_key(nodes, cells, id)] < upto,
        node_key(nodes, cells, index_map(nodes, cells, upto)[node_key(nodes, cells, id)] as int)
            == node_key(nodes, cells, id),
    decreases upto,
{
    if id < upto - 1 {
        law_index_finds_own_key(nodes, cells, upto - 1, id);
    }
}

} // verus!
