//! Ordering bodies along the Z-order curve: a stable merge sort of body
//! indices by Morton key, and applying the resulting permutation.
use vstd::prelude::*;
use vstd::seq_lib::*;
use crate::tree::{Tree, chunk_ranges, max_leaves, morton_hierarchy};

verus! {

/// Body `a` comes before body `b`: smaller key, or equal keys and smaller
/// index (the order of a stable sort).
pub open spec fn key_before(keys: Seq<u64>, a: usize, b: usize) -> bool {
    keys[a as int] < keys[b as int] || (keys[a as int] == keys[b as int] && a < b)
}

/// Entries `[lo, hi)` of `s` are in `key_before` order.
pub open spec fn sorted_between(keys: Seq<u64>, s: Seq<usize>, lo: int, hi: int) -> bool {
    forall|x: int, y: int| lo <= x < y < hi ==> key_before(keys, #[trigger] s[x], #[trigger] s[y])
}

/// The identity order `0, 1, ..., n-1`.
pub open spec fn identity_order(n: nat) -> Seq<usize> {
    Seq::new(n, |i: int| i as usize)
}

/// Appends the merge of the sorted runs `src[lo..mid)` and `src[mid..hi)`
/// to `dst`, taking from the left run on ties.
fn merge_runs(keys: &Vec<u64>, src: &Vec<usize>, lo: usize, mid: usize, hi: usize, dst: &mut Vec<usize>)
    requires
        lo <= mid <= hi <= src.len(),
        old(dst).len() == lo,
        sorted_between(keys@, src@, lo as int, mid as int),
        sorted_between(keys@, src@, mid as int, hi as int),
        forall|x: int, y: int| lo <= x < y < hi ==> #[trigger] src@[x] != #[trigger] src@[y],
        forall|x: int| lo <= x < hi ==> #[trigger] src@[x] < keys.len(),
    ensures
        final(dst).len() == hi,
        forall|x: int| 0 <= x < lo ==> #[trigger] final(dst)@[x] == old(dst)@[x],
        sorted_between(keys@, final(dst)@, lo as int, hi as int),
        forall|x: int| lo <= x < hi ==> #[trigger] final(dst)@[x] < keys.len(),
        final(dst)@.to_multiset() =~= old(dst)@.to_multiset().add(
            src@.subrange(lo as int, hi as int).to_multiset(),
        ),
{
    broadcast use group_to_multiset_ensures, vstd::multiset::group_multiset_axioms;

    let ghost d0: Seq<usize> = dst@;
    let mut i: usize = lo;
    let mut j: usize = mid;
    while i < mid || j < hi
        invariant
            lo <= i <= mid <= j <= hi <= src.len(),
            dst.len() == lo + (i - lo) + (j - mid),
            forall|x: int| 0 <= x < lo ==> #[trigger] dst@[x] == d0[x],
            sorted_between(keys@, src@, lo as int, mid as int),
            sorted_between(keys@, src@, mid as int, hi as int),
            forall|x: int, y: int| lo <= x < y < hi ==> #[trigger] src@[x] != #[trigger] src@[y],
            forall|x: int| lo <= x < hi ==> #[trigger] src@[x] < keys.len(),
            sorted_between(keys@, dst@, lo as int, dst.len() as int),
            forall|x: int| lo <= x < dst.len() ==> #[trigger] dst@[x] < keys.len(),
            forall|x: int|
                lo <= x < dst.len() ==> (i < mid ==> key_before(keys@, #[trigger] dst@[x], src@[i as int]))
                    && (j < hi ==> key_before(keys@, dst@[x], src@[j as int])),
            dst@.to_multiset() =~= d0.to_multiset().add(
                src@.subrange(lo as int, i as int).to_multiset(),
            ).add(src@.subrange(mid as int, j as int).to_multiset()),
        decreases (mid - i) + (hi - j),
    {
        let take_left: bool = if i < mid && j < hi {
            let a: usize = src[i];
            let b: usize = src[j];
            !(keys[b] < keys[a] || (keys[b] == keys[a] && b < a))
        } else {
            i < mid
        };
        let ghost before: Seq<usize> = dst@;
        let ghost i0: int = i as int;
        let ghost j0: int = j as int;
        if take_left {
            let v: usize = src[i];
            proof {
                if j < hi {
                    assert(src@[i as int] != src@[j as int]);
                    assert(key_before(keys@, v, src@[j as int]));
                }
                if i + 1 < mid {
                    assert(key_before(keys@, src@[i as int], src@[i + 1]));
                }
                assert(src@.subrange(lo as int, i + 1) =~= src@.subrange(lo as int, i as int).push(v));
            }
            dst.push(v);
            i = i + 1;
        } else {
            let v: usize = src[j];
            proof {
                if i < mid {
                    assert(key_before(keys@, v, src@[i as int]));
                }
                if j + 1 < hi {
                    assert(key_before(keys@, src@[j as int], src@[j + 1]));
                }
                assert(src@.subrange(mid as int, j + 1) =~= src@.subrange(mid as int, j as int).push(v));
            }
            dst.push(v);
            j = j + 1;
        }
        proof {
            let v = dst@[dst.len() - 1];
            assert(dst@ =~= before.push(v));
            to_multiset_build(before, v);
            let a = d0.to_multiset();
            let b0 = src@.subrange(lo as int, i0).to_multiset();
            let c0 = src@.subrange(mid as int, j0).to_multiset();
            if take_left {
                to_multiset_build(src@.subrange(lo as int, i0), v);
                assert(a.add(b0.insert(v)).add(c0) =~= a.add(b0).add(c0).insert(v));
            } else {
                to_multiset_build(src@.subrange(mid as int, j0), v);
                assert(a.add(b0).add(c0.insert(v)) =~= a.add(b0).add(c0).insert(v));
            }
        }
    }
    proof {
        let l = src@.subrange(lo as int, mid as int);
        let r = src@.subrange(mid as int, hi as int);
        assert(src@.subrange(lo as int, hi as int) =~= l + r);
        lemma_multiset_commutative(l, r);
    }
}

/// Smaller of two integers.
pub open spec fn min_int(a: int, b: int) -> int {
    if a <= b {
        a
    } else {
        b
    }
}

/// Every block `[b*w, (b+1)*w)` of `s` (cut at `n`) is sorted.
pub open spec fn blocks_sorted(keys: Seq<u64>, s: Seq<usize>, w: int, n: int) -> bool {
    forall|b: int|
        0 <= b && #[trigger] (b * w) < n ==> sorted_between(keys, s, b * w, min_int((b + 1) * w, n))
}

/// A rearrangement of `0..n` has no repeated entry and no entry `>= n`.
pub proof fn lemma_permutation_facts(v: Seq<usize>, n: nat)
    requires
        n < usize::MAX,
        v.to_multiset() =~= identity_order(n).to_multiset(),
    ensures
        v.no_duplicates(),
        forall|x: int| 0 <= x < v.len() ==> #[trigger] v[x] < n,
        v.len() == n,
{
    broadcast use group_to_multiset_ensures;

    let id = identity_order(n);
    assert forall|a: int, b: int| 0 <= a < id.len() && 0 <= b < id.len() && a != b implies id[a]
        != id[b] by {}
    assert(id.no_duplicates());
    id.lemma_multiset_has_no_duplicates();
    assert forall|x: usize| v.to_multiset().contains(x) implies v.to_multiset().count(x) == 1 by {}
    v.lemma_multiset_has_no_duplicates_conv();
    assert forall|x: int| 0 <= x < v.len() implies #[trigger] v[x] < n by {
        assert(v.contains(v[x]));
        assert(v.to_multiset().count(v[x]) > 0);
        assert(id.to_multiset().count(v[x]) > 0);
        assert(id.contains(v[x]));
        let t = choose|t: int| 0 <= t < id.len() && id[t] == v[x];
    }
    assert(v.len() == v.to_multiset().len());
    assert(id.len() == id.to_multiset().len());
}

/// Body indices `0..n` in order of their Morton keys, equal keys in index
/// order (a stable sort).
pub fn sort_indices_by_key(keys: &Vec<u64>) -> (order: Vec<usize>)
    requires
        keys.len() < usize::MAX / 4,
    ensures
        order.len() == keys.len(),
        order@.no_duplicates(),
        forall|x: int| 0 <= x < order.len() ==> #[trigger] order@[x] < keys.len(),
        sorted_between(keys@, order@, 0, keys.len() as int),
{
    let n: usize = keys.len();
    let mut v: Vec<usize> = Vec::new();
    for i in 0..n
        invariant
            v.len() == i,
            forall|x: int| 0 <= x < i ==> #[trigger] v@[x] == x,
    {
        v.push(i);
    }
    proof {
        assert(v@ =~= identity_order(n as nat));
        assert forall|b: int| 0 <= b && #[trigger] (b * 1) < n implies sorted_between(
            keys@,
            v@,
            b * 1,
            min_int((b + 1) * 1, n as int),
        ) by {}
    }
    let mut width: usize = 1;
    while width < n
        invariant
            n == keys.len(),
            n < usize::MAX / 4,
            1 <= width <= 2 * n + 1,
            v@.to_multiset() =~= identity_order(n as nat).to_multiset(),
            blocks_sorted(keys@, v@, width as int, n as int),
        decreases 2 * n + 1 - width,
    {
        proof {
            lemma_permutation_facts(v@, n as nat);
        }
        let w2: usize = width * 2;
        let mut dst: Vec<usize> = Vec::new();
        let mut lo: usize = 0;
        let ghost mut k: int = 0;
        assert(dst@ =~= v@.subrange(0, 0));
        while lo < n
            invariant
                n == keys.len(),
                n < usize::MAX / 4,
                1 <= width < n,
                w2 == 2 * width,
                v.len() == n,
                v@.no_duplicates(),
                forall|x: int| 0 <= x < v.len() ==> #[trigger] v@[x] < n,
                blocks_sorted(keys@, v@, width as int, n as int),
                0 <= k,
                dst.len() == lo,
                lo <= n,
                lo < n ==> lo == k * w2,
                lo == n ==> k * w2 >= n,
                forall|c: int|
                    0 <= c < k ==> sorted_between(
                        keys@,
                        dst@,
                        #[trigger] (c * w2),
                        min_int((c + 1) * w2, n as int),
                    ),
                forall|x: int| 0 <= x < lo ==> #[trigger] dst@[x] < n,
                dst@.to_multiset() =~= v@.subrange(0, lo as int).to_multiset(),
            decreases n - lo,
        {
            let mid: usize = if lo + width < n {
                lo + width
            } else {
                n
            };
            let hi: usize = if lo + w2 < n {
                lo + w2
            } else {
                n
            };
            proof {
                assert((2 * k) * width == k * w2) by (nonlinear_arith)
                    requires
                        w2 == 2 * width,
                ;
                assert((2 * k + 1) * width == k * w2 + width) by (nonlinear_arith)
                    requires
                        w2 == 2 * width,
                ;
                assert((2 * k + 2) * width == k * w2 + w2) by (nonlinear_arith)
                    requires
                        w2 == 2 * width,
                ;
                assert(sorted_between(keys@, v@, (2 * k) * width, min_int((2 * k + 1) * width, n as int)));
                if mid < n {
                    assert(((2 * k + 1) * width) < n);
                    assert(sorted_between(
                        keys@,
                        v@,
                        (2 * k + 1) * width,
                        min_int((2 * k + 2) * width, n as int),
                    ));
                }
                assert forall|x: int, y: int| lo <= x < y < hi implies #[trigger] v@[x]
                    != #[trigger] v@[y] by {
                    assert(v@.no_duplicates());
                }
            }
            let ghost before: Seq<usize> = dst@;
            merge_runs(keys, &v, lo, mid, hi, &mut dst);
            proof {
                assert forall|c: int|
                    0 <= c < k + 1 implies sorted_between(
                    keys@,
                    dst@,
                    #[trigger] (c * w2),
                    min_int((c + 1) * w2, n as int),
                ) by {
                    if c < k {
                        assert(c * w2 + w2 <= k * w2) by (nonlinear_arith)
                            requires
                                c < k,
                                w2 > 0,
                        ;
                        assert((c + 1) * w2 == c * w2 + w2) by (nonlinear_arith);
                        assert(sorted_between(keys@, before, c * w2, min_int((c + 1) * w2, n as int)));
                    } else {
                        assert((k + 1) * w2 == k * w2 + w2) by (nonlinear_arith);
                    }
                }
                let s0 = v@.subrange(0, lo as int);
                let s1 = v@.subrange(lo as int, hi as int);
                assert(v@.subrange(0, hi as int) =~= s0 + s1);
                lemma_multiset_commutative(s0, s1);
                if hi == n {
                    assert(k * w2 + w2 >= n);
                    assert((k + 1) * w2 == k * w2 + w2) by (nonlinear_arith);
                } else {
                    assert((k + 1) * w2 == k * w2 + w2) by (nonlinear_arith);
                }
                k = k + 1;
            }
            lo = hi;
        }
        proof {
            assert(v@.subrange(0, n as int) =~= v@);
            assert forall|b: int|
                0 <= b && #[trigger] (b * w2) < n implies sorted_between(
                keys@,
                dst@,
                b * w2,
                min_int((b + 1) * w2, n as int),
            ) by {
                assert(b < k) by (nonlinear_arith)
                    requires
                        b * w2 < n,
                        k * w2 >= n,
                        w2 > 0,
                ;
            }
        }
        v = dst;
        width = w2;
    }
    proof {
        lemma_permutation_facts(v@, n as nat);
        if n > 0 {
            assert(0 * width == 0);
            assert(min_int((0 + 1) * width, n as int) == n);
        }
    }
    v
}

/// Rearranges `values` so that entry `i` becomes the old entry
/// `order[i]`.
pub fn permute<T: Copy>(values: &mut Vec<T>, order: &Vec<usize>)
    requires
        order.len() == old(values).len(),
        forall|x: int| 0 <= x < order.len() ==> #[trigger] order@[x] < old(values).len(),
    ensures
        final(values).len() == old(values).len(),
        forall|x: int|
            0 <= x < order.len() ==> #[trigger] final(values)@[x] == old(values)@[order@[x] as int],
{
    let mut tmp: Vec<T> = Vec::new();
    for q in 0..order.len()
        invariant
            order.len() == values.len(),
            forall|x: int| 0 <= x < order.len() ==> #[trigger] order@[x] < values.len(),
            tmp.len() == q,
            forall|x: int| 0 <= x < q ==> #[trigger] tmp@[x] == values@[order@[x] as int],
    {
        tmp.push(values[order[q]]);
    }
    *values = tmp;
}

/// The keys of the bodies taken in `order`.
pub open spec fn keys_in_order(keys: Seq<u64>, order: Seq<usize>) -> Seq<u64> {
    Seq::new(order.len(), |i: int| keys[order[i] as int])
}

/// Taken in a sorted order, the keys never decrease: the bodies follow
/// the Z-order curve.
pub proof fn law_sorted_keys_nondecreasing(keys: Seq<u64>, order: Seq<usize>, i: int, j: int)
    requires
        sorted_between(keys, order, 0, order.len() as int),
        0 <= i <= j < order.len(),
    ensures
        keys_in_order(keys, order)[i] <= keys_in_order(keys, order)[j],
{
    if i < j {
        assert(key_before(keys, order[i], order[j]));
    }
}

impl Tree {
    /// Sorts the bodies along the Z-order curve and builds the tree over
    /// them: returns the tree and the order (entry `i` is the body that
    /// goes to place `i`), by key and, for equal keys, by index.
    pub fn build_sorted(keys: &Vec<u64>, n_max: usize) -> (res: (Tree, Vec<usize>))
        requires
            n_max > 0,
            keys.len() < usize::MAX / 4,
            keys.len() + n_max <= usize::MAX,
            (keys.len() + n_max - 1) / (n_max as int) <= max_leaves(),
            forall|k: int| 0 <= k < keys.len() ==> #[trigger] keys[k] < 0x40000000000u64,
        ensures
            res.1.len() == keys.len(),
            res.1@.no_duplicates(),
            forall|x: int| 0 <= x < res.1.len() ==> #[trigger] res.1@[x] < keys.len(),
            sorted_between(keys@, res.1@, 0, keys.len() as int),
            res.0.n_max == n_max,
            morton_hierarchy(
                res.0.nodes@,
                keys_in_order(keys@, res.1@),
                chunk_ranges(keys.len() as int, n_max as int),
            ),
    {
        let order: Vec<usize> = sort_indices_by_key(keys);
        let mut sorted: Vec<u64> = keys.clone();
        permute(&mut sorted, &order);
        proof {
            assert(sorted@ =~= keys_in_order(keys@, order@));
        }
        let tree: Tree = Tree::build(&sorted, n_max);
        (tree, order)
    }
}

} // verus!
