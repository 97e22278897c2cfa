//! Random sampling of body indices for spot checks against the direct sum.
use vstd::prelude::*;
use crate::order::{identity_order, lemma_permutation_facts};

verus! {

/// Shuffles `v` in place with `fastrand::shuffle`, the thread-local
/// generator's Fisher-Yates shuffle: the result is some permutation of
/// the input, which one depending on the generator's state.
#[verifier::external_body]
fn shuffle_in_place(v: &mut Vec<usize>)
    ensures
        final(v)@.len() == old(v)@.len(),
        final(v)@.to_multiset() == old(v)@.to_multiset(),
{
    fastrand::shuffle(v.as_mut_slice());
}

/// How many indices a draw of `sample_size` out of `n` bodies yields.
pub open spec fn sample_len(n: nat, sample_size: nat) -> nat {
    if sample_size < n {
        sample_size
    } else {
        n
    }
}

/// `perm` lists each of the indices `0..n` exactly once, in some order.
pub open spec fn is_index_permutation(perm: Seq<usize>, n: nat) -> bool {
    &&& perm.len() == n
    &&& perm.to_multiset() == identity_order(n).to_multiset()
}

/// The first `min(k, shuffled.len())` entries of `shuffled`, in order.
pub fn first_indices(shuffled: Vec<usize>, k: usize) -> (picked: Vec<usize>)
    ensures
        picked@ == shuffled@.take(sample_len(shuffled.len() as nat, k as nat) as int),
{
    let mut picked = shuffled;
    let take: usize = if k < picked.len() {
        k
    } else {
        picked.len()
    };
    picked.truncate(take);
    picked
}

/// Up to `sample_size` distinct body indices below `n`, drawn at random:
/// the first `min(sample_size, n)` entries of a random permutation of
/// `0..n`.
pub fn sample_indices(n: usize, sample_size: usize) -> (picked: Vec<usize>)
    requires
        n < usize::MAX,
    ensures
        exists|perm: Seq<usize>|
            #[trigger] is_index_permutation(perm, n as nat) && picked@ == perm.take(
                sample_len(n as nat, sample_size as nat) as int,
            ),
        picked.len() == sample_len(n as nat, sample_size as nat),
        picked@.no_duplicates(),
        forall|k: int| 0 <= k < picked.len() ==> #[trigger] picked@[k] < n,
{
    let mut indices: Vec<usize> = Vec::new();
    for i in 0..n
        invariant
            indices@ == identity_order(i as nat),
    {
        indices.push(i);
        proof {
            assert(indices@ =~= identity_order((i + 1) as nat));
        }
    }
    shuffle_in_place(&mut indices);
    proof {
        lemma_permutation_facts(indices@, n as nat);
    }
    let ghost full: Seq<usize> = indices@;
    let picked = first_indices(indices, sample_size);
    proof {
        assert(is_index_permutation(full, n as nat));
        assert forall|a: int, b: int|
            0 <= a < picked.len() && 0 <= b < picked.len() && a != b implies picked@[a]
            != picked@[b] by {
            assert(picked@[a] == full[a]);
            assert(picked@[b] == full[b]);
        }
        assert forall|k: int| 0 <= k < picked.len() implies #[trigger] picked@[k] < n by {
            assert(picked@[k] == full[k]);
        }
    }
    picked
}

} // verus!
