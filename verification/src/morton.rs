//! Morton (Z-order) keys: interleaving the bits of two 21-bit cell
//! coordinates into one 42-bit key, and taking them apart again.
use vstd::prelude::*;

verus! {

/// Number of bits kept from each grid coordinate.
pub const MORTON_BITS: u64 = 21;

/// Bit `k` of `x`, as a boolean.
pub open spec fn bit_of(x: u64, k: u64) -> bool {
    (x >> k) & 1u64 == 1u64
}

/// Spreads the low 21 bits of `v` to the even bit positions: bit `k` of
/// `v` moves to bit `2k`, every other bit of the result is zero.
pub fn spread_bits(v: u64) -> (r: u64)
    ensures
        forall|k: u64| k < 42 && k % 2 == 0 ==> #[trigger] bit_of(r, k) == bit_of(v, k / 2),
        forall|k: u64| k < 64 && (k % 2 == 1 || k >= 42) ==> !#[trigger] bit_of(r, k),
        r <= 0x155555555555u64,
{
    let x0 = v & 0x1fffffu64;
    let x1 = (x0 | (x0 << 16u64)) & 0x0000ffff0000ffffu64;
    let x2 = (x1 | (x1 << 8u64)) & 0x00ff00ff00ff00ffu64;
    let x3 = (x2 | (x2 << 4u64)) & 0x0f0f0f0f0f0f0f0fu64;
    let x4 = (x3 | (x3 << 2u64)) & 0x3333333333333333u64;
    let x5 = (x4 | (x4 << 1u64)) & 0x5555555555555555u64;
    proof {
        assert forall|k: u64| k < 42 && k % 2 == 0 implies #[trigger] bit_of(x5, k) == bit_of(v, k / 2) by {
            assert(((x5 >> k) & 1u64 == 1u64) == ((v >> (k / 2)) & 1u64 == 1u64)) by (bit_vector)
                requires
                    k < 42,
                    k % 2 == 0,
                    x0 == v & 0x1fffffu64,
                    x1 == (x0 | (x0 << 16u64)) & 0x0000ffff0000ffffu64,
                    x2 == (x1 | (x1 << 8u64)) & 0x00ff00ff00ff00ffu64,
                    x3 == (x2 | (x2 << 4u64)) & 0x0f0f0f0f0f0f0f0fu64,
                    x4 == (x3 | (x3 << 2u64)) & 0x3333333333333333u64,
                    x5 == (x4 | (x4 << 1u64)) & 0x5555555555555555u64,
            ;
        }
        assert forall|k: u64| k < 64 && (k % 2 == 1 || k >= 42) implies !#[trigger] bit_of(x5, k) by {
            assert((x5 >> k) & 1u64 != 1u64) by (bit_vector)
                requires
                    k < 64,
                    k % 2 == 1 || k >= 42,
                    x0 == v & 0x1fffffu64,
                    x1 == (x0 | (x0 << 16u64)) & 0x0000ffff0000ffffu64,
                    x2 == (x1 | (x1 << 8u64)) & 0x00ff00ff00ff00ffu64,
                    x3 == (x2 | (x2 << 4u64)) & 0x0f0f0f0f0f0f0f0fu64,
                    x4 == (x3 | (x3 << 2u64)) & 0x3333333333333333u64,
                    x5 == (x4 | (x4 << 1u64)) & 0x5555555555555555u64,
            ;
        }
        assert(x5 <= 0x155555555555u64) by (bit_vector)
            requires
                x0 == v & 0x1fffffu64,
                x1 == (x0 | (x0 << 16u64)) & 0x0000ffff0000ffffu64,
                x2 == (x1 | (x1 << 8u64)) & 0x00ff00ff00ff00ffu64,
                x3 == (x2 | (x2 << 4u64)) & 0x0f0f0f0f0f0f0f0fu64,
                x4 == (x3 | (x3 << 2u64)) & 0x3333333333333333u64,
                x5 == (x4 | (x4 << 1u64)) & 0x5555555555555555u64,
        ;
    }
    x5
}


/// Takes the even bits of `x` back together: bit `2k` of `x` becomes bit
/// `k` of the result (for `k < 32`); the odd bits of `x` are dropped.
pub fn compact_bits(x: u64) -> (r: u64)
    ensures
        forall|k: u64| k < 32 ==> #[trigger] bit_of(r, k) == bit_of(x, (2 * k) as u64),
        forall|k: u64| 32 <= k < 64 ==> !#[trigger] bit_of(r, k),
{
    let x0 = x & 0x5555555555555555u64;
    let x1 = (x0 | (x0 >> 1u64)) & 0x3333333333333333u64;
    let x2 = (x1 | (x1 >> 2u64)) & 0x0f0f0f0f0f0f0f0fu64;
    let x3 = (x2 | (x2 >> 4u64)) & 0x00ff00ff00ff00ffu64;
    let x4 = (x3 | (x3 >> 8u64)) & 0x0000ffff0000ffffu64;
    let x5 = (x4 | (x4 >> 16u64)) & 0x00000000ffffffffu64;
    proof {
        assert forall|k: u64| k < 32 implies #[trigger] bit_of(x5, k) == bit_of(x, (2 * k) as u64) by {
            let k2: u64 = (2 * k) as u64;
            assert(((x5 >> k) & 1u64 == 1u64) == ((x >> k2) & 1u64 == 1u64)) by (bit_vector)
                requires
                    k < 32,
                    k2 == 2 * k,
                    x0 == x & 0x5555555555555555u64,
                    x1 == (x0 | (x0 >> 1u64)) & 0x3333333333333333u64,
                    x2 == (x1 | (x1 >> 2u64)) & 0x0f0f0f0f0f0f0f0fu64,
                    x3 == (x2 | (x2 >> 4u64)) & 0x00ff00ff00ff00ffu64,
                    x4 == (x3 | (x3 >> 8u64)) & 0x0000ffff0000ffffu64,
                    x5 == (x4 | (x4 >> 16u64)) & 0x00000000ffffffffu64,
            ;
        }
        assert forall|k: u64| 32 <= k < 64 implies !#[trigger] bit_of(x5, k) by {
            assert((x5 >> k) & 1u64 != 1u64) by (bit_vector)
                requires
                    32 <= k < 64,
                    x5 == (x4 | (x4 >> 16u64)) & 0x00000000ffffffffu64,
            ;
        }
    }
    x5
}

/// `key` interleaves the low 21 bits of `xi` (even positions) and `yi`
/// (odd positions); bits 42 and above are zero.
pub open spec fn interleaves(key: u64, xi: u64, yi: u64) -> bool {
    &&& forall|k: u64| k < 42 && k % 2 == 0 ==> #[trigger] bit_of(key, k) == bit_of(xi, k / 2)
    &&& forall|k: u64| k < 42 && k % 2 == 1 ==> #[trigger] bit_of(key, k) == bit_of(yi, k / 2)
    &&& forall|k: u64| 42 <= k < 64 ==> !#[trigger] bit_of(key, k)
}

/// `c` holds the even bits of `key` (bit `2k` of `key` at bit `k`) and
/// nothing else.
pub open spec fn gathers_even_bits(c: u64, key: u64) -> bool {
    &&& forall|k: u64| k < 32 ==> #[trigger] bit_of(c, k) == bit_of(key, (2 * k) as u64)
    &&& forall|k: u64| 32 <= k < 64 ==> !#[trigger] bit_of(c, k)
}

/// Morton key of the grid cell `(xi, yi)`: the low 21 bits of `xi` go
/// to the even bits, those of `yi` to the odd bits.
pub fn morton_key(xi: u64, yi: u64) -> (key: u64)
    ensures
        interleaves(key, xi, yi),
        key < 0x40000000000u64,
{
    let sx: u64 = spread_bits(xi);
    let sy: u64 = spread_bits(yi);
    let key: u64 = sx | (sy << 1u64);
    proof {
        assert forall|k: u64| k < 64 implies #[trigger] bit_of(key, k) == (bit_of(sx, k) || (k >= 1
            && bit_of(sy, (k - 1) as u64))) by {
            let km1: u64 = if k >= 1 { (k - 1) as u64 } else { 0 };
            assert(((key >> k) & 1u64 == 1u64) == (((sx >> k) & 1u64 == 1u64) || (k >= 1 && (sy
                >> km1) & 1u64 == 1u64))) by (bit_vector)
                requires
                    k < 64,
                    key == sx | (sy << 1u64),
                    k >= 1 ==> km1 == k - 1,
            ;
        }
        assert forall|k: u64| k < 42 && k % 2 == 1 implies #[trigger] bit_of(key, k) == bit_of(
            yi,
            k / 2,
        ) by {
            assert(bit_of(key, k) == (bit_of(sx, k) || bit_of(sy, (k - 1) as u64)));
            assert(!bit_of(sx, k));
            assert(bit_of(sy, (k - 1) as u64) == bit_of(yi, ((k - 1) as u64) / 2));
        }
        assert forall|k: u64| k < 42 && k % 2 == 0 implies #[trigger] bit_of(key, k) == bit_of(
            xi,
            k / 2,
        ) by {
            assert(bit_of(key, k) == (bit_of(sx, k) || (k >= 1 && bit_of(sy, (k - 1) as u64))));
            if k >= 1 {
                assert(!bit_of(sy, (k - 1) as u64));
            }
        }
        assert forall|k: u64| 42 <= k < 64 implies !#[trigger] bit_of(key, k) by {
            assert(bit_of(key, k) == (bit_of(sx, k) || bit_of(sy, (k - 1) as u64)));
            assert(!bit_of(sx, k));
            assert(!bit_of(sy, (k - 1) as u64));
        }
        lemma_high_zero_bound(key);
    }
    key
}

/// The grid cell `(xi, yi)` that a Morton key names: its even bits give
/// `xi`, its odd bits give `yi`.
pub fn morton_cell(key: u64) -> (cell: (u64, u64))
    ensures
        gathers_even_bits(cell.0, key),
        gathers_even_bits(cell.1, key >> 1u64),
{
    (compact_bits(key), compact_bits(key >> 1u64))
}

/// Two words with the same 64 bits are equal.
pub proof fn lemma_bits_determine_word(a: u64, b: u64)
    requires
        forall|k: u64| k < 64 ==> #[trigger] bit_of(a, k) == bit_of(b, k),
    ensures
        a == b,
{
    lemma_equal_from_bit(a, b, 64);
    assert(a >> 0u64 == a) by (bit_vector);
    assert(b >> 0u64 == b) by (bit_vector);
}

proof fn lemma_equal_from_bit(a: u64, b: u64, n: u64)
    requires
        n <= 64,
        forall|k: u64| k < 64 ==> #[trigger] bit_of(a, k) == bit_of(b, k),
    ensures
        a >> (64 - n) as u64 == b >> (64 - n) as u64,
    decreases n,
{
    if n == 0 {
        assert(a >> 64u64 == 0u64 && b >> 64u64 == 0u64) by (bit_vector);
    } else {
        lemma_equal_from_bit(a, b, (n - 1) as u64);
        let s: u64 = (64 - n) as u64;
        let s1: u64 = (s + 1) as u64;
        assert(bit_of(a, s) == bit_of(b, s));
        assert(a >> s == b >> s) by (bit_vector)
            requires
                s < 64,
                s1 == s + 1,
                a >> s1 == b >> s1,
                ((a >> s) & 1u64 == 1u64) == ((b >> s) & 1u64 == 1u64),
        ;
    }
}

/// A word whose bits 42 and above are clear is below `2^42`.
pub proof fn lemma_high_zero_bound(key: u64)
    requires
        forall|k: u64| 42 <= k < 64 ==> !#[trigger] bit_of(key, k),
    ensures
        key < 0x40000000000u64,
{
    let h: u64 = key >> 42u64;
    assert forall|k: u64| k < 64 implies #[trigger] bit_of(h, k) == bit_of(0u64, k) by {
        lemma_bit_of_shr(key, 42, k);
        assert((0u64 >> k) & 1u64 != 1u64) by (bit_vector);
    }
    lemma_bits_determine_word(h, 0u64);
    assert(key < 0x40000000000u64) by (bit_vector)
        requires
            h == key >> 42u64,
            h == 0u64,
    ;
}

/// Bit `k` of `x >> s` is bit `k + s` of `x` (zero past the top).
pub proof fn lemma_bit_of_shr(x: u64, s: u64, k: u64)
    requires
        s < 64,
        k < 64,
    ensures
        bit_of(x >> s, k) == (k + s < 64 && bit_of(x, (k + s) as u64)),
{
    let ks: u64 = if k + s < 64 { (k + s) as u64 } else { 0 };
    assert((((x >> s) >> k) & 1u64 == 1u64) == (k + s < 64 && (x >> ks) & 1u64 == 1u64))
        by (bit_vector)
        requires
            s < 64,
            k < 64,
            k + s < 64 ==> ks == k + s,
    ;
}

/// A value below `2^21` has no bit set at position 21 or above.
pub proof fn lemma_high_bits_clear(x: u64, k: u64)
    requires
        x < 0x200000u64,
        21 <= k < 64,
    ensures
        !bit_of(x, k),
{
    assert((x >> k) & 1u64 != 1u64) by (bit_vector)
        requires
            x < 0x200000u64,
            21 <= k < 64,
    ;
}

/// Decoding a Morton key gives back the cell it was made from: the even
/// bits of `interleave(xi, yi)` are `xi` and its odd bits are `yi`, for
/// cell coordinates below `2^21`.
pub proof fn law_morton_round_trip(xi: u64, yi: u64, key: u64, cx: u64, cy: u64)
    requires
        xi < 0x200000u64,
        yi < 0x200000u64,
        interleaves(key, xi, yi),
        gathers_even_bits(cx, key),
        gathers_even_bits(cy, key >> 1u64),
    ensures
        cx == xi,
        cy == yi,
{
    assert forall|k: u64| k < 64 implies #[trigger] bit_of(cx, k) == bit_of(xi, k) by {
        if k < 32 {
            let k2: u64 = (2 * k) as u64;
            if k < 21 {
                assert(bit_of(key, k2) == bit_of(xi, k2 / 2));
            } else {
                assert(!bit_of(key, k2));
                lemma_high_bits_clear(xi, k);
            }
        } else {
            lemma_high_bits_clear(xi, k);
        }
    }
    lemma_bits_determine_word(cx, xi);
    assert forall|k: u64| k < 64 implies #[trigger] bit_of(cy, k) == bit_of(yi, k) by {
        if k < 32 {
            let k2: u64 = (2 * k) as u64;
            lemma_bit_of_shr(key, 1, k2);
            let k3: u64 = (k2 + 1) as u64;
            if k < 21 {
                assert(bit_of(key, k3) == bit_of(yi, k3 / 2));
            } else {
                assert(!bit_of(key, k3));
                lemma_high_bits_clear(yi, k);
            }
        } else {
            lemma_high_bits_clear(yi, k);
        }
    }
    lemma_bits_determine_word(cy, yi);
}

/// Distinct cells (with coordinates below `2^21`) have distinct Morton
/// keys.
pub proof fn law_morton_injective(a: u64, b: u64, c: u64, d: u64, key: u64)
    requires
        a < 0x200000u64,
        b < 0x200000u64,
        c < 0x200000u64,
        d < 0x200000u64,
        interleaves(key, a, b),
        interleaves(key, c, d),
    ensures
        a == c,
        b == d,
{
    assert forall|k: u64| k < 64 implies #[trigger] bit_of(a, k) == bit_of(c, k) by {
        if k < 21 {
            let k2: u64 = (2 * k) as u64;
            assert(bit_of(key, k2) == bit_of(a, k2 / 2));
            assert(bit_of(key, k2) == bit_of(c, k2 / 2));
        } else {
            lemma_high_bits_clear(a, k);
            lemma_high_bits_clear(c, k);
        }
    }
    lemma_bits_determine_word(a, c);
    assert forall|k: u64| k < 64 implies #[trigger] bit_of(b, k) == bit_of(d, k) by {
        if k < 21 {
            let k2: u64 = (2 * k + 1) as u64;
            assert(bit_of(key, k2) == bit_of(b, k2 / 2));
            assert(bit_of(key, k2) == bit_of(d, k2 / 2));
        } else {
            lemma_high_bits_clear(b, k);
            lemma_high_bits_clear(d, k);
        }
    }
    lemma_bits_determine_word(b, d);
}

/// Dropping the lowest `2s` bits of a Morton key gives the Morton key of
/// the enclosing cell `2^s` times coarser: `key >> 2s` interleaves
/// `xi >> s` and `yi >> s`.
pub proof fn law_morton_prefix_is_parent_cell(key: u64, xi: u64, yi: u64, s: u64)
    requires
        s <= 21,
        xi < 0x200000u64,
        yi < 0x200000u64,
        interleaves(key, xi, yi),
    ensures
        interleaves(key >> (2 * s) as u64, xi >> s, yi >> s),
{
    let s2: u64 = (2 * s) as u64;
    let p = key >> s2;
    assert forall|k: u64| k < 42 && k % 2 == 0 implies #[trigger] bit_of(p, k) == bit_of(
        xi >> s,
        k / 2,
    ) by {
        lemma_bit_of_shr(key, s2, k);
        lemma_bit_of_shr(xi, s, k / 2);
        if k + s2 < 42 {
            let j: u64 = (k + s2) as u64;
            assert(bit_of(key, j) == bit_of(xi, j / 2));
            assert(j / 2 == k / 2 + s);
        } else {
            if k + s2 < 64 {
                assert(!bit_of(key, (k + s2) as u64));
            }
            lemma_high_bits_clear(xi, (k / 2 + s) as u64);
        }
    }
    assert forall|k: u64| k < 42 && k % 2 == 1 implies #[trigger] bit_of(p, k) == bit_of(
        yi >> s,
        k / 2,
    ) by {
        lemma_bit_of_shr(key, s2, k);
        lemma_bit_of_shr(yi, s, k / 2);
        if k + s2 < 42 {
            let j: u64 = (k + s2) as u64;
            assert(bit_of(key, j) == bit_of(yi, j / 2));
            assert(j / 2 == k / 2 + s);
        } else {
            if k + s2 < 64 {
                assert(!bit_of(key, (k + s2) as u64));
            }
            lemma_high_bits_clear(yi, (k / 2 + s) as u64);
        }
    }
    assert forall|k: u64| 42 <= k < 64 implies !#[trigger] bit_of(p, k) by {
        lemma_bit_of_shr(key, s2, k);
    }
}

} // verus!
