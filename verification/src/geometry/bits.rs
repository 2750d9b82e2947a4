//! Bit-level facts about u64 words used as sets.

use vstd::arithmetic::power2::{lemma2_to64, lemma_pow2_unfold, pow2};
use vstd::prelude::*;

verus! {

/// Whether bit `i` of `x` is set.
pub open spec fn bit(x: u64, i: u64) -> bool {
    (x >> i) & 1u64 == 1u64
}

/// The number of set bits in `x`.
pub open spec fn popcount(x: u64) -> nat
    decreases x,
{
    if x == 0 {
        0
    } else {
        (x % 2) as nat + popcount(x / 2)
    }
}

/// Setting bit `b` adds exactly `b`.
pub proof fn lemma_bit_set(x: u64, b: u64, i: u64)
    requires
        b < 64,
        i < 64,
    ensures
        bit(x | (1u64 << b), i) == (bit(x, i) || i == b),
{
    assert(((x | (1u64 << b)) >> i) & 1u64 == 1u64 <==> (((x >> i) & 1u64 == 1u64) || i == b))
        by (bit_vector)
        requires b < 64, i < 64;
}

/// Clearing bit `b` removes exactly `b`.
pub proof fn lemma_bit_clear(x: u64, b: u64, i: u64)
    requires
        b < 64,
        i < 64,
    ensures
        bit(x & !(1u64 << b), i) == (bit(x, i) && i != b),
{
    assert(((x & !(1u64 << b)) >> i) & 1u64 == 1u64 <==> (((x >> i) & 1u64 == 1u64) && i != b))
        by (bit_vector)
        requires b < 64, i < 64;
}

/// Bits of a union, intersection and difference of words.
pub proof fn lemma_bit_ops(x: u64, y: u64, i: u64)
    requires
        i < 64,
    ensures
        bit(x | y, i) == (bit(x, i) || bit(y, i)),
        bit(x & y, i) == (bit(x, i) && bit(y, i)),
        bit(x & !y, i) == (bit(x, i) && !bit(y, i)),
        bit(x ^ y, i) == (bit(x, i) != bit(y, i)),
{
    assert(((x | y) >> i) & 1u64 == 1u64 <==> (((x >> i) & 1u64 == 1u64) || ((y >> i) & 1u64 == 1u64)))
        by (bit_vector)
        requires i < 64;
    assert(((x & y) >> i) & 1u64 == 1u64 <==> (((x >> i) & 1u64 == 1u64) && ((y >> i) & 1u64 == 1u64)))
        by (bit_vector)
        requires i < 64;
    assert(((x & !y) >> i) & 1u64 == 1u64 <==> (((x >> i) & 1u64 == 1u64) && !((y >> i) & 1u64 == 1u64)))
        by (bit_vector)
        requires i < 64;
    assert(((x ^ y) >> i) & 1u64 == 1u64 <==> (((x >> i) & 1u64 == 1u64) != ((y >> i) & 1u64 == 1u64)))
        by (bit_vector)
        requires i < 64;
}

/// The zero word has no bits; the single-bit word has exactly one.
pub proof fn lemma_bit_zero_single(b: u64, i: u64)
    requires
        b < 64,
        i < 64,
    ensures
        !bit(0u64, i),
        bit(1u64 << b, i) == (i == b),
{
    assert((0u64 >> i) & 1u64 != 1u64) by (bit_vector);
    assert(((1u64 << b) >> i) & 1u64 == 1u64 <==> i == b) by (bit_vector)
        requires b < 64, i < 64;
}

/// The low-bits mask `(1 << n) - 1` holds exactly the bits below n.
pub proof fn lemma_bit_low_mask(n: u64, i: u64)
    requires
        0 < n < 64,
        i < 64,
    ensures
        bit(((1u64 << n) - 1) as u64, i) == (i < n),
{
    assert(((((1u64 << n) - 1) as u64) >> i) & 1u64 == 1u64 <==> i < n) by (bit_vector)
        requires 0 < n < 64, i < 64;
}

/// All bits of the all-ones word are set.
pub proof fn lemma_bit_max(i: u64)
    requires
        i < 64,
    ensures
        bit(0xffff_ffff_ffff_ffffu64, i),
{
    assert((0xffff_ffff_ffff_ffffu64 >> i) & 1u64 == 1u64) by (bit_vector)
        requires i < 64;
}

/// A word with no bit set below 64 is zero.
pub proof fn lemma_bit_low(x: u64)
    ensures
        bit(x, 0) == (x % 2 == 1),
        x / 2 == x >> 1u64,
        forall|i: u64| 0 < i < 64 ==> bit(x, i) == #[trigger] bit(x >> 1u64, (i - 1) as u64),
{
    assert((x >> 0u64) & 1u64 == 1u64 <==> x % 2 == 1) by (bit_vector);
    assert(x / 2 == x >> 1u64) by (bit_vector);
    assert forall|i: u64| 0 < i < 64 implies bit(x, i) == #[trigger] bit(x >> 1u64, (i - 1) as u64) by {
        let j = (i - 1) as u64;
        assert(((x >> i) & 1u64 == 1u64) <==> (((x >> 1u64) >> j) & 1u64 == 1u64)) by (bit_vector)
            requires 0 < i < 64, j == i - 1;
    }
}

/// Count the set bits of a word.
pub fn count_bits(x: u64) -> (r: u32)
    ensures
        r == popcount(x),
        r <= 64,
{
    let mut y = x;
    let mut c: u32 = 0;
    let mut k: u32 = 0;
    proof {
        lemma2_to64();
    }
    while y != 0
        invariant
            c + popcount(y) == popcount(x),
            k <= 64,
            c <= k,
            y < pow2((64 - k) as nat),
        decreases y,
    {
        proof {
            lemma2_to64();
            if k == 64 {
                assert(pow2(0) == 1);
            }
            lemma_pow2_unfold((64 - k) as nat);
        }
        c = c + (y % 2) as u32;
        y = y / 2;
        k = k + 1;
    }
    c
}

/// A word with no bit set at or above `k` is below 2^k.
pub proof fn lemma_high_bits_clear(x: u64, k: u64)
    requires
        k <= 64,
        forall|i: u64| k <= i < 64 ==> !#[trigger] bit(x, i),
    ensures
        k < 64 ==> x < (1u64 << k),
    decreases 64 - k,
{
    if k < 64 {
        assert(!bit(x, k));
        if k == 63 {
            assert((x >> 63u64) & 1u64 != 1u64 ==> x < (1u64 << 63u64)) by (bit_vector);
        } else {
            lemma_high_bits_clear(x, (k + 1) as u64);
            let k1 = (k + 1) as u64;
            assert((x < (1u64 << k1) && (x >> k) & 1u64 != 1u64) ==> x < (1u64 << k)) by (bit_vector)
                requires k < 63, k1 == k + 1;
        }
    }
}

/// A nonzero word has a set bit.
pub proof fn lemma_nonzero_has_bit(x: u64) -> (i: u64)
    requires
        x != 0,
    ensures
        i < 64,
        bit(x, i),
    decreases x,
{
    lemma_bit_low(x);
    if bit(x, 0) {
        0
    } else {
        let y = x >> 1u64;
        assert(y != 0 && y < x) by (bit_vector)
            requires x != 0, (x >> 0u64) & 1u64 != 1u64, y == x >> 1u64;
        let j = lemma_nonzero_has_bit(y);
        if j == 63 {
            assert((y >> 63u64) & 1u64 != 1u64) by (bit_vector)
                requires y == x >> 1u64;
            assert(false);
        }
        let j1 = (j + 1) as u64;
        assert(((x >> j1) & 1u64 == 1u64) == ((y >> j) & 1u64 == 1u64)) by (bit_vector)
            requires y == x >> 1u64, j < 63, j1 == j + 1;
        (j + 1) as u64
    }
}

/// Toggling one or two color bits (below 6) of a face id below 64 gives a face id below 64.
pub proof fn lemma_toggle_two_bits_bound(f: u64, x: u64, y: u64)
    by (bit_vector)
    requires
        f < 64,
        x < 6,
        y < 6,
    ensures
        (f ^ ((1u64 << x) | (1u64 << y))) < 64,
        (f ^ (1u64 << x)) < 64,
{
}

/// Toggling one or two of the six color bits of a face id gives another face id.
pub proof fn lemma_toggle_face_bits(f: usize, x: usize, y: usize)
    by (bit_vector)
    requires
        f < 64,
        x < 6,
        y < 6,
    ensures
        f ^ (1usize << x) < 64,
        f ^ (1usize << x) != f,
        f ^ (1usize << x) ^ (1usize << y) < 64,
        x != y ==> f ^ (1usize << x) ^ (1usize << y) != f,
        f ^ ((1usize << x) | (1usize << y)) < 64,
        f ^ ((1usize << x) | (1usize << y)) != f,
{
}

} // verus!
