//! Facts about the bits of a `u64`, used as the model of a candidate set.
use vstd::prelude::*;

verus! {

/// Whether bit `v` of `b` is set.
pub open spec fn bit_of(b: u64, v: int) -> bool {
    0 <= v < 64 && (b >> (v as u64)) & 1u64 == 1u64
}

/// Number of set bits of `b` among the positions `0..k`.
pub open spec fn ones_below(b: u64, k: int) -> nat
    decreases k,
{
    if k <= 0 {
        0
    } else {
        ones_below(b, k - 1) + if bit_of(b, k - 1) {
            1nat
        } else {
            0nat
        }
    }
}

/// Number of set bits of `b`.
pub open spec fn ones(b: u64) -> nat {
    ones_below(b, 64)
}

/// The bitset whose set bits are exactly `0..r`.
pub open spec fn low_mask(r: int) -> u64 {
    if r <= 0 {
        0
    } else if r >= 64 {
        0xFFFF_FFFF_FFFF_FFFFu64
    } else {
        0xFFFF_FFFF_FFFF_FFFFu64 >> ((64 - r) as u64)
    }
}

pub proof fn lemma_low_mask(r: int, v: int)
    requires
        0 <= v < 64,
    ensures
        bit_of(low_mask(r), v) <==> v < r,
{
    let vv = v as u64;
    if r <= 0 {
        assert((0u64 >> vv) & 1u64 == 0u64) by (bit_vector);
    } else if r >= 64 {
        assert(vv < 64 ==> (0xFFFF_FFFF_FFFF_FFFFu64 >> vv) & 1u64 == 1u64) by (bit_vector);
    } else {
        let s = (64 - r) as u64;
        assert(s < 64 && vv < 64 ==> (((0xFFFF_FFFF_FFFF_FFFFu64 >> s) >> vv) & 1u64 == 1u64
            <==> vv < 64 - s)) by (bit_vector);
    }
}

pub proof fn lemma_bit_zero(v: int)
    ensures
        !bit_of(0u64, v),
{
    if 0 <= v < 64 {
        let vv = v as u64;
        assert((0u64 >> vv) & 1u64 == 0u64) by (bit_vector);
    }
}

pub proof fn lemma_bit_single(v: u64, w: int)
    requires
        v < 64,
    ensures
        bit_of(1u64 << v, w) <==> w == v,
{
    if 0 <= w < 64 {
        let ww = w as u64;
        assert(v < 64 && ww < 64 ==> (((1u64 << v) >> ww) & 1u64 == 1u64 <==> ww == v))
            by (bit_vector);
    }
}

pub proof fn lemma_bit_clear(b: u64, v: u64, w: int)
    requires
        v < 64,
    ensures
        bit_of(b & !(1u64 << v), w) <==> (bit_of(b, w) && w != v),
{
    if 0 <= w < 64 {
        let ww = w as u64;
        assert(v < 64 && ww < 64 ==> (((b & !(1u64 << v)) >> ww) & 1u64 == 1u64 <==> ((b >> ww)
            & 1u64 == 1u64 && ww != v))) by (bit_vector);
    }
}

pub proof fn lemma_bit_or(a: u64, b: u64, w: int)
    ensures
        bit_of(a | b, w) <==> (bit_of(a, w) || bit_of(b, w)),
{
    if 0 <= w < 64 {
        let ww = w as u64;
        assert(ww < 64 ==> (((a | b) >> ww) & 1u64 == 1u64 <==> ((a >> ww) & 1u64 == 1u64 || (b
            >> ww) & 1u64 == 1u64))) by (bit_vector);
    }
}

pub proof fn lemma_bit_and(a: u64, b: u64, w: int)
    ensures
        bit_of(a & b, w) <==> (bit_of(a, w) && bit_of(b, w)),
{
    if 0 <= w < 64 {
        let ww = w as u64;
        assert(ww < 64 ==> (((a & b) >> ww) & 1u64 == 1u64 <==> ((a >> ww) & 1u64 == 1u64 && (b
            >> ww) & 1u64 == 1u64))) by (bit_vector);
    }
}

pub proof fn lemma_bit_not_and(a: u64, m: u64, w: int)
    ensures
        bit_of(!a & m, w) <==> (!bit_of(a, w) && bit_of(m, w)),
{
    if 0 <= w < 64 {
        let ww = w as u64;
        assert(ww < 64 ==> (((!a & m) >> ww) & 1u64 == 1u64 <==> ((a >> ww) & 1u64 != 1u64 && (m
            >> ww) & 1u64 == 1u64))) by (bit_vector);
    }
}

/// Clearing a set bit and setting it again gives back the same word.
pub proof fn lemma_restore(b: u64, v: u64)
    requires
        v < 64,
        bit_of(b, v as int),
    ensures
        (b & !(1u64 << v)) | (1u64 << v) == b,
{
    assert(v < 64 && (b >> v) & 1u64 == 1u64 ==> (b & !(1u64 << v)) | (1u64 << v) == b)
        by (bit_vector);
}

pub proof fn lemma_ones_below_le(b: u64, k: int)
    requires
        0 <= k,
    ensures
        ones_below(b, k) <= k,
    decreases k,
{
    if k > 0 {
        lemma_ones_below_le(b, k - 1);
    }
}

/// Counting further never counts fewer.
pub proof fn lemma_ones_mono(b: u64, k: int, m: int)
    requires
        0 <= k <= m,
    ensures
        ones_below(b, k) <= ones_below(b, m),
    decreases m,
{
    if m > k {
        lemma_ones_mono(b, k, m - 1);
    }
}

/// A word whose set bits all are set in another counts no more.
pub proof fn lemma_ones_subset(a: u64, b: u64, k: int)
    requires
        0 <= k,
        forall|w: int| #[trigger] bit_of(b, w) ==> bit_of(a, w),
    ensures
        ones_below(b, k) <= ones_below(a, k),
    decreases k,
{
    if k > 0 {
        lemma_ones_subset(a, b, k - 1);
    }
}

/// No bit below `k` is set exactly when none is counted.
pub proof fn lemma_ones_zero(b: u64, k: int)
    requires
        0 <= k,
    ensures
        ones_below(b, k) == 0 <==> forall|w: int| 0 <= w < k ==> !bit_of(b, w),
    decreases k,
{
    if k > 0 {
        lemma_ones_zero(b, k - 1);
    }
}

/// Two distinct set bits below `k` count for at least two.
pub proof fn lemma_ones_two(b: u64, k: int, v: int, w: int)
    requires
        0 <= v < k,
        0 <= w < k,
        v != w,
        bit_of(b, v),
        bit_of(b, w),
    ensures
        ones_below(b, k) >= 2,
    decreases k,
{
    if v == k - 1 || w == k - 1 {
        let o = if v == k - 1 {
            w
        } else {
            v
        };
        lemma_ones_pos(b, k - 1, o);
    } else {
        lemma_ones_two(b, k - 1, v, w);
    }
}

/// A set bit below `k` counts for at least one.
pub proof fn lemma_ones_pos(b: u64, k: int, v: int)
    requires
        0 <= v < k,
        bit_of(b, v),
    ensures
        ones_below(b, k) >= 1,
    decreases k,
{
    if v < k - 1 {
        lemma_ones_pos(b, k - 1, v);
    }
}

/// Bits at or above `r` add nothing to the count when they are clear.
pub proof fn lemma_ones_upto(b: u64, r: int, k: int)
    requires
        0 <= r <= k,
        forall|w: int| r <= w < k ==> !bit_of(b, w),
    ensures
        ones_below(b, k) == ones_below(b, r),
    decreases k,
{
    if k > r {
        lemma_ones_upto(b, r, k - 1);
    }
}

/// Two words that differ only in bit `v`, set in `b` and clear in `c`.
pub proof fn lemma_ones_minus(b: u64, c: u64, v: int, k: int)
    requires
        0 <= v < 64,
        0 <= k,
        bit_of(b, v),
        !bit_of(c, v),
        forall|w: int| w != v ==> bit_of(b, w) == bit_of(c, w),
    ensures
        ones_below(b, k) == ones_below(c, k) + if v < k {
            1nat
        } else {
            0nat
        },
    decreases k,
{
    if k > 0 {
        lemma_ones_minus(b, c, v, k - 1);
    }
}

} // verus!
