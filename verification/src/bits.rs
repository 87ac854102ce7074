//! Bit-level model of the allocation bitmap.
//!
//! A bitmap is a sequence of bytes; slice `s` is tracked by bit
//! `s % 8` of byte `s / 8`, counted from the most significant bit.
//! A set bit means the slice is used, a clear bit means it is free.

use vstd::prelude::*;

verus! {

/// The single-bit mask selecting bit `r` of a byte, counted from the
/// most significant bit (`r == 0` selects `0x80`).
pub open spec fn bit_mask(r: int) -> u8 {
    0x80u8 >> (r as u8)
}

/// Whether slice `s` is marked used in `bitmap`.
pub open spec fn slice_used(bitmap: Seq<u8>, s: int) -> bool {
    bitmap[s / 8] & bit_mask(s % 8) != 0
}

/// Whether every slice in `[start, start + count)` is free in `bitmap`.
pub open spec fn run_clear(bitmap: Seq<u8>, start: int, count: int) -> bool {
    forall|u: int| start <= u < start + count ==> !slice_used(bitmap, u)
}

/// Whether every slice in `[start, start + count)` is used in `bitmap`.
pub open spec fn run_used(bitmap: Seq<u8>, start: int, count: int) -> bool {
    forall|u: int| start <= u < start + count ==> slice_used(bitmap, u)
}

/// In an all-ones byte every bit is set; in an all-zeros byte none is.
pub proof fn lemma_const_byte_bits()
    by (bit_vector)
    ensures
        forall|k: u8| k < 8 ==> 0xFFu8 & (0x80u8 >> k) != 0,
        forall|k: u8| 0x00u8 & (0x80u8 >> k) == 0,
{
}

/// Or-ing a mask into a byte sets exactly the mask's bits and keeps the rest.
pub proof fn lemma_or_bits()
    by (bit_vector)
    ensures
        forall|a: u8, b: u8, k: u8|
            k < 8 ==> (((a | b) & (0x80u8 >> k) != 0) == ((a & (0x80u8 >> k) != 0) || (b & (0x80u8
                >> k) != 0))),
{
}

/// And-ing with a complemented mask clears exactly the mask's bits.
pub proof fn lemma_and_not_bits()
    by (bit_vector)
    ensures
        forall|a: u8, b: u8, k: u8|
            k < 8 ==> (((a & !b) & (0x80u8 >> k) != 0) == ((a & (0x80u8 >> k) != 0) && !(b & (0x80u8
                >> k) != 0))),
{
}

/// Two single-bit masks select the same bit exactly when the positions agree.
pub proof fn lemma_mask_bit()
    by (bit_vector)
    ensures
        forall|r: u8, k: u8| r < 8 && k < 8 ==> (((0x80u8 >> r) & (0x80u8 >> k) != 0) == (r == k)),
{
}

/// Or-ing into byte `b` a mask covering bit positions `[lo, hi)` marks
/// exactly the slices `[b*8 + lo, b*8 + hi)` used and leaves every other
/// slice as it was.
pub proof fn lemma_update_or(bm: Seq<u8>, updated: Seq<u8>, b: int, v: u8, lo: int, hi: int)
    requires
        0 <= b < bm.len(),
        0 <= lo < hi <= 8,
        forall|k: u8| k < 8 ==> ((v & (0x80u8 >> k) != 0) == (lo <= k < hi)),
        updated == bm.update(b, (bm[b] | v)),
    ensures
        forall|t: int|
            0 <= t < 8 * bm.len() ==> slice_used(updated, t) == ((b * 8 + lo <= t < b * 8 + hi)
                || slice_used(bm, t)),
{
    lemma_or_bits();
    assert forall|t: int| 0 <= t < 8 * bm.len() implies slice_used(updated, t) == ((b * 8 + lo <= t
        < b * 8 + hi) || slice_used(bm, t)) by {
        let tb = t / 8;
        let k = t % 8;
        assert(t == 8 * tb + k && 0 <= k < 8);
        assert(0 <= tb < bm.len());
        if tb == b {
            assert(updated[tb] == bm[b] | v);
            assert((updated[tb] & (0x80u8 >> (k as u8)) != 0) == ((bm[b] & (0x80u8 >> (k as u8))
                != 0) || (v & (0x80u8 >> (k as u8)) != 0)));
            assert((v & (0x80u8 >> (k as u8)) != 0) == (lo <= k < hi));
            assert((b * 8 + lo <= t < b * 8 + hi) == (lo <= k < hi));
        } else {
            assert(updated[tb] == bm[tb]);
            assert(!(b * 8 + lo <= t < b * 8 + hi));
        }
    }
}

/// And-ing into byte `b` the complement of a mask covering bit positions
/// `[lo, hi)` marks exactly the slices `[b*8 + lo, b*8 + hi)` free and
/// leaves every other slice as it was.
pub proof fn lemma_update_and_not(bm: Seq<u8>, updated: Seq<u8>, b: int, v: u8, lo: int, hi: int)
    requires
        0 <= b < bm.len(),
        0 <= lo < hi <= 8,
        forall|k: u8| k < 8 ==> ((v & (0x80u8 >> k) != 0) == (lo <= k < hi)),
        updated == bm.update(b, (bm[b] & !v)),
    ensures
        forall|t: int|
            0 <= t < 8 * bm.len() ==> slice_used(updated, t) == (!(b * 8 + lo <= t < b * 8 + hi)
                && slice_used(bm, t)),
{
    lemma_and_not_bits();
    assert forall|t: int| 0 <= t < 8 * bm.len() implies slice_used(updated, t) == (!(b * 8 + lo <= t
        < b * 8 + hi) && slice_used(bm, t)) by {
        let tb = t / 8;
        let k = t % 8;
        assert(t == 8 * tb + k && 0 <= k < 8);
        assert(0 <= tb < bm.len());
        if tb == b {
            assert(updated[tb] == bm[b] & !v);
            assert((updated[tb] & (0x80u8 >> (k as u8)) != 0) == ((bm[b] & (0x80u8 >> (k as u8))
                != 0) && !(v & (0x80u8 >> (k as u8)) != 0)));
            assert((b * 8 + lo <= t < b * 8 + hi) == (lo <= k < hi));
        } else {
            assert(updated[tb] == bm[tb]);
            assert(!(b * 8 + lo <= t < b * 8 + hi));
        }
    }
}

/// Writing `0xFF` or `0x00` over byte `b` marks its eight slices used or
/// free and leaves every other slice as it was.
pub proof fn lemma_update_const(bm: Seq<u8>, updated: Seq<u8>, b: int, v: u8)
    requires
        0 <= b < bm.len(),
        v == 0xFF || v == 0x00,
        updated == bm.update(b, v),
    ensures
        forall|t: int|
            0 <= t < 8 * bm.len() ==> slice_used(updated, t) == (if b * 8 <= t < b * 8 + 8 {
                v == 0xFF
            } else {
                slice_used(bm, t)
            }),
{
    lemma_const_byte_bits();
    assert forall|t: int| 0 <= t < 8 * bm.len() implies slice_used(updated, t) == (if b * 8 <= t < b
        * 8 + 8 {
        v == 0xFF
    } else {
        slice_used(bm, t)
    }) by {
        let tb = t / 8;
        let k = t % 8;
        assert(t == 8 * tb + k && 0 <= k < 8);
        assert(0 <= tb < bm.len());
        if tb == b {
            assert(updated[tb] == v);
            assert((b * 8 <= t < b * 8 + 8));
        } else {
            assert(updated[tb] == bm[tb]);
            assert(!(b * 8 <= t < b * 8 + 8));
        }
    }
}

/// Two bitmaps of the same length that agree on every slice are equal
/// byte for byte.
pub proof fn lemma_bitwise_eq(bm1: Seq<u8>, bm2: Seq<u8>)
    requires
        bm1.len() == bm2.len(),
        forall|t: int| 0 <= t < 8 * bm1.len() ==> slice_used(bm1, t) == slice_used(bm2, t),
    ensures
        bm1 == bm2,
{
    assert forall|b: int| 0 <= b < bm1.len() implies bm1[b] == bm2[b] by {
        assert(slice_used(bm1, 8 * b) == slice_used(bm2, 8 * b));
        assert(slice_used(bm1, 8 * b + 1) == slice_used(bm2, 8 * b + 1));
        assert(slice_used(bm1, 8 * b + 2) == slice_used(bm2, 8 * b + 2));
        assert(slice_used(bm1, 8 * b + 3) == slice_used(bm2, 8 * b + 3));
        assert(slice_used(bm1, 8 * b + 4) == slice_used(bm2, 8 * b + 4));
        assert(slice_used(bm1, 8 * b + 5) == slice_used(bm2, 8 * b + 5));
        assert(slice_used(bm1, 8 * b + 6) == slice_used(bm2, 8 * b + 6));
        assert(slice_used(bm1, 8 * b + 7) == slice_used(bm2, 8 * b + 7));
        let x = bm1[b];
        let y = bm2[b];
        assert(x == y) by (bit_vector)
            requires
                (x & (0x80u8 >> 0u8) != 0) == (y & (0x80u8 >> 0u8) != 0),
                (x & (0x80u8 >> 1u8) != 0) == (y & (0x80u8 >> 1u8) != 0),
                (x & (0x80u8 >> 2u8) != 0) == (y & (0x80u8 >> 2u8) != 0),
                (x & (0x80u8 >> 3u8) != 0) == (y & (0x80u8 >> 3u8) != 0),
                (x & (0x80u8 >> 4u8) != 0) == (y & (0x80u8 >> 4u8) != 0),
                (x & (0x80u8 >> 5u8) != 0) == (y & (0x80u8 >> 5u8) != 0),
                (x & (0x80u8 >> 6u8) != 0) == (y & (0x80u8 >> 6u8) != 0),
                (x & (0x80u8 >> 7u8) != 0) == (y & (0x80u8 >> 7u8) != 0),
        ;
    }
    assert(bm1 =~= bm2);
}

/// A byte mask whose set bits are exactly the positions `[lo, hi)`,
/// counted from the most significant bit.
pub(crate) fn range_mask(lo: u8, hi: u8) -> (m: u8)
    requires
        lo < hi <= 8,
    ensures
        forall|k: u8| k < 8 ==> ((m & (0x80u8 >> k) != 0) == (lo <= k < hi)),
{
    let w: u16 = (hi - lo) as u16;
    proof {
        assert(1u16 << w >= 1) by (bit_vector)
            requires
                w <= 8,
        ;
    }
    let ones: u16 = (1u16 << w) - 1;
    let m: u8 = ((ones << ((8 - hi) as u16)) & 0xFF) as u8;
    proof {
        assert(forall|k: u8| k < 8 ==> ((m & (0x80u8 >> k) != 0) == (lo <= k < hi))) by (bit_vector)
            requires
                lo < hi <= 8,
                w == (hi - lo) as u16,
                ones == (1u16 << w) - 1,
                m == ((ones << ((8 - hi) as u16)) & 0xFF) as u8,
        ;
    }
    m
}

} // verus!
