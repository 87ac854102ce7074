//! The allocator instance and its operations.
//!
//! An `Allocator` owns the managed region as a byte buffer.  The first
//! `bitmap_size` bytes are the bitmap, one bit per allocation unit
//! ("slice") of four bytes; the rest is the data region, which holds
//! allocation headers and payloads.  Callers receive byte offsets into
//! the data region in place of raw pointers; `base_addr` records the
//! numeric address the region is taken to live at, so that alignment of
//! the addresses callers would compute can be guaranteed.

use vstd::arithmetic::div_mod::{lemma_div_is_ordered, lemma_fundamental_div_mod};
use vstd::prelude::*;

use crate::bits::{
    bit_mask,
    lemma_bitwise_eq,
    lemma_const_byte_bits,
    lemma_mask_bit,
    lemma_update_and_not,
    lemma_update_const,
    lemma_update_or,
    range_mask,
    run_clear,
    run_used,
    slice_used,
};

verus! {

/// Bytes per allocation unit ("slice").
pub const BYTES_PER_SLICE: u32 = 4;

/// Bitmap bits per bitmap byte.
pub const SLICES_PER_BYTE: usize = 8;

/// Alignment used by `allocate` when the caller does not ask for one.
pub const DEFAULT_ALLOC_ALIGNMENT: u8 = 4;

/// The failures the allocator reports.
#[derive(Clone, Copy, Debug, PartialEq, Eq, Structural)]
pub enum AllocError {
    /// The region handed to the initializer is at or below the minimum
    /// usable size.
    InsufficientRegion,
    /// The bitmap would consume the entire region, leaving no data bytes.
    BitmapOverflow,
    /// The requested size needs more units than the header can record.
    AllocationTooLarge,
    /// No free run of sufficient length and alignment exists right now.
    OutOfSpace,
}

/// Number of slices an allocation of `size` payload bytes occupies: the
/// payload rounded up to whole slices, plus one slice for the header.
pub open spec fn spec_slice_count(size: int) -> int {
    size / 4 + 1 + if size % 4 > 0 {
        1int
    } else {
        0int
    }
}

/// The unit count recorded in the header unit at slice `s` of the data
/// region, read as four bytes in big-endian order.
pub open spec fn header_at(data: Seq<u8>, s: int) -> int {
    (data[4 * s] as int) * 0x1000000 + (data[4 * s + 1] as int) * 0x10000 + (data[4 * s + 2] as int)
        * 0x100 + (data[4 * s + 3] as int)
}

/// Splitting a 32-bit value into four big-endian bytes preserves it.
proof fn lemma_be32_encode(x: u32)
    by (bit_vector)
    ensures
        ((((x >> 24) & 0xFF) as u8) as int) * 0x1000000 + ((((x >> 16) & 0xFF) as u8) as int)
            * 0x10000 + ((((x >> 8) & 0xFF) as u8) as int) * 0x100 + (((x & 0xFF) as u8) as int)
            == x,
{
}

/// Reassembling four big-endian bytes gives their place values.
proof fn lemma_be32_decode(b0: u8, b1: u8, b2: u8, b3: u8)
    by (bit_vector)
    ensures
        (((b0 as u32) << 24) | ((b1 as u32) << 16) | ((b2 as u32) << 8) | (b3 as u32)) == (
        b0 as int) * 0x1000000 + (b1 as int) * 0x10000 + (b2 as int) * 0x100 + (b3 as int),
{
}

/// The sum of a sequence of payload sizes.
pub open spec fn sum_sizes(sizes: Seq<int>) -> int
    decreases sizes.len(),
{
    if sizes.len() == 0 {
        0
    } else {
        sum_sizes(sizes.drop_last()) + sizes.last()
    }
}

/// Removing one element lowers the sum by exactly that element.
proof fn lemma_sum_sizes_remove(sizes: Seq<int>, i: int)
    requires
        0 <= i < sizes.len(),
    ensures
        sum_sizes(sizes.remove(i)) == sum_sizes(sizes) - sizes[i],
    decreases sizes.len(),
{
    if i == sizes.len() - 1 {
        assert(sizes.remove(i) =~= sizes.drop_last());
    } else {
        let r = sizes.remove(i);
        assert(r.drop_last() =~= sizes.drop_last().remove(i));
        assert(r.last() == sizes.last());
        lemma_sum_sizes_remove(sizes.drop_last(), i);
    }
}

/// A bitmap allocator over a single contiguous region.
pub struct Allocator {
    /// The managed region: bitmap bytes first, data bytes after.
    pub region: Vec<u8>,
    /// Numeric address the start of the region is taken to live at.
    pub base_addr: usize,
    /// Number of bitmap bytes at the start of the region.
    pub bitmap_size: usize,
    /// Total bytes of the managed region, bitmap included.
    pub max_bytes: usize,
    /// Running sum of the payload bytes currently allocated.
    pub bytes_allocated: usize,
}

impl Allocator {
    /// Bitmap bytes needed for a region of `max_bytes` bytes: one bit for
    /// each four-byte unit of the whole region, rounded up to whole bytes.
    pub open spec fn spec_bitmap_size(max_bytes: int) -> int {
        let units = max_bytes / 4;
        units / 8 + if units % 8 > 0 {
            1int
        } else {
            0int
        }
    }

    /// The bitmap bytes.
    pub open spec fn bitmap(self) -> Seq<u8> {
        self.region@.subrange(0, self.bitmap_size as int)
    }

    /// The data region bytes.
    pub open spec fn data(self) -> Seq<u8> {
        self.region@.subrange(self.bitmap_size as int, self.region@.len() as int)
    }

    /// Number of bits the bitmap holds.
    pub open spec fn total_bits(self) -> int {
        8 * self.bitmap_size
    }

    /// Number of slices whose payload actually lies inside the data
    /// region.  The bitmap is sized from the unit count of the whole
    /// region, so it carries a few trailing bits beyond this; those are
    /// marked used at initialization and never handed out.
    pub open spec fn usable_slices(self) -> int {
        (self.max_bytes - self.bitmap_size) / 4
    }

    /// The address a caller computes for the payload of a run starting at
    /// slice `s`: region base, plus bitmap bytes, plus the slice offset,
    /// plus the four header bytes that precede every payload.
    pub open spec fn payload_addr(self, s: int) -> int {
        self.base_addr + self.bitmap_size + s * 4 + 4
    }

    /// Whether the payload address of a run starting at slice `s` meets
    /// `alignment`.
    pub open spec fn spec_aligned(self, s: int, alignment: int) -> bool {
        self.payload_addr(s) % alignment == 0
    }

    /// Whether a run of `n` slices starting at slice `s` could be handed
    /// out for an allocation with alignment `a`: it lies past the reserved
    /// first bitmap byte, fits in the bitmap, is entirely free, and its
    /// payload address meets the alignment.
    pub open spec fn valid_start(self, s: int, n: int, a: int) -> bool {
        &&& 8 <= s
        &&& s + n <= self.total_bits()
        &&& run_clear(self.bitmap(), s, n)
        &&& self.spec_aligned(s, a)
    }

    /// No slice below `limit` starts a usable run.
    pub open spec fn no_valid_start_before(self, limit: int, n: int, a: int) -> bool {
        forall|t: int| 0 <= t < limit ==> !self.valid_start(t, n, a)
    }

    /// Whether an allocation of `size` payload bytes with alignment `a`
    /// can succeed on this state: its unit count fits the header, and
    /// some usable run exists.
    pub open spec fn alloc_possible(self, size: int, a: int) -> bool {
        &&& spec_slice_count(size) <= u32::MAX
        &&& exists|t: int| self.valid_start(t, spec_slice_count(size), a)
    }

    /// What a successful allocation of `size` payload bytes with
    /// alignment `a` returning the data-region offset `ptr` did: it took
    /// the first-fit run, marked exactly that run used, wrote the unit
    /// count into the header unit, raised `bytes_allocated` by the
    /// requested size, and handed out an address meeting the alignment.
    pub open spec fn alloc_ok(self, post: Allocator, size: int, a: int, ptr: int) -> bool {
        let n = spec_slice_count(size);
        let s = (ptr - 4) / 4;
        &&& ptr == s * 4 + 4
        &&& self.valid_start(s, n, a)
        &&& self.no_valid_start_before(s, n, a)
        &&& (self.base_addr + self.bitmap_size + ptr) % a == 0
        &&& post.wf()
        &&& post.base_addr == self.base_addr
        &&& post.bitmap_size == self.bitmap_size
        &&& post.max_bytes == self.max_bytes
        &&& forall|t: int|
            0 <= t < self.total_bits() ==> slice_used(post.bitmap(), t) == ((s <= t < s + n)
                || slice_used(self.bitmap(), t))
        &&& header_at(post.data(), s) == n
        &&& forall|j: int|
            0 <= j < self.data().len() && !(s * 4 <= j < s * 4 + 4) ==> post.data()[j]
                == self.data()[j]
        &&& post.bytes_allocated == self.bytes_allocated + size
    }

    /// What a failed allocation did: nothing, and the error says why.
    /// The unit count is rejected exactly when it cannot be recorded in
    /// the four-byte header; otherwise no free run of sufficient length
    /// and alignment existed.
    pub open spec fn alloc_err(self, post: Allocator, size: int, a: int, e: AllocError) -> bool {
        &&& post.region@ == self.region@
        &&& post.base_addr == self.base_addr
        &&& post.bitmap_size == self.bitmap_size
        &&& post.max_bytes == self.max_bytes
        &&& post.bytes_allocated == self.bytes_allocated
        &&& (e == AllocError::AllocationTooLarge || e == AllocError::OutOfSpace)
        &&& (e == AllocError::AllocationTooLarge <==> spec_slice_count(size) > u32::MAX)
        &&& (e == AllocError::OutOfSpace ==> forall|t: int|
            !self.valid_start(t, spec_slice_count(size), a))
    }

    /// What releasing the allocation whose payload starts at data-region
    /// offset `ptr` did: the unit count `n` read back from the header
    /// unit decided the range, exactly that range went free, the data
    /// bytes stayed, and the `n - 1` payload units' bytes left the
    /// running total.
    pub open spec fn release_ok(self, post: Allocator, ptr: int) -> bool {
        let s = (ptr - 4) / 4;
        let n = header_at(self.data(), s);
        &&& post.wf()
        &&& post.base_addr == self.base_addr
        &&& post.bitmap_size == self.bitmap_size
        &&& post.max_bytes == self.max_bytes
        &&& post.data() == self.data()
        &&& forall|t: int|
            0 <= t < self.total_bits() ==> slice_used(post.bitmap(), t) == (if s <= t < s + n {
                false
            } else {
                slice_used(self.bitmap(), t)
            })
        &&& post.bytes_allocated == self.bytes_allocated - (n - 1) * 4
    }

    /// Well-formedness of an instance.
    pub open spec fn wf(self) -> bool {
        &&& self.region@.len() == self.max_bytes
        &&& self.max_bytes > 64
        &&& self.bitmap_size == Self::spec_bitmap_size(self.max_bytes as int)
        &&& 2 <= self.bitmap_size < self.max_bytes
        &&& self.base_addr + self.max_bytes <= usize::MAX
        &&& forall|s: int|
            self.usable_slices() <= s < self.total_bits() ==> slice_used(self.bitmap(), s)
    }

    /// Carves `max_bytes` bytes, taken to live at `base_addr`, into a
    /// bitmap region and a data region.  The bitmap starts out all clear,
    /// except that the trailing bits with no payload behind them are
    /// marked used; the data region starts out zeroed.
    pub fn new(base_addr: usize, max_bytes: usize) -> (r: Result<Allocator, AllocError>)
        requires
            base_addr + max_bytes <= usize::MAX,
        ensures
            max_bytes <= 64 ==> r == Err::<Allocator, AllocError>(AllocError::InsufficientRegion),
            (max_bytes > 64 && Self::spec_bitmap_size(max_bytes as int) == max_bytes) ==> r == Err::<
                Allocator,
                AllocError,
            >(AllocError::BitmapOverflow),
            (max_bytes > 64 && Self::spec_bitmap_size(max_bytes as int) != max_bytes) ==> (r matches
                Ok(a) && {
                &&& a.wf()
                &&& a.base_addr == base_addr
                &&& a.max_bytes == max_bytes
                &&& a.bitmap_size == Self::spec_bitmap_size(max_bytes as int)
                &&& a.bytes_allocated == 0
                &&& forall|s: int| 0 <= s < a.usable_slices() ==> !slice_used(a.bitmap(), s)
                &&& forall|j: int| 0 <= j < a.data().len() ==> a.data()[j] == 0
            }),
    {
        if max_bytes <= 64 {
            // First byte of slices reserved; require at least one byte
            // worth of usable slices beyond it.
            return Err(AllocError::InsufficientRegion);
        }
        let max_allocated_slices: usize = max_bytes / (BYTES_PER_SLICE as usize);
        let bitmap_size: usize = max_allocated_slices / 8 + if max_allocated_slices % 8 > 0 {
            1
        } else {
            0
        };
        if bitmap_size == max_bytes {
            return Err(AllocError::BitmapOverflow);
        }
        proof {
            lemma_div_is_ordered(64, max_bytes as int, 4);
            lemma_div_is_ordered(16, max_allocated_slices as int, 8);
            assert(bitmap_size >= 2);
            assert(bitmap_size < max_bytes) by {
                lemma_fundamental_div_mod(max_bytes as int, 4);
                lemma_fundamental_div_mod(max_allocated_slices as int, 8);
            }
        }
        let mut region: Vec<u8> = Vec::new();
        let mut i: usize = 0;
        while i < max_bytes
            invariant
                i <= max_bytes,
                region@.len() == i,
                forall|j: int| 0 <= j < i ==> region@[j] == 0,
            decreases max_bytes - i,
        {
            region.push(0);
            i += 1;
        }
        let mut a = Allocator { region, base_addr, bitmap_size, max_bytes, bytes_allocated: 0 };
        // The bitmap covers units of the whole region, so its trailing
        // bits track units whose payload would lie beyond the data
        // region; mark them used so the locator never selects them.
        let usable: usize = (max_bytes - bitmap_size) / (BYTES_PER_SLICE as usize);
        proof {
            lemma_div_is_ordered(
                (max_bytes - bitmap_size) as int,
                max_bytes as int,
                4,
            );
            assert(8 * bitmap_size <= max_bytes / 4 + 8) by {
                lemma_fundamental_div_mod(max_allocated_slices as int, 8);
            }
            lemma_div_is_ordered(max_bytes as int, usize::MAX as int, 4);
            assert(usable <= 8 * bitmap_size);
        }
        let total_bits: usize = 8 * bitmap_size;
        proof {
            lemma_const_byte_bits();
            assert forall|t: int| 0 <= t < 8 * (a.bitmap_size as int) implies !slice_used(
                a.bitmap(),
                t,
            ) by {
                assert(a.bitmap()[t / 8] == 0);
            };
        }
        let mut s: usize = usable;
        while s < total_bits
            invariant
                usable <= s <= total_bits,
                total_bits == 8 * a.bitmap_size,
                usable == a.usable_slices(),
                a.region@.len() == a.max_bytes,
                a.max_bytes == max_bytes,
                a.base_addr == base_addr,
                a.bytes_allocated == 0,
                a.bitmap_size == bitmap_size,
                2 <= a.bitmap_size < a.max_bytes,
                forall|t: int| usable <= t < s ==> slice_used(a.bitmap(), t),
                forall|t: int| 0 <= t < usable ==> !slice_used(a.bitmap(), t),
                forall|j: int| a.bitmap_size <= j < a.region@.len() ==> a.region@[j] == 0,
            decreases total_bits - s,
        {
            let byte_index: usize = s / 8;
            let bit_in_byte: u8 = (s % 8) as u8;
            let ghost old_a = a;
            proof {
                assert(s == 8 * (byte_index as int) + bit_in_byte as int);
                assert(byte_index < bitmap_size);
                lemma_mask_bit();
                assert forall|k: u8| k < 8 implies (((0x80u8 >> bit_in_byte) & (0x80u8 >> k) != 0)
                    == (bit_in_byte as int <= k < bit_in_byte as int + 1)) by {
                    assert(((0x80u8 >> bit_in_byte) & (0x80u8 >> k) != 0) == (bit_in_byte == k));
                };
            }
            let existing: u8 = a.region[byte_index];
            let updated: u8 = existing | (0x80u8 >> bit_in_byte);
            a.region.set(byte_index, updated);
            proof {
                assert(a.bitmap() =~= old_a.bitmap().update(
                    byte_index as int,
                    (old_a.bitmap()[byte_index as int] | (0x80u8 >> bit_in_byte)),
                ));
                lemma_update_or(
                    old_a.bitmap(),
                    a.bitmap(),
                    byte_index as int,
                    0x80u8 >> bit_in_byte,
                    bit_in_byte as int,
                    bit_in_byte as int + 1,
                );
                assert forall|t: int|
                    0 <= t < 8 * (old_a.bitmap_size as int) implies slice_used(a.bitmap(), t) == ((s
                    <= t < s + 1) || slice_used(old_a.bitmap(), t)) by {
                    assert((byte_index as int) * 8 + bit_in_byte as int == s);
                };
            }
            s += 1;
        }
        proof {
            assert(a.wf());
            assert(a.data() =~= a.region@.subrange(a.bitmap_size as int, a.region@.len() as int));
        }
        Ok(a)
    }

    /// Payload bytes currently allocated.
    pub fn get_bytes_allocated(&self) -> (r: usize)
        ensures
            r == self.bytes_allocated,
    {
        self.bytes_allocated
    }

    /// Total bytes of the managed region.
    pub fn get_max_bytes(&self) -> (r: usize)
        ensures
            r == self.max_bytes,
    {
        self.max_bytes
    }

    /// Number of bitmap bytes at the start of the region.
    pub fn get_bitmap_size(&self) -> (r: usize)
        ensures
            r == self.bitmap_size,
    {
        self.bitmap_size
    }

    /// One byte of the bitmap.
    pub fn get_bitmap_byte(&self, offset: usize) -> (r: u8)
        requires
            offset < self.bitmap_size,
            self.bitmap_size <= self.region@.len(),
        ensures
            r == self.bitmap()[offset as int],
    {
        self.region[offset]
    }

    /// Law: releasing an allocation right after making it restores the
    /// bitmap bit for bit, and, for payload sizes that are a whole
    /// number of slices, restores `bytes_allocated` to its prior value.
    /// For other sizes the release subtracts the payload rounded up to
    /// whole slices, so the counter drops below its prior value by the
    /// rounding slack.
    pub proof fn lemma_allocate_release_round_trip(
        pre: Allocator,
        mid: Allocator,
        post: Allocator,
        size: int,
        a: int,
        ptr: int,
    )
        requires
            pre.wf(),
            pre.alloc_ok(mid, size, a, ptr),
            mid.release_ok(post, ptr),
            0 <= size,
        ensures
            post.bitmap() == pre.bitmap(),
            post.bytes_allocated == pre.bytes_allocated + size - 4 * (spec_slice_count(size) - 1),
            size % 4 == 0 ==> post.bytes_allocated == pre.bytes_allocated,
    {
        let s = (ptr - 4) / 4;
        let n = spec_slice_count(size);
        assert(header_at(mid.data(), s) == n);
        assert(run_clear(pre.bitmap(), s, n));
        assert forall|t: int|
            0 <= t < 8 * pre.bitmap().len() implies slice_used(post.bitmap(), t) == slice_used(
            pre.bitmap(),
            t,
        ) by {
            if s <= t < s + n {
                assert(!slice_used(pre.bitmap(), t));
                assert(!slice_used(post.bitmap(), t));
            } else {
                assert(slice_used(post.bitmap(), t) == slice_used(mid.bitmap(), t));
                assert(slice_used(mid.bitmap(), t) == slice_used(pre.bitmap(), t));
            }
        };
        lemma_bitwise_eq(post.bitmap(), pre.bitmap());
        lemma_fundamental_div_mod(size, 4);
    }

    /// Law: the units of two live allocations never intersect.  A run
    /// about to be handed out is entirely free, while every unit of a
    /// live allocation is marked used for its whole life, so the ranges
    /// cannot overlap.
    pub proof fn lemma_no_overlap(self, s1: int, n1: int, s2: int, n2: int)
        requires
            1 <= n1,
            1 <= n2,
            run_used(self.bitmap(), s1, n1),
            run_clear(self.bitmap(), s2, n2),
        ensures
            s1 + n1 <= s2 || s2 + n2 <= s1,
    {
        if !(s1 + n1 <= s2 || s2 + n2 <= s1) {
            let u = if s1 <= s2 {
                s2
            } else {
                s1
            };
            assert(slice_used(self.bitmap(), u));
            assert(!slice_used(self.bitmap(), u));
        }
    }

    /// Law: first fit is deterministic.  On a given bitmap state, at
    /// most one slice is both a usable run start and preceded by no
    /// other, so the locator's answer is a function of the state alone.
    pub proof fn lemma_first_fit_unique(self, n: int, a: int, s1: int, s2: int)
        requires
            self.valid_start(s1, n, a),
            self.no_valid_start_before(s1, n, a),
            self.valid_start(s2, n, a),
            self.no_valid_start_before(s2, n, a),
        ensures
            s1 == s2,
    {
        if s1 < s2 {
            assert(!self.valid_start(s1, n, a));
        }
        if s2 < s1 {
            assert(!self.valid_start(s2, n, a));
        }
    }

    /// Law: conservation under allocation.  If `bytes_allocated` equals
    /// the sum of the live allocations' payload sizes, it still does
    /// after a successful allocation joins them, independent of where
    /// the run was placed.
    pub proof fn lemma_conservation_allocate(
        self,
        post: Allocator,
        live: Seq<int>,
        size: int,
        a: int,
        ptr: int,
    )
        requires
            self.bytes_allocated == sum_sizes(live),
            self.alloc_ok(post, size, a, ptr),
        ensures
            post.bytes_allocated == sum_sizes(live.push(size)),
    {
        assert(live.push(size).drop_last() =~= live);
    }

    /// Law: conservation under release, for payload sizes that are a
    /// whole number of slices.  If `bytes_allocated` equals the sum of
    /// the live allocations' payload sizes and the released header still
    /// records the allocation's unit count, the counter equals the sum
    /// over the remaining allocations afterwards.  For a size that is
    /// not a whole number of slices the release subtracts the rounded
    /// size instead, and the balance is lost.
    pub proof fn lemma_conservation_release(
        self,
        post: Allocator,
        live: Seq<int>,
        i: int,
        ptr: int,
    )
        requires
            0 <= i < live.len(),
            live[i] % 4 == 0,
            0 <= live[i],
            self.bytes_allocated == sum_sizes(live),
            header_at(self.data(), (ptr - 4) / 4) == spec_slice_count(live[i]),
            self.release_ok(post, ptr),
        ensures
            post.bytes_allocated == sum_sizes(live.remove(i)),
    {
        let n = spec_slice_count(live[i]);
        lemma_fundamental_div_mod(live[i], 4);
        assert((n - 1) * 4 == live[i]);
        lemma_sum_sizes_remove(live, i);
    }

    /// Overwrites one bitmap byte.
    fn set_bitmap(&mut self, offset: usize, value: u8)
        requires
            offset < old(self).bitmap_size,
            old(self).bitmap_size <= old(self).region@.len(),
        ensures
            final(self).region@ == old(self).region@.update(offset as int, value),
            final(self).base_addr == old(self).base_addr,
            final(self).bitmap_size == old(self).bitmap_size,
            final(self).max_bytes == old(self).max_bytes,
            final(self).bytes_allocated == old(self).bytes_allocated,
    {
        self.region.set(offset, value);
    }

    /// Marks the slices covered by bit positions `[lo, hi)` of bitmap
    /// byte `byte_index` used or free, leaving every other slice as it was.
    fn mark_byte_range(&mut self, byte_index: usize, lo: u8, hi: u8, used: bool)
        requires
            lo < hi <= 8,
            byte_index < old(self).bitmap_size,
            old(self).bitmap_size <= old(self).region@.len(),
        ensures
            final(self).region@.len() == old(self).region@.len(),
            final(self).base_addr == old(self).base_addr,
            final(self).bitmap_size == old(self).bitmap_size,
            final(self).max_bytes == old(self).max_bytes,
            final(self).bytes_allocated == old(self).bytes_allocated,
            forall|j: int|
                old(self).bitmap_size <= j < old(self).region@.len() ==> final(self).region@[j]
                    == old(self).region@[j],
            forall|t: int|
                0 <= t < 8 * old(self).bitmap_size ==> slice_used(final(self).bitmap(), t) == (
                if byte_index * 8 + lo <= t < byte_index * 8 + hi {
                    used
                } else {
                    slice_used(old(self).bitmap(), t)
                }),
    {
        let m: u8 = range_mask(lo, hi);
        let ghost prev = *self;
        if used {
            self.set_bitmap_or(byte_index, m);
            proof {
                assert(self.bitmap() =~= prev.bitmap().update(
                    byte_index as int,
                    (prev.bitmap()[byte_index as int] | m),
                ));
                lemma_update_or(prev.bitmap(), self.bitmap(), byte_index as int, m, lo as int, hi as int);
            }
        } else {
            self.set_bitmap_and(byte_index, !m);
            proof {
                assert(self.bitmap() =~= prev.bitmap().update(
                    byte_index as int,
                    (prev.bitmap()[byte_index as int] & !m),
                ));
                lemma_update_and_not(prev.bitmap(), self.bitmap(), byte_index as int, m, lo as int, hi as int);
            }
        }
    }

    /// Marks all eight slices of bitmap byte `byte_index` used or free by
    /// writing the whole byte, leaving every other slice as it was.
    fn mark_full_byte(&mut self, byte_index: usize, used: bool)
        requires
            byte_index < old(self).bitmap_size,
            old(self).bitmap_size <= old(self).region@.len(),
        ensures
            final(self).region@.len() == old(self).region@.len(),
            final(self).base_addr == old(self).base_addr,
            final(self).bitmap_size == old(self).bitmap_size,
            final(self).max_bytes == old(self).max_bytes,
            final(self).bytes_allocated == old(self).bytes_allocated,
            forall|j: int|
                old(self).bitmap_size <= j < old(self).region@.len() ==> final(self).region@[j]
                    == old(self).region@[j],
            forall|t: int|
                0 <= t < 8 * old(self).bitmap_size ==> slice_used(final(self).bitmap(), t) == (
                if byte_index * 8 <= t < byte_index * 8 + 8 {
                    used
                } else {
                    slice_used(old(self).bitmap(), t)
                }),
    {
        let ghost prev = *self;
        let v: u8 = if used {
            0xFF
        } else {
            0x00
        };
        self.set_bitmap(byte_index, v);
        proof {
            assert(self.bitmap() =~= prev.bitmap().update(byte_index as int, v));
            lemma_update_const(prev.bitmap(), self.bitmap(), byte_index as int, v);
        }
    }

    /// Whether the payload address of a run starting at slice `slice`
    /// meets `alignment`.  The payload address accounts for the four
    /// header bytes prepended to every allocation.
    pub fn is_slice_aligned(&self, slice: usize, alignment: u8) -> (r: bool)
        requires
            self.wf(),
            1 <= alignment,
            slice * 4 + 4 <= self.max_bytes - self.bitmap_size,
        ensures
            r == self.spec_aligned(slice as int, alignment as int),
    {
        let start_offset: usize = slice * (BYTES_PER_SLICE as usize);
        let base_addr: usize = self.base_addr + self.bitmap_size;
        // The four header bytes are prepended before the address is
        // handed out; the final address is what must be aligned.
        let pointer_addr: usize = base_addr + start_offset + 4;
        (pointer_addr % (alignment as usize)) == 0
    }

    /// A free slice lies below `usable_slices`, since every slice past it
    /// is marked used, and its payload offset therefore fits in the data
    /// region.
    proof fn lemma_free_slice_usable(&self, s: int)
        requires
            self.wf(),
            0 <= s < self.total_bits(),
            !slice_used(self.bitmap(), s),
        ensures
            s < self.usable_slices(),
            s * 4 + 4 <= self.max_bytes - self.bitmap_size,
    {
        assert(s < self.usable_slices());
        lemma_fundamental_div_mod(self.max_bytes - self.bitmap_size as int, 4);
        assert(4 * self.usable_slices() <= self.max_bytes - self.bitmap_size);
    }

    /// Scans the bitmap for the first run of `requested_size` free slices
    /// whose payload address meets `alignment`, byte by byte from the
    /// first bitmap byte after the reserved leading one.  An all-ones
    /// byte resets the run in progress, an all-zeros byte extends it (or
    /// starts it, if alignment permits at the byte's first slice) by
    /// eight slices, and a mixed byte is scanned bit by bit from the most
    /// significant bit down.  First fit: the first run satisfying both
    /// length and alignment wins.
    pub fn get_first_available_slice(&self, requested_size: usize, alignment: u8) -> (r: Result<
        usize,
        AllocError,
    >)
        requires
            self.wf(),
            1 <= requested_size,
            1 <= alignment,
        ensures
            match r {
                Ok(s) => {
                    &&& self.valid_start(s as int, requested_size as int, alignment as int)
                    &&& self.no_valid_start_before(
                        s as int,
                        requested_size as int,
                        alignment as int,
                    )
                },
                Err(e) => {
                    &&& e == AllocError::OutOfSpace
                    &&& forall|t: int|
                        !self.valid_start(t, requested_size as int, alignment as int)
                },
            },
    {
        let ghost n = requested_size as int;
        let ghost al = alignment as int;
        let mut i: usize = 1;
        let mut clear_bits_start: usize = 0;
        let mut has_run: bool = false;
        let mut clear_bits_found: usize = 0;
        let mut found_bits: bool = false;

        while i < self.bitmap_size
            invariant_except_break
                !found_bits,
            invariant
                self.wf(),
                1 <= requested_size,
                1 <= alignment,
                n == requested_size as int,
                al == alignment as int,
                1 <= i <= self.bitmap_size,
                has_run ==> 8 <= clear_bits_start,
                !found_bits && has_run ==> {
                    &&& clear_bits_start + clear_bits_found == 8 * i
                    &&& self.spec_aligned(clear_bits_start as int, al)
                    &&& run_clear(
                        self.bitmap(),
                        clear_bits_start as int,
                        clear_bits_found as int,
                    )
                    &&& clear_bits_found < requested_size
                },
                !found_bits && !has_run ==> clear_bits_found == 0,
                !found_bits ==> self.no_valid_start_before(
                    if has_run {
                        clear_bits_start as int
                    } else {
                        8 * i
                    },
                    n,
                    al,
                ),
                found_bits ==> {
                    &&& has_run
                    &&& clear_bits_found >= requested_size
                    &&& self.valid_start(clear_bits_start as int, n, al)
                    &&& self.no_valid_start_before(clear_bits_start as int, n, al)
                },
            ensures
                found_bits ==> {
                    &&& self.valid_start(clear_bits_start as int, n, al)
                    &&& self.no_valid_start_before(clear_bits_start as int, n, al)
                    &&& clear_bits_found >= requested_size
                },
                !found_bits ==> {
                    &&& i == self.bitmap_size
                    &&& (has_run ==> {
                        &&& clear_bits_start + clear_bits_found == 8 * i
                        &&& clear_bits_found < requested_size
                    })
                    &&& (!has_run ==> clear_bits_found == 0)
                    &&& self.no_valid_start_before(
                        if has_run {
                            clear_bits_start as int
                        } else {
                            8 * i
                        },
                        n,
                        al,
                    )
                },
            decreases self.bitmap_size - i,
        {
            let cur_byte: u8 = self.get_bitmap_byte(i);
            let mut zero_aligned: bool = false;
            if cur_byte == 0 {
                proof {
                    lemma_const_byte_bits();
                    assert(!slice_used(self.bitmap(), 8 * (i as int))) by {
                        assert(self.bitmap()[8 * (i as int) / 8] == 0);
                    };
                    self.lemma_free_slice_usable(8 * (i as int));
                }
                zero_aligned = self.is_slice_aligned(i * SLICES_PER_BYTE, alignment);
            }

            if cur_byte == 0xFF {
                // No bits free in this byte: the run in progress dies here.
                proof {
                    lemma_const_byte_bits();
                    assert forall|t: int|
                        8 * (i as int) <= t < 8 * (i as int) + 8 implies slice_used(
                        self.bitmap(),
                        t,
                    ) by {
                        assert(t / 8 == i as int && self.bitmap()[t / 8] == 0xFF);
                    };
                    assert forall|t: int| 0 <= t < 8 * (i as int) + 8 implies !self.valid_start(
                        t,
                        n,
                        al,
                    ) by {
                        let limit = if has_run {
                            clear_bits_start as int
                        } else {
                            8 * (i as int)
                        };
                        if t >= limit {
                            if t < 8 * (i as int) {
                                assert(slice_used(self.bitmap(), 8 * (i as int)));
                                assert(t <= 8 * (i as int) < t + n);
                            } else {
                                assert(slice_used(self.bitmap(), t));
                            }
                        }
                    };
                }
                clear_bits_start = 0;
                has_run = false;
                clear_bits_found = 0;
            } else if cur_byte == 0 && zero_aligned {
                // All eight slices of this byte are free.
                proof {
                    lemma_const_byte_bits();
                    assert forall|t: int|
                        8 * (i as int) <= t < 8 * (i as int) + 8 implies !slice_used(
                        self.bitmap(),
                        t,
                    ) by {
                        assert(t / 8 == i as int && self.bitmap()[t / 8] == 0);
                    };
                }
                if !has_run {
                    clear_bits_start = i * SLICES_PER_BYTE;
                    has_run = true;
                    clear_bits_found = 8;
                } else {
                    clear_bits_found += 8;
                }
                proof {
                    assert(run_clear(
                        self.bitmap(),
                        clear_bits_start as int,
                        clear_bits_found as int,
                    ));
                }
            } else {
                // Some bits free: scan bit by bit, most significant first.
                let mut k: u8 = 0;
                while k < 8
                    invariant_except_break
                        !found_bits,
                    invariant
                        self.wf(),
                        1 <= requested_size,
                        1 <= alignment,
                        n == requested_size as int,
                        al == alignment as int,
                        1 <= i < self.bitmap_size,
                        k <= 8,
                        cur_byte == self.bitmap()[i as int],
                        has_run ==> 8 <= clear_bits_start,
                        !found_bits && has_run ==> {
                            &&& clear_bits_start + clear_bits_found == 8 * i + k
                            &&& self.spec_aligned(clear_bits_start as int, al)
                            &&& run_clear(
                                self.bitmap(),
                                clear_bits_start as int,
                                clear_bits_found as int,
                            )
                            &&& clear_bits_found < requested_size
                        },
                        !found_bits && !has_run ==> clear_bits_found == 0,
                        !found_bits ==> self.no_valid_start_before(
                            if has_run {
                                clear_bits_start as int
                            } else {
                                8 * i + k
                            },
                            n,
                            al,
                        ),
                        found_bits ==> {
                            &&& has_run
                            &&& clear_bits_found >= requested_size
                            &&& self.valid_start(clear_bits_start as int, n, al)
                            &&& self.no_valid_start_before(clear_bits_start as int, n, al)
                        },
                    ensures
                        found_bits ==> {
                            &&& has_run
                            &&& clear_bits_found >= requested_size
                            &&& self.valid_start(clear_bits_start as int, n, al)
                            &&& self.no_valid_start_before(clear_bits_start as int, n, al)
                        },
                        !found_bits ==> {
                            &&& (has_run ==> {
                                &&& clear_bits_start + clear_bits_found == 8 * i + 8
                                &&& self.spec_aligned(clear_bits_start as int, al)
                                &&& run_clear(
                                    self.bitmap(),
                                    clear_bits_start as int,
                                    clear_bits_found as int,
                                )
                                &&& clear_bits_found < requested_size
                            })
                            &&& (!has_run ==> clear_bits_found == 0)
                            &&& self.no_valid_start_before(
                                if has_run {
                                    clear_bits_start as int
                                } else {
                                    8 * i + 8
                                },
                                n,
                                al,
                            )
                        },
                    decreases 8 - k,
                {
                    let mask: u8 = 0x80u8 >> k;
                    let u_slice: usize = i * SLICES_PER_BYTE + (k as usize);
                    proof {
                        assert(u_slice as int / 8 == i as int && u_slice as int % 8 == k as int);
                    }
                    if cur_byte & mask == 0 {
                        proof {
                            assert(!slice_used(self.bitmap(), u_slice as int)) by {
                                assert(bit_mask(u_slice as int % 8) == mask);
                            };
                        }
                        if !has_run {
                            proof {
                                self.lemma_free_slice_usable(u_slice as int);
                            }
                            if self.is_slice_aligned(u_slice, alignment) {
                                clear_bits_start = u_slice;
                                has_run = true;
                            } else {
                                proof {
                                    assert forall|t: int|
                                        0 <= t < 8 * (i as int) + k + 1 implies !self.valid_start(
                                        t,
                                        n,
                                        al,
                                    ) by {
                                        if t == u_slice as int {
                                            assert(!self.spec_aligned(t, al));
                                        }
                                    };
                                }
                            }
                        }
                        if has_run {
                            clear_bits_found += 1;
                            if clear_bits_found >= requested_size {
                                proof {
                                    assert(run_clear(
                                        self.bitmap(),
                                        clear_bits_start as int,
                                        clear_bits_found as int,
                                    ));
                                    assert(clear_bits_start + clear_bits_found == 8 * i + k + 1);
                                    assert(clear_bits_start + n <= self.total_bits());
                                    assert(self.valid_start(clear_bits_start as int, n, al));
                                }
                                found_bits = true;
                                break ;
                            }
                        }
                    } else {
                        // A used bit: the run in progress dies here.
                        proof {
                            assert(slice_used(self.bitmap(), u_slice as int)) by {
                                assert(bit_mask(u_slice as int % 8) == mask);
                            };
                            assert forall|t: int|
                                0 <= t < 8 * (i as int) + k + 1 implies !self.valid_start(
                                t,
                                n,
                                al,
                            ) by {
                                let limit = if has_run {
                                    clear_bits_start as int
                                } else {
                                    8 * (i as int) + k
                                };
                                if t >= limit {
                                    assert(t <= (u_slice as int) < t + n);
                                }
                            };
                        }
                        clear_bits_start = 0;
                        has_run = false;
                        clear_bits_found = 0;
                    }
                    k += 1;
                }
            }

            // Did we find a free block?
            if has_run && clear_bits_found >= requested_size {
                proof {
                    if !found_bits {
                        assert(clear_bits_start + clear_bits_found == 8 * (i as int) + 8);
                        assert(clear_bits_start + n <= self.total_bits());
                        assert(self.valid_start(clear_bits_start as int, n, al));
                    }
                }
                found_bits = true;
                break ;
            }
            i += 1;
        }

        if !found_bits || clear_bits_found < requested_size {
            proof {
                assert(!found_bits);
                assert forall|t: int| !self.valid_start(t, n, al) by {
                    if 8 <= t && t + n <= self.total_bits() {
                        let limit = if has_run {
                            clear_bits_start as int
                        } else {
                            8 * (self.bitmap_size as int)
                        };
                        if t >= limit {
                            assert(has_run);
                            assert(t + n > 8 * (self.bitmap_size as int));
                        }
                    }
                };
            }
            return Err(AllocError::OutOfSpace);
        }
        return Ok(clear_bits_start);
    }

    /// Allocates `size` payload bytes with the default alignment and
    /// returns the payload's byte offset within the data region.
    pub fn allocate(&mut self, size: usize) -> (r: Result<usize, AllocError>)
        requires
            old(self).wf(),
            old(self).bytes_allocated + size <= usize::MAX,
        ensures
            (r matches Ok(p) ==> old(self).alloc_ok(
                *final(self),
                size as int,
                DEFAULT_ALLOC_ALIGNMENT as int,
                p as int,
            )),
            (r matches Err(e) ==> old(self).alloc_err(
                *final(self),
                size as int,
                DEFAULT_ALLOC_ALIGNMENT as int,
                e,
            )),
            (r matches Ok(_)) <==> old(self).alloc_possible(
                size as int,
                DEFAULT_ALLOC_ALIGNMENT as int,
            ),
    {
        self.alloc_core(size, DEFAULT_ALLOC_ALIGNMENT)
    }

    /// Allocates `size` payload bytes at the requested alignment and
    /// returns the payload's byte offset within the data region.
    /// Alignments must be even and at most 16: the header and unit scheme
    /// cannot guarantee larger ones without extra padding.
    pub fn aligned_alloc(&mut self, size: usize, alignment: u8) -> (r: Result<usize, AllocError>)
        requires
            old(self).wf(),
            old(self).bytes_allocated + size <= usize::MAX,
            alignment % 2 == 0,
            2 <= alignment <= 16,
        ensures
            (r matches Ok(p) ==> old(self).alloc_ok(
                *final(self),
                size as int,
                alignment as int,
                p as int,
            )),
            (r matches Err(e) ==> old(self).alloc_err(
                *final(self),
                size as int,
                alignment as int,
                e,
            )),
            (r matches Ok(_)) <==> old(self).alloc_possible(size as int, alignment as int),
    {
        self.alloc_core(size, alignment)
    }

    /// The shared allocation path: computes the unit count, finds the
    /// first fit, marks the run used, writes the header, and accounts the
    /// requested bytes.
    fn alloc_core(&mut self, size: usize, alignment: u8) -> (r: Result<usize, AllocError>)
        requires
            old(self).wf(),
            old(self).bytes_allocated + size <= usize::MAX,
            1 <= alignment,
        ensures
            (r matches Ok(p) ==> old(self).alloc_ok(
                *final(self),
                size as int,
                alignment as int,
                p as int,
            )),
            (r matches Err(e) ==> old(self).alloc_err(
                *final(self),
                size as int,
                alignment as int,
                e,
            )),
            (r matches Ok(_)) <==> old(self).alloc_possible(size as int, alignment as int),
    {
        let ghost pre = *self;
        proof {
            lemma_div_is_ordered(size as int, usize::MAX as int, 4);
        }
        // One slice for the payload's whole quarters, one for the size
        // header, and one more if the payload has a partial slice.
        let slice_count: usize = size / (BYTES_PER_SLICE as usize) + 1 + if size % (
        BYTES_PER_SLICE as usize) > 0 {
            1
        } else {
            0
        };
        let ghost n = slice_count as int;

        // Reject counts the four-byte header cannot record.
        if slice_count > (u32::MAX as usize) {
            return Err(AllocError::AllocationTooLarge);
        }

        // Find slice_count clear consecutive bits in the bitmap.
        let start_slice: usize = match self.get_first_available_slice(slice_count, alignment) {
            Ok(s) => s,
            Err(_) => {
                return Err(AllocError::OutOfSpace);
            },
        };
        proof {
            assert(!slice_used(pre.bitmap(), start_slice + n - 1));
            pre.lemma_free_slice_usable(start_slice + n - 1);
            pre.lemma_free_slice_usable(start_slice as int);
            assert(start_slice + n <= pre.usable_slices());
        }

        let start_offset: usize = start_slice * (BYTES_PER_SLICE as usize);
        self.mark_slices(start_slice, slice_count, true);

        // Write the unit count as four big-endian bytes into the header
        // unit at the start of the run.
        let ghost marked = *self;
        let sc32: u32 = slice_count as u32;
        let h0: usize = self.bitmap_size + start_offset;
        proof {
            lemma_fundamental_div_mod(pre.max_bytes - pre.bitmap_size as int, 4);
            assert(h0 + 4 <= pre.max_bytes);
        }
        self.region.set(h0, ((sc32 >> 24) & 0xFF) as u8);
        self.region.set(h0 + 1, ((sc32 >> 16) & 0xFF) as u8);
        self.region.set(h0 + 2, ((sc32 >> 8) & 0xFF) as u8);
        self.region.set(h0 + 3, (sc32 & 0xFF) as u8);
        self.bytes_allocated = self.bytes_allocated + size;

        proof {
            lemma_be32_encode(sc32);
            assert(self.bitmap() =~= marked.bitmap());
            assert(self.wf());
            assert forall|j: int|
                0 <= j < pre.data().len() && !(start_slice * 4 <= j < start_slice * 4 + 4) implies
                self.data()[j] == pre.data()[j] by {
                assert(self.data()[j] == self.region@[pre.bitmap_size + j]);
                assert(marked.data()[j] == pre.data()[j]);
            };
            assert(header_at(self.data(), start_slice as int) == n) by {
                assert(self.data()[4 * (start_slice as int)] == ((sc32 >> 24) & 0xFF) as u8);
                assert(self.data()[4 * (start_slice as int) + 1] == ((sc32 >> 16) & 0xFF) as u8);
                assert(self.data()[4 * (start_slice as int) + 2] == ((sc32 >> 8) & 0xFF) as u8);
                assert(self.data()[4 * (start_slice as int) + 3] == (sc32 & 0xFF) as u8);
            };
            assert((start_offset + 4 - 4) / 4 == start_slice as int);
            assert(pre.alloc_ok(
                *self,
                size as int,
                alignment as int,
                (start_offset + 4) as int,
            ));
        }
        Ok(start_offset + 4)
    }

    /// Releases the allocation whose payload starts at data-region byte
    /// offset `pointer`.  The unit count is read back from the four bytes
    /// preceding the pointer, the run is marked free, and the payload
    /// bytes leave the running total.  Only offsets produced by a
    /// successful allocation on this instance, and not yet released, may
    /// be handed in.
    pub fn free(&mut self, pointer: usize) -> (r: bool)
        requires
            old(self).wf(),
            4 <= pointer,
            pointer % 4 == 0,
            ({
                let s = (pointer - 4) as int / 4;
                let n = header_at(old(self).data(), s);
                &&& 1 <= n
                &&& s + n <= old(self).usable_slices()
                &&& (n - 1) * 4 <= old(self).bytes_allocated
            }),
        ensures
            r == true,
            old(self).release_ok(*final(self), pointer as int),
    {
        let ghost pre = *self;
        let ghost s = (pointer - 4) as int / 4;
        let ghost n = header_at(pre.data(), s);
        proof {
            lemma_fundamental_div_mod(pointer - 4, 4);
            assert(4 * s == pointer - 4);
            lemma_fundamental_div_mod(pre.max_bytes - pre.bitmap_size as int, 4);
            assert(4 * pre.usable_slices() <= pre.max_bytes - pre.bitmap_size);
            assert(pointer + pre.bitmap_size <= pre.max_bytes);
        }

        // The unit count is stored in the four bytes preceding the
        // pointer, in big-endian order.
        let h0: usize = self.bitmap_size + pointer - 4;
        let b0: u8 = self.region[h0];
        let b1: u8 = self.region[h0 + 1];
        let b2: u8 = self.region[h0 + 2];
        let b3: u8 = self.region[h0 + 3];
        let num32: u32 = ((b0 as u32) << 24) | ((b1 as u32) << 16) | ((b2 as u32) << 8) | (
        b3 as u32);
        let num_slices: usize = num32 as usize;
        proof {
            lemma_be32_decode(b0, b1, b2, b3);
            assert(pre.data()[4 * s] == b0 && pre.data()[4 * s + 1] == b1 && pre.data()[4 * s + 2]
                == b2 && pre.data()[4 * s + 3] == b3);
            assert(num_slices as int == n);
        }

        let real_start: usize = pointer - 4;
        let start_slice: usize = real_start / 4;
        proof {
            assert(start_slice as int == s);
        }
        self.mark_slices(start_slice, num_slices, false);

        // One slice of the run held the size header, not payload.
        let ghost cleared = *self;
        let allocation_size: usize = (num_slices - 1) * (BYTES_PER_SLICE as usize);
        self.bytes_allocated = self.bytes_allocated - allocation_size;
        proof {
            assert(self.bitmap() =~= cleared.bitmap());
            assert(self.data() =~= pre.data());
            assert forall|u: int|
                self.usable_slices() <= u < self.total_bits() implies slice_used(
                self.bitmap(),
                u,
            ) by {
                assert(slice_used(cleared.bitmap(), u));
            };
            assert(self.wf());
            assert forall|t: int|
                0 <= t < pre.total_bits() implies slice_used(self.bitmap(), t) == (if s <= t < s
                + n {
                false
            } else {
                slice_used(pre.bitmap(), t)
            }) by {
                assert(slice_used(cleared.bitmap(), t) == (if s <= t < s + n {
                    false
                } else {
                    slice_used(pre.bitmap(), t)
                }));
            };
        }
        true
    }

    /// Flips exactly the bits covering `[start, start + count)` to used or
    /// free, regardless of their prior state, and touches nothing else.
    ///
    /// The range is split on byte boundaries: a range inside one byte is
    /// masked in place, a range filling exactly one byte is written whole,
    /// and a multi-byte range masks its partial first and last bytes and
    /// writes every byte strictly between them whole.
    pub fn mark_slices(&mut self, start: usize, count: usize, used: bool)
        requires
            old(self).wf(),
            1 <= count,
            start + count <= old(self).usable_slices(),
        ensures
            final(self).wf(),
            final(self).base_addr == old(self).base_addr,
            final(self).bitmap_size == old(self).bitmap_size,
            final(self).max_bytes == old(self).max_bytes,
            final(self).bytes_allocated == old(self).bytes_allocated,
            final(self).data() == old(self).data(),
            forall|t: int|
                0 <= t < old(self).total_bits() ==> slice_used(final(self).bitmap(), t) == (
                if start <= t < start + count {
                    used
                } else {
                    slice_used(old(self).bitmap(), t)
                }),
    {
        let ghost initial = *self;
        let start_byte: usize = start / 8;
        let start_remainder: u8 = (start % 8) as u8;
        let last_byte: usize = (start + count) / 8;
        let last_remainder: u8 = ((start + count) % 8) as u8;
        proof {
            assert(start == 8 * (start_byte as int) + start_remainder as int);
            assert(start + count == 8 * (last_byte as int) + last_remainder as int);
            assert(initial.usable_slices() <= initial.total_bits());
            assert(start_byte < initial.bitmap_size);
        }

        if start_byte == last_byte {
            // Start and end fall within the same bitmap byte.
            proof {
                assert(start_remainder as int + count <= 7);
            }
            let count_in_byte: u8 = count as u8;
            self.mark_byte_range(start_byte, start_remainder, start_remainder + count_in_byte, used);
            proof {
                assert(self.data() =~= initial.data());
                assert forall|t: int|
                    0 <= t < initial.total_bits() implies slice_used(self.bitmap(), t) == (
                if start <= t < start + count {
                    used
                } else {
                    slice_used(initial.bitmap(), t)
                }) by {
                    assert((start_byte as int) * 8 + start_remainder as int == start);
                };
            }
            return ;
        }

        if last_byte == start_byte + 1 && start_remainder == 0 && last_remainder == 0 {
            // The range fills exactly one whole byte.
            self.mark_full_byte(start_byte, used);
            proof {
                assert(self.data() =~= initial.data());
                assert forall|t: int|
                    0 <= t < initial.total_bits() implies slice_used(self.bitmap(), t) == (
                if start <= t < start + count {
                    used
                } else {
                    slice_used(initial.bitmap(), t)
                }) by {
                    assert((start_byte as int) * 8 == start && (start_byte as int) * 8 + 8 == start
                        + count);
                };
            }
            return ;
        }

        // Start and end fall in different bytes: fill the start byte from
        // its offset, fill the end byte up to its offset if it is partial,
        // then write every byte strictly between them whole.
        proof {
            lemma_div_is_ordered(start as int, (start + count) as int, 8);
            assert(start_byte < last_byte);
            assert(last_byte <= initial.bitmap_size);
            assert(count >= 8 - start_remainder as int);
        }
        self.mark_byte_range(start_byte, start_remainder, 8, used);
        let start_bits_to_set: u8 = 8 - start_remainder;
        let mut bits_left_to_set: usize = count - (start_bits_to_set as usize);
        proof {
            assert(bits_left_to_set == 8 * ((last_byte - start_byte) as int - 1)
                + last_remainder as int);
        }

        if last_remainder > 0 {
            proof {
                assert(last_byte < initial.bitmap_size);
            }
            self.mark_byte_range(last_byte, 0, last_remainder, used);
            bits_left_to_set -= last_remainder as usize;
        }
        let ghost partials = *self;
        proof {
            assert(partials.data() =~= initial.data());
            assert forall|t: int|
                0 <= t < initial.total_bits() implies slice_used(partials.bitmap(), t) == (
            if start <= t < (start_byte as int) * 8 + 8 || (last_byte as int) * 8 <= t < start
                + count {
                used
            } else {
                slice_used(initial.bitmap(), t)
            }) by {
                assert((start_byte as int) * 8 + start_remainder as int == start);
                assert((last_byte as int) * 8 + last_remainder as int == start + count);
            };
            assert(bits_left_to_set == 8 * ((last_byte - start_byte) as int - 1));
        }

        if bits_left_to_set == 0 {
            proof {
                assert(last_byte == start_byte + 1);
                assert(self.data() =~= initial.data());
            }
            return ;
        }

        let num_bytes_spanned: usize = bits_left_to_set / 8;
        // The start byte is done, and the last byte is done unless the
        // range ends exactly on its boundary; the rest are written whole.
        let last_byte_to_set: usize = start_byte + 1 + num_bytes_spanned;
        proof {
            assert(num_bytes_spanned == (last_byte - start_byte) as int - 1);
            assert(last_byte_to_set == last_byte);
        }
        let mut i: usize = start_byte + 1;
        while i < last_byte_to_set
            invariant
                start_byte + 1 <= i <= last_byte_to_set,
                last_byte_to_set == last_byte,
                start_byte < last_byte <= self.bitmap_size,
                start_remainder < 8 && last_remainder < 8,
                start == 8 * (start_byte as int) + start_remainder as int,
                start + count == 8 * (last_byte as int) + last_remainder as int,
                self.bitmap_size == initial.bitmap_size,
                self.base_addr == initial.base_addr,
                self.max_bytes == initial.max_bytes,
                self.bytes_allocated == initial.bytes_allocated,
                self.region@.len() == initial.region@.len(),
                initial.wf(),
                forall|j: int|
                    initial.bitmap_size <= j < initial.region@.len() ==> self.region@[j]
                        == initial.region@[j],
                forall|t: int|
                    0 <= t < initial.total_bits() ==> slice_used(self.bitmap(), t) == (
                    if start <= t < (i as int) * 8 || (last_byte as int) * 8 <= t < start + count {
                        used
                    } else {
                        slice_used(initial.bitmap(), t)
                    }),
            decreases last_byte_to_set - i,
        {
            let ghost prev = *self;
            self.mark_full_byte(i, used);
            proof {
                assert forall|t: int|
                    0 <= t < initial.total_bits() implies slice_used(self.bitmap(), t) == (
                if start <= t < (i as int + 1) * 8 || (last_byte as int) * 8 <= t < start + count {
                    used
                } else {
                    slice_used(initial.bitmap(), t)
                }) by {
                    assert(initial.total_bits() == 8 * (prev.bitmap_size as int));
                    assert(slice_used(self.bitmap(), t) == (if (i as int) * 8 <= t < (i as int) * 8
                        + 8 {
                        used
                    } else {
                        slice_used(prev.bitmap(), t)
                    }));
                    assert(slice_used(prev.bitmap(), t) == (if start <= t < (i as int) * 8 || (
                    last_byte as int) * 8 <= t < start + count {
                        used
                    } else {
                        slice_used(initial.bitmap(), t)
                    }));
                    assert(start <= (start_byte as int) * 8 + 8 <= (i as int) * 8);
                };
            }
            i += 1;
        }
        proof {
            assert(self.data() =~= initial.data());
            assert forall|t: int|
                0 <= t < initial.total_bits() implies slice_used(self.bitmap(), t) == (
            if start <= t < start + count {
                used
            } else {
                slice_used(initial.bitmap(), t)
            }) by {
                assert((last_byte as int) * 8 <= start + count);
            };
        }
    }

    /// Or-s `value` into one bitmap byte.
    fn set_bitmap_or(&mut self, offset: usize, value: u8)
        requires
            offset < old(self).bitmap_size,
            old(self).bitmap_size <= old(self).region@.len(),
        ensures
            final(self).region@ == old(self).region@.update(
                offset as int,
                (old(self).region@[offset as int] | value),
            ),
            final(self).base_addr == old(self).base_addr,
            final(self).bitmap_size == old(self).bitmap_size,
            final(self).max_bytes == old(self).max_bytes,
            final(self).bytes_allocated == old(self).bytes_allocated,
    {
        let existing: u8 = self.region[offset];
        self.region.set(offset, existing | value);
    }

    /// And-s `value` into one bitmap byte.
    fn set_bitmap_and(&mut self, offset: usize, value: u8)
        requires
            offset < old(self).bitmap_size,
            old(self).bitmap_size <= old(self).region@.len(),
        ensures
            final(self).region@ == old(self).region@.update(
                offset as int,
                (old(self).region@[offset as int] & value),
            ),
            final(self).base_addr == old(self).base_addr,
            final(self).bitmap_size == old(self).bitmap_size,
            final(self).max_bytes == old(self).max_bytes,
            final(self).bytes_allocated == old(self).bytes_allocated,
    {
        let existing: u8 = self.region[offset];
        self.region.set(offset, existing & value);
    }
}

} // verus!
