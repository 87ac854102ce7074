use noxrust::allocator::{AllocError, Allocator, DEFAULT_ALLOC_ALIGNMENT};

fn fresh(base_addr: usize, max_bytes: usize) -> Allocator {
    Allocator::new(base_addr, max_bytes).unwrap()
}

fn bitmap_bytes(a: &Allocator) -> Vec<u8> {
    let mut v = Vec::new();
    let mut i = 0;
    while i < a.get_bitmap_size() {
        v.push(a.get_bitmap_byte(i));
        i += 1;
    }
    v
}

#[test]
fn region_of_1024_bytes_splits_into_bitmap_and_data() {
    let a = fresh(0, 1024);
    // 256 units, one bit each, rounded up to whole bytes.
    assert_eq!(a.get_bitmap_size(), 32);
    assert_eq!(a.get_max_bytes(), 1024);
    assert_eq!(a.get_max_bytes() - a.get_bitmap_size(), 992);
    assert_eq!(a.get_bytes_allocated(), 0);
}

#[test]
fn first_allocation_lands_after_reserved_byte() {
    let mut a = fresh(0, 1024);
    let ptr = a.allocate(8).unwrap();
    // First fit: slice 8, the first slice past the reserved byte.
    // The payload sits one header unit later.
    assert_eq!(ptr, 36);
    assert_eq!((0 + 32 + ptr) % (DEFAULT_ALLOC_ALIGNMENT as usize), 0);
    // Three units: one header plus two for the 8 payload bytes.
    assert_eq!(a.get_bitmap_byte(1), 0b1110_0000);
    assert_eq!(a.get_bytes_allocated(), 8);
}

#[test]
fn region_of_64_bytes_is_refused() {
    match Allocator::new(0, 64) {
        Err(e) => assert_eq!(e, AllocError::InsufficientRegion),
        Ok(_) => panic!("a 64-byte region must be refused"),
    }
    assert!(matches!(Allocator::new(0, 63), Err(AllocError::InsufficientRegion)));
    assert!(Allocator::new(0, 65).is_ok());
}

#[test]
fn allocate_until_out_of_space_then_reuse_freed_run() {
    let mut a = fresh(0, 1024);
    let mut ptrs = Vec::new();
    loop {
        match a.allocate(100) {
            Ok(p) => ptrs.push(p),
            Err(e) => {
                assert_eq!(e, AllocError::OutOfSpace);
                break;
            }
        }
    }
    assert!(ptrs.len() > 2);
    let victim = ptrs[2];
    assert!(a.free(victim));
    // A fitting request reuses exactly the freed units.
    let again = a.allocate(100).unwrap();
    assert_eq!(again, victim);
}

#[test]
fn reverse_release_restores_bitmap_exactly() {
    let mut a = fresh(0, 1024);
    let before = bitmap_bytes(&a);
    let bytes_before = a.get_bytes_allocated();
    let p1 = a.aligned_alloc(16, 16).unwrap();
    let p2 = a.aligned_alloc(4, 4).unwrap();
    assert_ne!(bitmap_bytes(&a), before);
    assert!(a.free(p2));
    assert!(a.free(p1));
    assert_eq!(bitmap_bytes(&a), before);
    assert_eq!(a.get_bytes_allocated(), bytes_before);
}

#[test]
fn round_trip_restores_bitmap_and_counter_for_whole_slices() {
    for size in [4usize, 8, 12, 16, 32, 100] {
        let mut a = fresh(0, 1024);
        let before = bitmap_bytes(&a);
        let ptr = a.allocate(size).unwrap();
        assert_eq!(a.get_bytes_allocated(), size);
        assert!(a.free(ptr));
        assert_eq!(bitmap_bytes(&a), before, "size {}", size);
        assert_eq!(a.get_bytes_allocated(), 0, "size {}", size);
    }
}

#[test]
fn round_trip_of_partial_slice_restores_bitmap_but_rounds_counter() {
    let mut a = fresh(0, 1024);
    let filler = a.allocate(8).unwrap();
    let before = bitmap_bytes(&a);
    // 5 payload bytes occupy two data units; the release subtracts the
    // rounded size, 8, not the requested 5.
    let ptr = a.allocate(5).unwrap();
    assert_eq!(a.get_bytes_allocated(), 13);
    assert!(a.free(ptr));
    assert_eq!(bitmap_bytes(&a), before);
    assert_eq!(a.get_bytes_allocated(), 5);
    assert!(a.free(filler));
}

#[test]
fn live_allocations_never_share_units() {
    let mut a = fresh(0, 1024);
    let p1 = a.allocate(8).unwrap();
    let p2 = a.allocate(8).unwrap();
    // Each allocation spans 3 units of 4 bytes, header included.
    let (lo, hi) = if p1 < p2 { (p1, p2) } else { (p2, p1) };
    assert!(lo + 8 <= hi - 4, "unit ranges overlap: {} and {}", p1, p2);
}

#[test]
fn aligned_allocations_meet_their_alignment() {
    for base in [0usize, 4, 16, 4096] {
        let mut a = fresh(base, 1024);
        for alignment in [2u8, 4, 8, 16] {
            let ptr = a.aligned_alloc(24, alignment).unwrap();
            let address = base + a.get_bitmap_size() + ptr;
            assert_eq!(address % (alignment as usize), 0, "base {} alignment {}", base, alignment);
        }
    }
}

#[test]
fn locator_returns_lowest_fitting_run() {
    let mut a = fresh(0, 1024);
    a.mark_slices(8, 4, true);
    // Slices 8..12 are taken; the lowest free aligned start is 12.
    assert_eq!(a.get_first_available_slice(2, 4), Ok(12));
    // An identical state gives the identical answer.
    let mut b = fresh(0, 1024);
    b.mark_slices(8, 4, true);
    assert_eq!(
        a.get_first_available_slice(2, 4),
        b.get_first_available_slice(2, 4)
    );
}

#[test]
fn locator_skips_starts_that_miss_alignment() {
    let a = fresh(0, 1024);
    // Payload address is 32 + s*4 + 4; for alignment 16 that needs
    // s % 4 == 3, and the first such slice past the reserved byte is 11.
    assert_eq!(a.get_first_available_slice(1, 16), Ok(11));
}

#[test]
fn locator_reports_out_of_space() {
    let a = fresh(0, 128);
    assert_eq!(a.get_first_available_slice(1000, 4), Err(AllocError::OutOfSpace));
    let mut b = fresh(0, 128);
    assert_eq!(b.allocate(1024), Err(AllocError::OutOfSpace));
}

#[test]
fn oversized_unit_count_is_rejected() {
    let mut a = fresh(0, 1024);
    let size = (u32::MAX as usize) * 4;
    assert_eq!(a.allocate(size), Err(AllocError::AllocationTooLarge));
    // Nothing changed.
    assert_eq!(a.get_bytes_allocated(), 0);
    assert_eq!(a.get_bitmap_byte(1), 0);
}

#[test]
fn mark_slices_within_one_byte_masks_in_place() {
    let mut a = fresh(0, 1024);
    a.mark_slices(9, 3, true);
    assert_eq!(a.get_bitmap_byte(1), 0b0111_0000);
    a.mark_slices(9, 3, false);
    assert_eq!(a.get_bitmap_byte(1), 0);
}

#[test]
fn mark_slices_filling_exactly_one_byte_writes_it_whole() {
    let mut a = fresh(0, 1024);
    a.mark_slices(16, 8, true);
    assert_eq!(a.get_bitmap_byte(1), 0);
    assert_eq!(a.get_bitmap_byte(2), 0xFF);
    assert_eq!(a.get_bitmap_byte(3), 0);
    a.mark_slices(16, 8, false);
    assert_eq!(a.get_bitmap_byte(2), 0);
}

#[test]
fn mark_slices_spanning_bytes_fills_both_ends() {
    let mut a = fresh(0, 1024);
    a.mark_slices(10, 15, true);
    assert_eq!(a.get_bitmap_byte(1), 0b0011_1111);
    assert_eq!(a.get_bitmap_byte(2), 0xFF);
    assert_eq!(a.get_bitmap_byte(3), 0b1000_0000);
    a.mark_slices(12, 6, false);
    assert_eq!(a.get_bitmap_byte(1), 0b0011_0000);
    assert_eq!(a.get_bitmap_byte(2), 0b0011_1111);
    assert_eq!(a.get_bitmap_byte(3), 0b1000_0000);
}

#[test]
fn counter_tracks_sum_of_live_payload_sizes() {
    let mut a = fresh(0, 1024);
    let p1 = a.allocate(8).unwrap();
    let p2 = a.allocate(12).unwrap();
    assert_eq!(a.get_bytes_allocated(), 20);
    assert!(a.free(p1));
    assert_eq!(a.get_bytes_allocated(), 12);
    let p3 = a.allocate(4).unwrap();
    assert_eq!(a.get_bytes_allocated(), 16);
    assert!(a.free(p2));
    assert!(a.free(p3));
    assert_eq!(a.get_bytes_allocated(), 0);
}

#[test]
fn alignment_query_accounts_for_header_and_base() {
    let a = fresh(0, 1024);
    assert!(a.is_slice_aligned(8, 4));
    assert!(!a.is_slice_aligned(8, 8));
    assert!(a.is_slice_aligned(9, 8));
    let b = fresh(4, 1024);
    assert!(b.is_slice_aligned(8, 8));
}

#[test]
fn misaligned_base_leaves_no_valid_runs() {
    // With a base of 2, every payload address is 2 modulo 4, so no run
    // can satisfy even the default alignment.
    let mut a = fresh(2, 1024);
    assert_eq!(a.allocate(8), Err(AllocError::OutOfSpace));
    assert_eq!(a.get_bytes_allocated(), 0);
}

#[test]
fn zero_byte_allocation_takes_only_the_header_unit() {
    let mut a = fresh(0, 1024);
    let before = bitmap_bytes(&a);
    let p = a.allocate(0).unwrap();
    assert_eq!(p, 36);
    assert_eq!(a.get_bitmap_byte(1), 0b1000_0000);
    assert_eq!(a.get_bytes_allocated(), 0);
    assert!(a.free(p));
    assert_eq!(bitmap_bytes(&a), before);
}

#[test]
fn trailing_bitmap_bits_without_payload_start_used() {
    let a = fresh(0, 1024);
    // 248 usable units; the last bitmap byte tracks units 248..256,
    // whose payload would lie past the data region.
    assert_eq!(a.get_bitmap_byte(31), 0xFF);
    assert_eq!(a.get_bitmap_byte(30), 0);
}
