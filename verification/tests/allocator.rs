use bump_allocator::early::EarlyAllocator;
use bump_allocator::AllocError;

const PAGE: usize = 0x1000;

fn region() -> EarlyAllocator<PAGE> {
    let mut a = EarlyAllocator::<PAGE>::new();
    a.init(0x1000, 0x2000);
    a
}

#[test]
fn new_is_zeroed() {
    let a = EarlyAllocator::<PAGE>::new();
    assert_eq!(a.total_bytes(), 0);
    assert_eq!(a.used_bytes(), 0);
    assert_eq!(a.available_bytes(), 0);
    assert_eq!(a.total_pages(), 0);
}

#[test]
fn init_accounts_whole_region() {
    let a = region();
    assert_eq!(a.total_bytes(), 0x2000);
    assert_eq!(a.used_bytes(), 0);
    assert_eq!(a.available_bytes(), 0x2000);
    assert_eq!(a.total_pages(), 2);
    assert_eq!(a.used_pages(), 0);
    assert_eq!(a.available_pages(), 2);
}

#[test]
fn concrete_scenario() {
    let mut a = region();
    assert_eq!(a.total_bytes(), 0x2000);
    assert_eq!(a.total_pages(), 2);
    assert_eq!(a.allocate(8, 8), Ok(0x1000));
    assert_eq!(a.used_bytes(), 8);
    assert_eq!(a.alloc_pages(1, 12), Ok(0x2000));
    assert_eq!(a.used_pages(), 1);
    assert_eq!(a.available_bytes(), 0x1000 - 8);
}

#[test]
fn byte_allocations_are_aligned_and_monotonic() {
    let mut a = region();
    let mut prev_end = 0x1000;
    let mut prev_used = 0;
    let sizes: [usize; 4] = [3, 5, 1, 9];
    let aligns: [usize; 4] = [1, 8, 16, 2];
    for t in 0..4 {
        let addr = a.allocate(sizes[t], aligns[t]).unwrap();
        assert_eq!(addr % aligns[t], 0);
        assert!(addr >= prev_end);
        assert!(a.used_bytes() >= prev_used);
        prev_end = addr + sizes[t];
        prev_used = a.used_bytes();
    }
}

#[test]
fn full_drain_compacts_in_any_order() {
    let mut a = region();
    let p1 = a.allocate(8, 8).unwrap();
    let p2 = a.allocate(16, 4).unwrap();
    let p3 = a.allocate(4, 2).unwrap();
    assert!(a.used_bytes() > 0);
    // release in a different order than allocation
    a.dealloc(p2, 16);
    a.dealloc(p3, 4);
    a.dealloc(p1, 8);
    assert_eq!(a.used_bytes(), 0);
    // the next allocation gets the region start, rounded to its alignment
    assert_eq!(a.allocate(8, 8), Ok(0x1000));
}

#[test]
fn partial_release_does_not_compact() {
    let mut a = region();
    let p1 = a.allocate(8, 8).unwrap();
    let p2 = a.allocate(16, 4).unwrap();
    let _p3 = a.allocate(4, 2).unwrap();
    let used_after_third = a.used_bytes();
    a.dealloc(p1, 8);
    assert_eq!(a.used_bytes(), used_after_third);
    a.dealloc(p2, 16);
    assert_eq!(a.used_bytes(), used_after_third);
}

#[test]
fn page_cursor_moves_down_only() {
    let mut a = region();
    let before = a.available_pages();
    let b1 = a.alloc_pages(1, 12).unwrap();
    assert_eq!(b1 % 0x1000, 0);
    assert_eq!(a.available_pages(), before - 1);
    let b2 = a.alloc_pages(1, 12).unwrap();
    assert!(b2 < b1);
    assert_eq!(a.available_pages(), before - 2);
}

#[test]
fn unsupported_operations_fail_and_keep_state() {
    let mut a = region();
    a.allocate(8, 8).unwrap();
    let (t, u, v) = (a.total_bytes(), a.used_bytes(), a.available_bytes());
    assert_eq!(a.dealloc_pages(0x2000, 1), Err(AllocError::Unsupported));
    assert_eq!(a.add_memory(0x8000, 0x1000), Err(AllocError::Unsupported));
    assert_eq!(a.total_bytes(), t);
    assert_eq!(a.used_bytes(), u);
    assert_eq!(a.available_bytes(), v);
}

#[test]
fn exhaustion_is_reported_and_state_kept() {
    let mut a = region();
    let used = a.used_bytes();
    assert_eq!(a.allocate(0x4000, 1), Err(AllocError::RegionExhausted));
    assert_eq!(a.used_bytes(), used);
    assert_eq!(a.alloc_pages(3, 12), Err(AllocError::RegionExhausted));
    assert_eq!(a.available_pages(), 2);
    // byte and page demands that together overrun the free area
    assert_eq!(a.alloc_pages(1, 12), Ok(0x2000));
    assert_eq!(a.allocate(0x1001, 1), Err(AllocError::RegionExhausted));
    assert_eq!(a.allocate(0x1000, 1), Ok(0x1000));
}

#[test]
fn alignment_padding_counts_as_used() {
    let mut a = region();
    assert_eq!(a.allocate(1, 1), Ok(0x1000));
    assert_eq!(a.used_bytes(), 1);
    // the next allocation rounds the cursor up to a 16-byte boundary
    assert_eq!(a.allocate(1, 16), Ok(0x1010));
    assert_eq!(a.used_bytes(), 0x11);
}
