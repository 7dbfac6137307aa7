use axmemory::allocator::{AllocError, VerifiedBitmapAllocator};
use axmemory::bitmap::AllocError as CoreError;
use axmemory::allocator::map_error;

#[test]
fn scenario_init_alloc_accounting() {
    let mut a = VerifiedBitmapAllocator::new();
    a.init(0x1000, 0x4000);
    assert_eq!(a.total_bytes(), 0x4000);
    assert_eq!(a.used_bytes(), 0);
    assert_eq!(a.available_bytes(), 0x4000);
    let addr = a.allocate(0x1000, 0x1000).expect("first allocation must fit");
    assert!(0x1000 <= addr && addr < 0x5000);
    assert_eq!(a.used_bytes(), 0x1000);
    assert_eq!(a.available_bytes(), 0x3000);
    assert_eq!(a.total_bytes(), 0x4000);
}

#[test]
fn accounting_invariant_through_sequence() {
    let mut a = VerifiedBitmapAllocator::new();
    a.init(0x1000, 0x8000);
    assert_eq!(a.used_bytes() + a.available_bytes(), a.total_bytes());
    let p1 = a.allocate(0x1000, 0x1000).unwrap();
    assert_eq!(a.used_bytes() + a.available_bytes(), a.total_bytes());
    let _p2 = a.allocate(0x2000, 0x1000).unwrap();
    assert_eq!(a.used_bytes() + a.available_bytes(), a.total_bytes());
    a.dealloc(p1, 0x1000);
    assert_eq!(a.used_bytes() + a.available_bytes(), a.total_bytes());
    let _p3 = a.allocate(0x1000, 0x2000).unwrap();
    assert_eq!(a.used_bytes() + a.available_bytes(), a.total_bytes());
}

#[test]
fn round_trip_restores_counters() {
    let mut a = VerifiedBitmapAllocator::new();
    a.init(0x1000, 0x4000);
    let _held = a.allocate(0x1000, 0x1000).unwrap();
    let used_before = a.used_bytes();
    let avail_before = a.available_bytes();
    let addr = a.allocate(0x1800, 0x1000).unwrap();
    a.dealloc(addr, 0x1800);
    assert_eq!(a.used_bytes(), used_before);
    assert_eq!(a.available_bytes(), avail_before);
}

#[test]
fn zero_size_rejected_without_change() {
    let mut a = VerifiedBitmapAllocator::new();
    a.init(0x1000, 0x4000);
    let used = a.used_bytes();
    let avail = a.available_bytes();
    assert_eq!(a.allocate(0, 0x1000), Err(AllocError::InvalidParam));
    assert_eq!(a.used_bytes(), used);
    assert_eq!(a.available_bytes(), avail);
}

#[test]
fn non_power_of_two_align_rejected_without_change() {
    let mut a = VerifiedBitmapAllocator::new();
    a.init(0x1000, 0x4000);
    let used = a.used_bytes();
    let avail = a.available_bytes();
    assert_eq!(a.allocate(0x1000, 3), Err(AllocError::InvalidParam));
    assert_eq!(a.allocate(0x1000, 0), Err(AllocError::InvalidParam));
    assert_eq!(a.used_bytes(), used);
    assert_eq!(a.available_bytes(), avail);
}

#[test]
fn exhaustion_reports_no_memory() {
    let mut a = VerifiedBitmapAllocator::new();
    a.init(0x1000, 0x4000);
    assert_eq!(a.allocate(0x5000, 0x1000), Err(AllocError::NoMemory));
    let _all = a.allocate(0x4000, 0x1000).unwrap();
    assert_eq!(a.allocate(0x1000, 0x1000), Err(AllocError::NoMemory));
}

#[test]
fn add_memory_overlap_rejected() {
    let mut a = VerifiedBitmapAllocator::new();
    a.init(0x1000, 0x4000);
    assert_eq!(a.add_memory(0x4000, 0x2000), Err(AllocError::MemoryOverlap));
    assert_eq!(a.add_memory(0x1000, 0x4000), Err(AllocError::MemoryOverlap));
    assert_eq!(a.add_memory(0x0, 0x2000), Err(AllocError::MemoryOverlap));
}

#[test]
fn add_memory_extends_capacity() {
    let mut a = VerifiedBitmapAllocator::new();
    a.init(0x1000, 0x4000);
    assert_eq!(a.add_memory(0x10000, 0x2000), Ok(()));
    assert_eq!(a.total_bytes(), 0x6000);
    assert_eq!(a.available_bytes(), 0x6000);
    // the earlier region fills up, the added one still serves
    let _a1 = a.allocate(0x4000, 0x1000).unwrap();
    let a2 = a.allocate(0x2000, 0x1000).unwrap();
    assert!(0x10000 <= a2 && a2 < 0x12000);
}

#[test]
fn add_memory_malformed_rejected() {
    let mut a = VerifiedBitmapAllocator::new();
    a.init(0x1000, 0x4000);
    assert_eq!(a.add_memory(0x10000, 0), Err(AllocError::InvalidParam));
    assert_eq!(a.add_memory(0x10000, 0x800), Err(AllocError::InvalidParam));
    assert_eq!(a.add_memory(0x10800, 0x1000), Err(AllocError::InvalidParam));
}

#[test]
fn alignment_of_returned_address_honoured() {
    let mut a = VerifiedBitmapAllocator::new();
    a.init(0x1000, 0x10000);
    let _pad = a.allocate(0x1000, 0x1000).unwrap();
    let big = a.allocate(0x1000, 0x4000).unwrap();
    assert_eq!(big % 0x4000, 0);
}

#[test]
fn map_error_is_one_to_one() {
    assert_eq!(map_error(CoreError::InvalidParam), AllocError::InvalidParam);
    assert_eq!(map_error(CoreError::MemoryOverlap), AllocError::MemoryOverlap);
    assert_eq!(map_error(CoreError::NoMemory), AllocError::NoMemory);
}
