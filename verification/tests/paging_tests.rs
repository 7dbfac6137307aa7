use axmemory::addr::{phys_to_virt, virt_to_phys, PhysAddr, VirtAddr, PHYS_VIRT_OFFSET};
use axmemory::allocator::VerifiedBitmapAllocator;
use axmemory::flags::{mapping_to_nr_flags, MappingFlags, MemRegionFlags, NrPteFlags};
use axmemory::paging::{PageTable, PagingError, PagingIfImpl};

fn heap() -> VerifiedBitmapAllocator {
    let mut a = VerifiedBitmapAllocator::new();
    a.init(PHYS_VIRT_OFFSET + 0x4000_0000, 0x40_0000);
    a
}

fn rw() -> MappingFlags {
    MappingFlags {
        read: true,
        write: true,
        execute: false,
        device: false,
        uncached: false,
        user: false,
    }
}

#[test]
fn address_translation_round_trip() {
    let p = PhysAddr(0x1234_5000);
    let v = phys_to_virt(p);
    assert_eq!(v.as_usize(), 0x1234_5000 + PHYS_VIRT_OFFSET);
    assert_eq!(virt_to_phys(v), p);
    assert_eq!(PagingIfImpl::phys_to_virt(p), v);
}

#[test]
fn frame_supply_round_trip() {
    let mut a = heap();
    let avail = a.available_bytes();
    let f = PagingIfImpl::alloc_frame(&mut a).expect("a frame must be available");
    assert_eq!(f.as_usize() % 0x1000, 0);
    assert_eq!(a.available_bytes(), avail - 0x1000);
    PagingIfImpl::dealloc_frame(&mut a, f);
    assert_eq!(a.available_bytes(), avail);
}

#[test]
fn frame_supply_exhaustion_is_soft() {
    let mut a = VerifiedBitmapAllocator::new();
    assert!(PagingIfImpl::alloc_frame(&mut a).is_none());
}

#[test]
fn try_new_fails_without_memory() {
    let mut a = VerifiedBitmapAllocator::new();
    match PageTable::try_new(&mut a) {
        Err(PagingError::NoMemory) => (),
        other => panic!("expected NoMemory, got {:?}", other.map(|_| ())),
    }
}

#[test]
fn scenario_two_page_mapping() {
    let mut a = heap();
    let mut t = PageTable::try_new(&mut a).unwrap();
    assert_eq!(t.root_paddr().as_usize() % 0x1000, 0);
    let r = t.map_region(&mut a, VirtAddr(0x2000_0000), PhysAddr(0x1000), 0x2000, rw(), false);
    assert_eq!(r, Ok(()));
    let nr = NrPteFlags {
        is_writable: true,
        is_supervisor: true,
        disable_execute: true,
        disable_cache: false,
    };
    assert_eq!(t.query(VirtAddr(0x2000_0000)), Some((PhysAddr(0x1000), nr)));
    assert_eq!(t.query(VirtAddr(0x2000_1000)), Some((PhysAddr(0x2000), nr)));
    assert_eq!(t.query(VirtAddr(0x2000_2000)), None);
    assert_eq!(t.query(VirtAddr(0x1fff_f000)), None);
}

#[test]
fn scenario_remap_already_mapped() {
    let mut a = heap();
    let mut t = PageTable::try_new(&mut a).unwrap();
    t.map_region(&mut a, VirtAddr(0x2000_0000), PhysAddr(0x1000), 0x2000, rw(), false).unwrap();
    let r = t.map_region(&mut a, VirtAddr(0x2000_0000), PhysAddr(0x9000), 0x1000, rw(), false);
    assert_eq!(r, Err(PagingError::AlreadyMapped));
    // the earlier mapping is untouched
    let nr = NrPteFlags {
        is_writable: true,
        is_supervisor: true,
        disable_execute: true,
        disable_cache: false,
    };
    assert_eq!(t.query(VirtAddr(0x2000_0000)), Some((PhysAddr(0x1000), nr)));
}

#[test]
fn alignment_gate_leaves_table_unchanged() {
    let mut a = heap();
    let mut t = PageTable::try_new(&mut a).unwrap();
    let avail = a.available_bytes();
    let r1 = t.map_region(&mut a, VirtAddr(0x2000_0800), PhysAddr(0x1000), 0x1000, rw(), false);
    assert_eq!(r1, Err(PagingError::NotAligned));
    let r2 = t.map_region(&mut a, VirtAddr(0x2000_0000), PhysAddr(0x1800), 0x1000, rw(), false);
    assert_eq!(r2, Err(PagingError::NotAligned));
    let r3 = t.map_region(&mut a, VirtAddr(0x2000_0000), PhysAddr(0x1000), 0x1800, rw(), false);
    assert_eq!(r3, Err(PagingError::NotAligned));
    assert_eq!(t.query(VirtAddr(0x2000_0000)), None);
    assert_eq!(a.available_bytes(), avail);
}

#[test]
fn map_region_exhaustion_reports_no_memory() {
    let mut a = VerifiedBitmapAllocator::new();
    // room for the root frame and one intermediate node only
    a.init(PHYS_VIRT_OFFSET + 0x4000_0000, 0x2000);
    let mut t = PageTable::try_new(&mut a).unwrap();
    let r = t.map_region(&mut a, VirtAddr(0x2000_0000), PhysAddr(0x1000), 0x1000, rw(), false);
    assert_eq!(r, Err(PagingError::NoMemory));
}

#[test]
fn distant_regions_coexist() {
    let mut a = heap();
    let mut t = PageTable::try_new(&mut a).unwrap();
    t.map_region(&mut a, VirtAddr(0x2000_0000), PhysAddr(0x1000), 0x1000, rw(), false).unwrap();
    // a far-away address walks through different nodes at every level
    t.map_region(&mut a, VirtAddr(0x7f_ff00_0000), PhysAddr(0x5000), 0x1000, rw(), false)
        .unwrap();
    let nr = NrPteFlags {
        is_writable: true,
        is_supervisor: true,
        disable_execute: true,
        disable_cache: false,
    };
    assert_eq!(t.query(VirtAddr(0x2000_0000)), Some((PhysAddr(0x1000), nr)));
    assert_eq!(t.query(VirtAddr(0x7f_ff00_0000)), Some((PhysAddr(0x5000), nr)));
}

#[test]
fn mapping_across_leaf_node_boundary() {
    let mut a = heap();
    let mut t = PageTable::try_new(&mut a).unwrap();
    // the two pages land in different leaf nodes of the radix tree
    t.map_region(&mut a, VirtAddr(0x201f_f000), PhysAddr(0x3000), 0x2000, rw(), false).unwrap();
    let nr = NrPteFlags {
        is_writable: true,
        is_supervisor: true,
        disable_execute: true,
        disable_cache: false,
    };
    assert_eq!(t.query(VirtAddr(0x201f_f000)), Some((PhysAddr(0x3000), nr)));
    assert_eq!(t.query(VirtAddr(0x2020_0000)), Some((PhysAddr(0x4000), nr)));
    assert_eq!(t.query(VirtAddr(0x2020_1000)), None);
}

#[test]
fn translate_single_bits_are_distinct() {
    let empty = MappingFlags {
        read: false,
        write: false,
        execute: false,
        device: false,
        uncached: false,
        user: false,
    };
    let w = MappingFlags { write: true, ..empty };
    let x = MappingFlags { execute: true, ..empty };
    let u = MappingFlags { uncached: true, ..empty };
    let base = mapping_to_nr_flags(empty);
    let tw = mapping_to_nr_flags(w);
    let tx = mapping_to_nr_flags(x);
    let tu = mapping_to_nr_flags(u);
    // each supported bit moves exactly one architecture bit
    assert_ne!(tw, base);
    assert_ne!(tx, base);
    assert_ne!(tu, base);
    assert_ne!(tw, tx);
    assert_ne!(tw, tu);
    assert_ne!(tx, tu);
    // unsupported bits are dropped
    let r = MappingFlags { read: true, ..empty };
    let d = MappingFlags { device: true, ..empty };
    assert_eq!(mapping_to_nr_flags(r), base);
    assert_eq!(mapping_to_nr_flags(d), base);
}

#[test]
fn translate_union_is_union_of_bits() {
    let empty = MappingFlags {
        read: false,
        write: false,
        execute: false,
        device: false,
        uncached: false,
        user: false,
    };
    let w = MappingFlags { write: true, ..empty };
    let x = MappingFlags { execute: true, ..empty };
    let both = w.union(x);
    let t = mapping_to_nr_flags(both);
    assert!(t.is_writable);
    assert!(!t.disable_execute);
    assert!(t.is_supervisor);
    assert!(!t.disable_cache);
}

#[test]
fn region_flags_convert_bit_for_bit() {
    let f = MemRegionFlags { read: true, write: true, execute: false, device: true, uncached: false };
    let m = MappingFlags::from(f);
    assert!(m.read && m.write && m.device);
    assert!(!m.execute && !m.uncached && !m.user);
    let contains_rw = m.contains(MappingFlags {
        read: true,
        write: true,
        execute: false,
        device: false,
        uncached: false,
        user: false,
    });
    assert!(contains_rw);
}
