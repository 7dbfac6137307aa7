//! Strongly typed physical and virtual addresses, and the linear-offset
//! translation between the two for the kernel's identity-mapped region.

use vstd::prelude::*;

verus! {

/// Size of a base page: the minimum mappable unit of virtual memory.
pub const PAGE_SIZE_4K: usize = 4096;

/// Linear offset between the kernel's physical and virtual address spaces.
/// The translation below is valid only inside the region for which the
/// surrounding kernel establishes this linear mapping.
pub const PHYS_VIRT_OFFSET: usize = 0x8000_0000;

/// A physical memory address. Never implicitly converted to a virtual one.
#[derive(Clone, Copy, PartialEq, Eq, Structural, Debug)]
pub struct PhysAddr(pub usize);

/// A virtual memory address. Never implicitly converted to a physical one.
#[derive(Clone, Copy, PartialEq, Eq, Structural, Debug)]
pub struct VirtAddr(pub usize);

impl PhysAddr {
    pub fn as_usize(self) -> (r: usize)
        ensures
            r == self.0,
    {
        self.0
    }
}

impl VirtAddr {
    pub fn as_usize(self) -> (r: usize)
        ensures
            r == self.0,
    {
        self.0
    }
}

/// Translates a physical address into the virtual address the kernel reaches
/// it at, by the fixed linear offset.
pub fn phys_to_virt(paddr: PhysAddr) -> (r: VirtAddr)
    requires
        paddr.0 + PHYS_VIRT_OFFSET <= usize::MAX,
    ensures
        r.0 == paddr.0 + PHYS_VIRT_OFFSET,
{
    VirtAddr(paddr.0 + PHYS_VIRT_OFFSET)
}

/// Translates a linearly mapped virtual address back to its physical address.
pub fn virt_to_phys(vaddr: VirtAddr) -> (r: PhysAddr)
    requires
        vaddr.0 >= PHYS_VIRT_OFFSET,
    ensures
        r.0 == vaddr.0 - PHYS_VIRT_OFFSET,
{
    PhysAddr(vaddr.0 - PHYS_VIRT_OFFSET)
}

} // verus!
