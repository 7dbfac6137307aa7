//! Allocator adapter: wraps the allocator core behind the stable capability
//! interface (`init`, `add_memory`, `allocate`, `dealloc`, accounting) and
//! maps the core's internal error signals one-to-one onto the public error
//! taxonomy. The adapter adds no validation and no new error kinds.

use crate::bitmap::AllocError as VError;
use crate::bitmap::{
    can_fit, pages_needed, span_allocated, spec_is_pow2, valid_range, BitmapAllocator,
    overlaps_any,
};
use vstd::prelude::*;

verus! {

/// The public allocator error taxonomy.
#[derive(Clone, Copy, PartialEq, Eq, Structural, Debug)]
pub enum AllocError {
    /// Malformed size, alignment or range.
    InvalidParam,
    /// The range overlaps memory that is already tracked.
    MemoryOverlap,
    /// No sufficiently large free region exists.
    NoMemory,
}

/// How the core's error signals appear at the public boundary: unchanged,
/// kind for kind.
pub open spec fn spec_map_error(ve: VError) -> AllocError {
    match ve {
        VError::InvalidParam => AllocError::InvalidParam,
        VError::MemoryOverlap => AllocError::MemoryOverlap,
        VError::NoMemory => AllocError::NoMemory,
    }
}

/// Translates a core error into the public taxonomy, one-to-one.
pub fn map_error(ve: VError) -> (r: AllocError)
    ensures
        r == spec_map_error(ve),
{
    match ve {
        VError::InvalidParam => AllocError::InvalidParam,
        VError::MemoryOverlap => AllocError::MemoryOverlap,
        VError::NoMemory => AllocError::NoMemory,
    }
}

/// The verified bitmap allocator behind the system's allocation capability.
pub struct VerifiedBitmapAllocator(pub BitmapAllocator);

impl VerifiedBitmapAllocator {
    /// The core's accounting invariant, lifted to the adapter.
    pub open spec fn wf(self) -> bool {
        self.0.wf()
    }

    /// Bytes still free.
    pub open spec fn available(self) -> int {
        self.0.available()
    }

    /// Creates an adapter over an empty core that tracks no memory.
    pub fn new() -> (r: Self)
        ensures
            r.wf(),
            r.0.segments@.len() == 0,
            r.0.total == 0,
            r.0.used == 0,
    {
        VerifiedBitmapAllocator(BitmapAllocator::new())
    }

    /// Seeds the first tracked range. Defined to run exactly once, on a
    /// fresh allocator, before any other call; running it twice or out of
    /// order is a caller contract violation, so the preconditions exclude
    /// it rather than report an error.
    pub fn init(&mut self, start: usize, size: usize)
        requires
            old(self).wf(),
            old(self).0.segments@.len() == 0,
            valid_range(start as int, size as int),
        ensures
            final(self).wf(),
            BitmapAllocator::added_post(old(self).0, final(self).0, start as int, size as int),
    {
        let r = self.0.unsafe_add_memory(start, size);
        match r {
            Ok(()) => (),
            Err(_) => {
                proof {
                    assert(!overlaps_any(old(self).0.segments@, start as int, size as int));
                    assert(false);
                }
            },
        }
    }

    /// Checked counterpart of `init`: extends capacity with a further range,
    /// rejecting with `MemoryOverlap` any range that intersects memory that
    /// is already tracked, and with `InvalidParam` any malformed range.
    pub fn add_memory(&mut self, start: usize, size: usize) -> (r: Result<(), AllocError>)
        requires
            old(self).wf(),
        ensures
            final(self).wf(),
            !valid_range(start as int, size as int) ==> r == Err::<(), AllocError>(
                AllocError::InvalidParam,
            ) && *final(self) == *old(self),
            valid_range(start as int, size as int) && overlaps_any(
                old(self).0.segments@,
                start as int,
                size as int,
            ) ==> r == Err::<(), AllocError>(AllocError::MemoryOverlap) && *final(self) == *old(
                self,
            ),
            valid_range(start as int, size as int) && !overlaps_any(
                old(self).0.segments@,
                start as int,
                size as int,
            ) && old(self).0.total + size > usize::MAX ==> r == Err::<(), AllocError>(
                AllocError::InvalidParam,
            ) && *final(self) == *old(self),
            valid_range(start as int, size as int) && !overlaps_any(
                old(self).0.segments@,
                start as int,
                size as int,
            ) && old(self).0.total + size <= usize::MAX ==> r == Ok::<(), AllocError>(())
                && BitmapAllocator::added_post(
                old(self).0,
                final(self).0,
                start as int,
                size as int,
            ),
    {
        match self.0.unsafe_add_memory(start, size) {
            Ok(()) => Ok(()),
            Err(ve) => Err(map_error(ve)),
        }
    }

    /// Finds a free, sufficiently large, correctly aligned region, marks it
    /// used and returns its starting address. Fails with `InvalidParam` if
    /// `size == 0` or `align` is not a power of two, and with `NoMemory`
    /// exactly when no tracked segment holds a fitting run; a request for
    /// more than `available_bytes()` always fails that way.
    pub fn allocate(&mut self, size: usize, align: usize) -> (r: Result<usize, AllocError>)
        requires
            old(self).wf(),
        ensures
            final(self).wf(),
            (size == 0 || !spec_is_pow2(align)) ==> r == Err::<usize, AllocError>(
                AllocError::InvalidParam,
            ) && *final(self) == *old(self),
            size > 0 && spec_is_pow2(align) && !can_fit(
                old(self).0.segments@,
                pages_needed(size as int),
                align as int,
            ) ==> r == Err::<usize, AllocError>(AllocError::NoMemory) && *final(self) == *old(
                self,
            ),
            size > 0 && spec_is_pow2(align) && can_fit(
                old(self).0.segments@,
                pages_needed(size as int),
                align as int,
            ) ==> (match r {
                Ok(addr) => BitmapAllocator::alloc_post(
                    old(self).0,
                    final(self).0,
                    size as int,
                    align as int,
                    addr as int,
                ),
                Err(_) => false,
            }),
            size > 0 && spec_is_pow2(align) && size as int > old(self).available() ==> r
                == Err::<usize, AllocError>(AllocError::NoMemory),
    {
        match self.0.allocate(size, align) {
            Ok(p) => Ok(p.0),
            Err(ve) => Err(map_error(ve)),
        }
    }

    /// Marks a previously returned span free again. Deallocating a span not
    /// currently fully allocated, or with a size that does not match the
    /// allocation's rounded size, is a caller contract violation, so the
    /// preconditions exclude it.
    pub fn dealloc(&mut self, addr: usize, size: usize)
        requires
            old(self).wf(),
            size > 0,
            span_allocated(old(self).0.segments@, addr as int, pages_needed(size as int)),
        ensures
            final(self).wf(),
            BitmapAllocator::dealloc_post(
                old(self).0,
                final(self).0,
                addr as int,
                pages_needed(size as int),
            ),
    {
        self.0.unsafe_dealloc(addr, size);
    }

    /// O(1) read of the bytes still free.
    pub fn available_bytes(&self) -> (r: usize)
        requires
            self.wf(),
        ensures
            r as int == self.0.total - self.0.used,
    {
        self.0.available_bytes()
    }

    /// O(1) read of the bytes currently allocated.
    pub fn used_bytes(&self) -> (r: usize)
        ensures
            r == self.0.used,
    {
        self.0.used_bytes()
    }

    /// O(1) read of the bytes tracked in all ranges together.
    pub fn total_bytes(&self) -> (r: usize)
        ensures
            r == self.0.total,
    {
        self.0.total_bytes()
    }
}

/// Accounting invariant at the public boundary: after `init` and any
/// sequence of calls that keeps the allocator well formed,
/// `used_bytes() + available_bytes() == total_bytes()`.
pub proof fn lemma_adapter_accounting(a: VerifiedBitmapAllocator)
    requires
        a.wf(),
    ensures
        a.0.used + a.available() == a.0.total,
        0 <= a.0.used <= a.0.total,
{
    crate::bitmap::lemma_accounting(a.0);
}

} // verus!
