//! The page-table abstraction: a frame supply over the allocator, and a
//! four-level radix page table that maps byte regions page by page,
//! sourcing intermediate table frames from the frame supply.

use crate::addr::{PhysAddr, VirtAddr, PAGE_SIZE_4K, PHYS_VIRT_OFFSET};
use crate::allocator::VerifiedBitmapAllocator;
use crate::bitmap::{span_allocated, spec_is_pow2, BitmapAllocator};
use crate::flags::{mapping_to_nr_flags, spec_nr_flags, MappingFlags, NrPteFlags};
use vstd::prelude::*;

verus! {

/// Paging error taxonomy.
#[derive(Clone, Copy, PartialEq, Eq, Structural, Debug)]
pub enum PagingError {
    /// Frame exhaustion while populating the table.
    NoMemory,
    /// An address or size is not page-granular.
    NotAligned,
    /// The target slot already holds a mapping.
    AlreadyMapped,
}

/// Relies on memory_addr::is_aligned, whose documentation states it is
/// equivalent to `addr % align == 0` for a power-of-two alignment.
pub assume_specification [ memory_addr::is_aligned ](addr: usize, align: usize) -> (r: bool)
    requires
        spec_is_pow2(align),
    ensures
        r == (addr as int % align as int == 0),
;

/// Every tracked range of the allocator lies inside the linearly mapped
/// window, so every address it hands out can be translated to a physical
/// address by the fixed offset.
pub open spec fn above_offset(a: BitmapAllocator) -> bool {
    forall|k: int|
        0 <= k < a.segments@.len() ==> (#[trigger] a.segments@[k]).start >= PHYS_VIRT_OFFSET
}

/// The frame supply: a stateless bridge that hands out and reclaims single
/// page-sized, page-aligned physical frames from an explicitly injected
/// allocator handle, translating between the allocator's virtual addresses
/// and physical frame addresses by the fixed linear offset.
pub struct PagingIfImpl;

impl PagingIfImpl {
    /// Requests exactly one page-granularity, page-aligned physical frame.
    /// Returns `None` exactly on exhaustion, leaving the allocator unchanged.
    pub fn alloc_frame(alloc: &mut VerifiedBitmapAllocator) -> (r: Option<PhysAddr>)
        requires
            old(alloc).wf(),
            above_offset(old(alloc).0),
        ensures
            final(alloc).wf(),
            above_offset(final(alloc).0),
            final(alloc).0.total == old(alloc).0.total,
            match r {
                Some(p) => {
                    &&& BitmapAllocator::alloc_post(
                        old(alloc).0,
                        final(alloc).0,
                        PAGE_SIZE_4K as int,
                        PAGE_SIZE_4K as int,
                        p.0 + PHYS_VIRT_OFFSET,
                    )
                    &&& p.0 as int % PAGE_SIZE_4K as int == 0
                    &&& p.0 + PHYS_VIRT_OFFSET <= usize::MAX
                    &&& final(alloc).0.used == old(alloc).0.used + PAGE_SIZE_4K
                    &&& span_allocated(final(alloc).0.segments@, p.0 + PHYS_VIRT_OFFSET, 1)
                },
                None => {
                    &&& *final(alloc) == *old(alloc)
                    &&& old(alloc).0.available() < PAGE_SIZE_4K
                },
            },
    {
        proof {
            assert((4096usize & 4095usize) == 0usize) by (bit_vector);
            assert(spec_is_pow2(PAGE_SIZE_4K));
        }
        let ghost pre = *alloc;
        match alloc.allocate(PAGE_SIZE_4K, PAGE_SIZE_4K) {
            Ok(va) => {
                proof {
                    let (k, i) = choose|k: int, i: int|
                        {
                            &&& 0 <= k < pre.0.segments@.len()
                            &&& #[trigger] crate::bitmap::fits_at(
                                pre.0.segments@[k],
                                i,
                                crate::bitmap::pages_needed(PAGE_SIZE_4K as int),
                                PAGE_SIZE_4K as int,
                            )
                            &&& va as int == pre.0.segments@[k].start + i * PAGE_SIZE_4K as int
                            &&& BitmapAllocator::marked_post(
                                pre.0,
                                alloc.0,
                                k,
                                i,
                                crate::bitmap::pages_needed(PAGE_SIZE_4K as int),
                                true,
                            )
                        };
                    assert(i * PAGE_SIZE_4K as int >= 0) by (nonlinear_arith)
                        requires
                            i >= 0,
                    ;
                    assert(va >= PHYS_VIRT_OFFSET);
                    vstd::arithmetic::div_mod::lemma_mod_multiples_vanish(
                        i,
                        pre.0.segments@[k].start as int,
                        PAGE_SIZE_4K as int,
                    );
                    assert(va as int % PAGE_SIZE_4K as int == 0);
                    crate::bitmap::lemma_alloc_enables_dealloc(
                        pre.0,
                        alloc.0,
                        PAGE_SIZE_4K as int,
                        PAGE_SIZE_4K as int,
                        va as int,
                    );
                    assert forall|k2: int| 0 <= k2 < alloc.0.segments@.len() implies (
                    #[trigger] alloc.0.segments@[k2]).start >= PHYS_VIRT_OFFSET by {
                        assert(alloc.0.segments@[k2].start == pre.0.segments@[k2].start);
                    }
                }
                Some(crate::addr::virt_to_phys(VirtAddr(va)))
            },
            Err(_) => {
                proof {
                    if pre.0.available() >= PAGE_SIZE_4K {
                        crate::bitmap::lemma_avail_page_can_fit(pre.0);
                        assert(false);
                    }
                }
                None
            },
        }
    }

    /// Returns exactly one previously allocated frame to the allocator.
    /// Handing back a frame that is not currently allocated is a caller
    /// contract violation, excluded by precondition.
    pub fn dealloc_frame(alloc: &mut VerifiedBitmapAllocator, paddr: PhysAddr)
        requires
            old(alloc).wf(),
            above_offset(old(alloc).0),
            paddr.0 + PHYS_VIRT_OFFSET <= usize::MAX,
            span_allocated(old(alloc).0.segments@, paddr.0 + PHYS_VIRT_OFFSET, 1),
        ensures
            final(alloc).wf(),
            above_offset(final(alloc).0),
            final(alloc).0.total == old(alloc).0.total,
            BitmapAllocator::dealloc_post(
                old(alloc).0,
                final(alloc).0,
                paddr.0 + PHYS_VIRT_OFFSET,
                1,
            ),
    {
        let va = crate::addr::phys_to_virt(paddr);
        alloc.dealloc(va.as_usize(), PAGE_SIZE_4K);
        proof {
            let pre = *old(alloc);
            let (k, i) = choose|k: int, i: int|
                {
                    &&& 0 <= k < pre.0.segments@.len()
                    &&& #[trigger] crate::bitmap::seg_span(
                        pre.0.segments@[k],
                        i,
                        1,
                        paddr.0 + PHYS_VIRT_OFFSET,
                    )
                    &&& BitmapAllocator::marked_post(pre.0, alloc.0, k, i, 1, false)
                };
            assert forall|k2: int| 0 <= k2 < alloc.0.segments@.len() implies (
            #[trigger] alloc.0.segments@[k2]).start >= PHYS_VIRT_OFFSET by {
                assert(alloc.0.segments@[k2].start == pre.0.segments@[k2].start);
            }
        }
    }

    /// Physical-to-virtual translation for the linearly mapped region.
    pub fn phys_to_virt(paddr: PhysAddr) -> (r: VirtAddr)
        requires
            paddr.0 + PHYS_VIRT_OFFSET <= usize::MAX,
        ensures
            r.0 == paddr.0 + PHYS_VIRT_OFFSET,
    {
        crate::addr::phys_to_virt(paddr)
    }
}

/// Slots per table node (nine virtual-address bits per level).
pub const ENTRIES_PER_NODE: usize = 512;

/// Hard ceiling on table nodes, so slot arithmetic stays in-range.
pub const MAX_NODES: usize = usize::MAX / 512;

/// One past the highest virtual address a four-level radix walk resolves.
pub open spec fn vaddr_limit() -> int {
    0x1_0000_0000_0000
}

/// Bytes covered by one slot at each level of the walk.
pub open spec fn level_span(level: int) -> int {
    if level == 0 {
        0x80_0000_0000
    } else if level == 1 {
        0x4000_0000
    } else if level == 2 {
        0x20_0000
    } else {
        0x1000
    }
}

/// Index slice of a virtual address for the given level.
pub open spec fn idx_of(v: int, level: int) -> int {
    (v / level_span(level)) % 512
}

/// All three parameters of a region request are page-granular.
pub open spec fn region_aligned(vaddr: int, paddr: int, size: int) -> bool {
    &&& vaddr % PAGE_SIZE_4K as int == 0
    &&& paddr % PAGE_SIZE_4K as int == 0
    &&& size % PAGE_SIZE_4K as int == 0
}

/// Offset, in pages, of the first page of a region request that the table
/// already resolves, scanning in the order `map_region` maps.
pub open spec fn first_premapped(pre: PageTable, vaddr: int, n: int) -> int
    decreases n,
{
    if n <= 0 {
        0
    } else if pre.lookup(vaddr) is Some {
        0
    } else {
        1 + first_premapped(pre, vaddr + PAGE_SIZE_4K as int, n - 1)
    }
}

proof fn lemma_first_premapped(pre: PageTable, vaddr: int, n: int, k: int)
    requires
        0 <= k < n,
        pre.lookup(vaddr + k * PAGE_SIZE_4K as int) is Some,
        forall|j: int|
            0 <= j < k ==> #[trigger] pre.lookup(vaddr + j * PAGE_SIZE_4K as int) is None,
    ensures
        first_premapped(pre, vaddr, n) == k,
    decreases n,
{
    if k == 0 {
    } else {
        assert(pre.lookup(vaddr + 0 * PAGE_SIZE_4K as int) is None);
        assert(pre.lookup(vaddr) is None);
        assert forall|j: int|
            0 <= j < k - 1 implies #[trigger] pre.lookup(
            (vaddr + PAGE_SIZE_4K as int) + j * PAGE_SIZE_4K as int,
        ) is None by {
            assert((vaddr + PAGE_SIZE_4K as int) + j * PAGE_SIZE_4K as int == vaddr + (j + 1)
                * PAGE_SIZE_4K as int) by (nonlinear_arith);
            assert(pre.lookup(vaddr + (j + 1) * PAGE_SIZE_4K as int) is None);
        }
        assert((vaddr + PAGE_SIZE_4K as int) + (k - 1) * PAGE_SIZE_4K as int == vaddr + k
            * PAGE_SIZE_4K as int) by (nonlinear_arith);
        lemma_first_premapped(pre, vaddr + PAGE_SIZE_4K as int, n - 1, k - 1);
    }
}

/// Distinct page offsets from a common base give distinct addresses.
proof fn lemma_page_offsets_distinct(vaddr: int, j1: int, j2: int)
    requires
        j1 != j2,
    ensures
        vaddr + j1 * PAGE_SIZE_4K as int != vaddr + j2 * PAGE_SIZE_4K as int,
{
    assert(j1 * PAGE_SIZE_4K as int != j2 * PAGE_SIZE_4K as int) by (nonlinear_arith)
        requires
            j1 != j2,
    ;
}

/// The first `m` pages of a region request resolve to their target frames
/// with the translated attributes.
pub open spec fn mapped_prefix(t: PageTable, vaddr: int, paddr: int, nf: NrPteFlags, m: int) -> bool {
    forall|j: int|
        0 <= j < m ==> #[trigger] t.lookup(vaddr + j * PAGE_SIZE_4K as int) == Some(
            (((paddr + j * PAGE_SIZE_4K as int) as usize), nf),
        )
}

/// None of the first `m` pages of a region request resolves.
pub open spec fn none_prefix(t: PageTable, vaddr: int, m: int) -> bool {
    forall|j: int|
        0 <= j < m ==> #[trigger] t.lookup(vaddr + j * PAGE_SIZE_4K as int) is None
}

/// One successful page step of `map_region` extends the mapped prefix by
/// one page and keeps everything else resolved as before.
proof fn lemma_region_step(
    pre: PageTable,
    cur: PageTable,
    post: PageTable,
    vaddr: int,
    paddr: int,
    nf: NrPteFlags,
    j: int,
    size: int,
)
    requires
        0 <= vaddr,
        vaddr % PAGE_SIZE_4K as int == 0,
        vaddr + size <= vaddr_limit(),
        0 <= paddr,
        paddr + size <= usize::MAX,
        0 <= j,
        (j + 1) * PAGE_SIZE_4K as int <= size,
        mapped_prefix(cur, vaddr, paddr, nf, j),
        none_prefix(pre, vaddr, j),
        PageTable::preserved_outside(pre, cur, vaddr, vaddr + j * PAGE_SIZE_4K as int),
        cur.lookup(vaddr + j * PAGE_SIZE_4K as int) is None,
        post.lookup(vaddr + j * PAGE_SIZE_4K as int) == Some(
            (((paddr + j * PAGE_SIZE_4K as int) as usize), nf),
        ),
        forall|v: int|
            0 <= v < vaddr_limit() && v % PAGE_SIZE_4K as int == 0 && v != vaddr + j
                * PAGE_SIZE_4K as int ==> #[trigger] post.lookup(v) == cur.lookup(v),
    ensures
        mapped_prefix(post, vaddr, paddr, nf, j + 1),
        none_prefix(pre, vaddr, j + 1),
        PageTable::preserved_outside(pre, post, vaddr, vaddr + (j + 1) * PAGE_SIZE_4K as int),
{
    assert((j + 1) * PAGE_SIZE_4K as int == j * PAGE_SIZE_4K as int + PAGE_SIZE_4K as int)
        by (nonlinear_arith);
    assert forall|jj: int| 0 <= jj < j + 1 implies #[trigger] post.lookup(
        vaddr + jj * PAGE_SIZE_4K as int,
    ) == Some((((paddr + jj * PAGE_SIZE_4K as int) as usize), nf)) by {
        assert(0 <= jj * PAGE_SIZE_4K as int <= j * PAGE_SIZE_4K as int) by (nonlinear_arith)
            requires
                0 <= jj <= j,
        ;
        vstd::arithmetic::div_mod::lemma_mod_multiples_vanish(jj, vaddr, PAGE_SIZE_4K as int);
        if jj < j {
            lemma_page_offsets_distinct(vaddr, jj, j);
            assert(post.lookup(vaddr + jj * PAGE_SIZE_4K as int) == cur.lookup(
                vaddr + jj * PAGE_SIZE_4K as int,
            ));
        }
    }
    assert forall|jj: int| 0 <= jj < j + 1 implies #[trigger] pre.lookup(
        vaddr + jj * PAGE_SIZE_4K as int,
    ) is None by {
        assert(0 <= jj * PAGE_SIZE_4K as int <= j * PAGE_SIZE_4K as int) by (nonlinear_arith)
            requires
                0 <= jj <= j,
        ;
        if jj == j {
            vstd::arithmetic::div_mod::lemma_mod_multiples_vanish(j, vaddr, PAGE_SIZE_4K as int);
            assert(pre.lookup(vaddr + j * PAGE_SIZE_4K as int) == cur.lookup(
                vaddr + j * PAGE_SIZE_4K as int,
            ));
        }
    }
    assert forall|v: int|
        0 <= v < vaddr_limit() && v % PAGE_SIZE_4K as int == 0 && !(vaddr <= v < vaddr + (j + 1)
            * PAGE_SIZE_4K as int) implies #[trigger] post.lookup(v) == pre.lookup(v) by {
        assert(v != vaddr + j * PAGE_SIZE_4K as int);
        assert(post.lookup(v) == cur.lookup(v));
        assert(cur.lookup(v) == pre.lookup(v));
    }
}

/// A failing page step of `map_region` changes no resolution at all, so the
/// prefix mapped so far and the untouched remainder both carry over.
proof fn lemma_region_stop(
    pre: PageTable,
    cur: PageTable,
    post: PageTable,
    vaddr: int,
    paddr: int,
    nf: NrPteFlags,
    j: int,
    size: int,
)
    requires
        0 <= vaddr,
        vaddr % PAGE_SIZE_4K as int == 0,
        vaddr + size <= vaddr_limit(),
        0 <= j,
        (j + 1) * PAGE_SIZE_4K as int <= size,
        mapped_prefix(cur, vaddr, paddr, nf, j),
        none_prefix(pre, vaddr, j),
        PageTable::preserved_outside(pre, cur, vaddr, vaddr + j * PAGE_SIZE_4K as int),
        forall|v: int| #[trigger] post.lookup(v) == cur.lookup(v),
    ensures
        mapped_prefix(post, vaddr, paddr, nf, j),
        PageTable::preserved_outside(pre, post, vaddr, vaddr + j * PAGE_SIZE_4K as int),
        post.lookup(vaddr + j * PAGE_SIZE_4K as int) == cur.lookup(
            vaddr + j * PAGE_SIZE_4K as int,
        ),
        pre.lookup(vaddr + j * PAGE_SIZE_4K as int) == cur.lookup(
            vaddr + j * PAGE_SIZE_4K as int,
        ),
{
    assert((j + 1) * PAGE_SIZE_4K as int == j * PAGE_SIZE_4K as int + PAGE_SIZE_4K as int)
        by (nonlinear_arith);
    assert forall|jj: int| 0 <= jj < j implies #[trigger] post.lookup(
        vaddr + jj * PAGE_SIZE_4K as int,
    ) == Some((((paddr + jj * PAGE_SIZE_4K as int) as usize), nf)) by {
        assert(0 <= jj * PAGE_SIZE_4K as int <= j * PAGE_SIZE_4K as int) by (nonlinear_arith)
            requires
                0 <= jj <= j,
        ;
        assert(post.lookup(vaddr + jj * PAGE_SIZE_4K as int) == cur.lookup(
            vaddr + jj * PAGE_SIZE_4K as int,
        ));
    }
    assert forall|v: int|
        0 <= v < vaddr_limit() && v % PAGE_SIZE_4K as int == 0 && !(vaddr <= v < vaddr + j
            * PAGE_SIZE_4K as int) implies #[trigger] post.lookup(v) == pre.lookup(v) by {
        assert(post.lookup(v) == cur.lookup(v));
        assert(cur.lookup(v) == pre.lookup(v));
    }
    vstd::arithmetic::div_mod::lemma_mod_multiples_vanish(j, vaddr, PAGE_SIZE_4K as int);
    assert(!((vaddr + j * PAGE_SIZE_4K as int) < vaddr + j * PAGE_SIZE_4K as int));
    assert(cur.lookup(vaddr + j * PAGE_SIZE_4K as int) == pre.lookup(
        vaddr + j * PAGE_SIZE_4K as int,
    ));
}

/// A page-aligned address below the limit is exactly its four index slices
/// reassembled.
proof fn lemma_vaddr_decompose(v: int)
    requires
        0 <= v < vaddr_limit(),
        v % 0x1000 == 0,
    ensures
        v == ((idx_of(v, 0) * 512 + idx_of(v, 1)) * 512 + idx_of(v, 2)) * 512 * 0x1000 + idx_of(
            v,
            3,
        ) * 0x1000,
{
    let a = v / 0x1000;
    let b = v / 0x20_0000;
    let c = v / 0x4000_0000;
    let d = v / 0x80_0000_0000;
    vstd::arithmetic::div_mod::lemma_fundamental_div_mod(v, 0x1000);
    vstd::arithmetic::div_mod::lemma_div_denominator(v, 0x1000, 512);
    vstd::arithmetic::div_mod::lemma_div_denominator(v, 0x20_0000, 512);
    vstd::arithmetic::div_mod::lemma_div_denominator(v, 0x4000_0000, 512);
    vstd::arithmetic::div_mod::lemma_fundamental_div_mod(a, 512);
    vstd::arithmetic::div_mod::lemma_fundamental_div_mod(b, 512);
    vstd::arithmetic::div_mod::lemma_fundamental_div_mod(c, 512);
    vstd::arithmetic::div_mod::lemma_fundamental_div_mod(v, 0x80_0000_0000);
    vstd::arithmetic::div_mod::lemma_mod_bound(v, 0x80_0000_0000);
    assert(0 <= d < 512);
    vstd::arithmetic::div_mod::lemma_mod_bound(a, 512);
    vstd::arithmetic::div_mod::lemma_mod_bound(b, 512);
    vstd::arithmetic::div_mod::lemma_mod_bound(c, 512);
    vstd::arithmetic::div_mod::lemma_small_mod(d as nat, 512nat);
    assert(idx_of(v, 0) == d && idx_of(v, 1) == c % 512 && idx_of(v, 2) == b % 512 && idx_of(v, 3)
        == a % 512);
}

/// Two page-aligned addresses below the limit with the same four index
/// slices are the same address.
proof fn lemma_vaddr_from_indices(v1: int, v2: int)
    requires
        0 <= v1 < vaddr_limit(),
        0 <= v2 < vaddr_limit(),
        v1 % PAGE_SIZE_4K as int == 0,
        v2 % PAGE_SIZE_4K as int == 0,
        idx_of(v1, 0) == idx_of(v2, 0),
        idx_of(v1, 1) == idx_of(v2, 1),
        idx_of(v1, 2) == idx_of(v2, 2),
        idx_of(v1, 3) == idx_of(v2, 3),
    ensures
        v1 == v2,
{
    lemma_vaddr_decompose(v1);
    lemma_vaddr_decompose(v2);
}

/// One slot of a table node.
#[derive(Clone, Copy, PartialEq, Eq, Structural, Debug)]
pub enum Entry {
    /// Nothing mapped under this slot.
    Empty,
    /// A child table node, by its index in the table's node pool.
    Table(usize),
    /// A page-granularity leaf mapping: target frame and attributes.
    Leaf(usize, NrPteFlags),
}

/// `e` is a table pointer to node `c`.
pub open spec fn points_to(e: Entry, c: int) -> bool {
    match e {
        Entry::Table(c2) => c2 == c,
        _ => false,
    }
}

/// A four-level radix page table. The table exclusively owns the chain of
/// node frames it allocates; node bookkeeping lives in the table value,
/// each node backed by one exclusively owned physical frame.
pub struct PageTable {
    /// Physical frame backing each node; node 0 is the root.
    pub node_paddrs: Vec<usize>,
    /// All nodes' slots, flattened: node `n` owns `[n * 512, n * 512 + 512)`.
    pub entries: Vec<Entry>,
    /// Depth of each node in the radix tree.
    pub levels: Ghost<Seq<int>>,
}

impl PageTable {
    pub open spec fn num_nodes(self) -> int {
        self.node_paddrs@.len() as int
    }

    pub open spec fn entry_at(self, n: int, j: int) -> Entry {
        self.entries@[n * 512 + j]
    }

    /// A slot is consistent with its node's depth: table pointers only
    /// above the leaf level, into a deeper existing node; leaves only at
    /// the leaf level.
    pub open spec fn entry_ok(self, n: int, j: int) -> bool {
        match self.entry_at(n, j) {
            Entry::Empty => true,
            Entry::Table(c) => {
                &&& self.levels@[n] < 3
                &&& 0 < c < self.num_nodes()
                &&& self.levels@[c as int] == self.levels@[n] + 1
            },
            Entry::Leaf(p, f) => self.levels@[n] == 3,
        }
    }

    /// Structural invariant: a rooted forest of depth-tagged nodes where
    /// every node except the root is pointed to by exactly one table slot.
    pub open spec fn wf(self) -> bool {
        &&& 1 <= self.num_nodes() <= MAX_NODES
        &&& self.entries@.len() == self.num_nodes() * 512
        &&& self.levels@.len() == self.num_nodes()
        &&& self.levels@[0] == 0
        &&& forall|n: int| 0 <= n < self.num_nodes() ==> 0 <= #[trigger] self.levels@[n] <= 3
        &&& forall|n: int, j: int|
            #![trigger self.entry_at(n, j)]
            0 <= n < self.num_nodes() && 0 <= j < 512 ==> self.entry_ok(n, j)
        &&& forall|n1: int, j1: int, n2: int, j2: int, c: int|
            #![trigger points_to(self.entry_at(n1, j1), c), points_to(self.entry_at(n2, j2), c)]
            0 <= n1 < self.num_nodes() && 0 <= j1 < 512 && 0 <= n2 < self.num_nodes() && 0 <= j2
                < 512 && points_to(self.entry_at(n1, j1), c) && points_to(
                self.entry_at(n2, j2),
                c,
            ) ==> n1 == n2 && j1 == j2
    }

    /// What the table maps a virtual address to: the result of the
    /// four-level walk from the root, or `None` where the walk runs into an
    /// empty slot.
    #[verifier::opaque]
    pub open spec fn lookup(self, v: int) -> Option<(usize, NrPteFlags)> {
        match self.entry_at(0, idx_of(v, 0)) {
            Entry::Table(n1) => match self.entry_at(n1 as int, idx_of(v, 1)) {
                Entry::Table(n2) => match self.entry_at(n2 as int, idx_of(v, 2)) {
                    Entry::Table(n3) => match self.entry_at(n3 as int, idx_of(v, 3)) {
                        Entry::Leaf(p, f) => Some((p, f)),
                        _ => None,
                    },
                    _ => None,
                },
                _ => None,
            },
            _ => None,
        }
    }

    /// All lookups of page-aligned addresses outside `[lo, hi)` agree
    /// between the two table states.
    pub open spec fn preserved_outside(pre: Self, post: Self, lo: int, hi: int) -> bool {
        forall|v: int|
            0 <= v < vaddr_limit() && v % PAGE_SIZE_4K as int == 0 && !(lo <= v < hi)
                ==> #[trigger] post.lookup(v) == pre.lookup(v)
    }

    /// Creates a table in its initial state: one root frame is taken from
    /// the allocator and zero-filled (every slot empty), so no address
    /// resolves yet. Fails with `NoMemory` exactly when the allocator is
    /// exhausted.
    pub fn try_new(alloc: &mut VerifiedBitmapAllocator) -> (r: Result<PageTable, PagingError>)
        requires
            old(alloc).wf(),
            above_offset(old(alloc).0),
        ensures
            final(alloc).wf(),
            above_offset(final(alloc).0),
            final(alloc).0.total == old(alloc).0.total,
            match r {
                Ok(t) => {
                    &&& t.wf()
                    &&& t.num_nodes() == 1
                    &&& forall|v: int| #[trigger] t.lookup(v) is None
                    &&& BitmapAllocator::alloc_post(
                        old(alloc).0,
                        final(alloc).0,
                        PAGE_SIZE_4K as int,
                        PAGE_SIZE_4K as int,
                        t.node_paddrs@[0] + PHYS_VIRT_OFFSET,
                    )
                    &&& final(alloc).0.used == old(alloc).0.used + PAGE_SIZE_4K
                },
                Err(e) => {
                    &&& e == PagingError::NoMemory
                    &&& *final(alloc) == *old(alloc)
                    &&& old(alloc).0.available() < PAGE_SIZE_4K
                },
            },
    {
        match PagingIfImpl::alloc_frame(alloc) {
            Some(p) => {
                let mut entries: Vec<Entry> = Vec::new();
                let mut j: usize = 0;
                while j < ENTRIES_PER_NODE
                    invariant
                        entries@.len() == j,
                        j <= 512,
                        forall|jj: int| 0 <= jj < j ==> entries@[jj] == Entry::Empty,
                    decreases 512 - j,
                {
                    entries.push(Entry::Empty);
                    j += 1;
                }
                let mut node_paddrs: Vec<usize> = Vec::new();
                node_paddrs.push(p.as_usize());
                let ghost lvls: Seq<int> = seq![0int];
                let t = PageTable { node_paddrs, entries, levels: Ghost(lvls) };
                proof {
                    assert(t.wf());
                    reveal(PageTable::lookup);
                    assert forall|v: int| #[trigger] t.lookup(v) is None by {
                        assert(0 <= idx_of(v, 0) < 512);
                        assert(t.entry_at(0, idx_of(v, 0)) == Entry::Empty);
                    }
                }
                Ok(t)
            },
            None => Err(PagingError::NoMemory),
        }
    }

    /// The physical address of the root table frame: the one value a caller
    /// needs to program a hardware table-base register.
    pub fn root_paddr(&self) -> (r: PhysAddr)
        requires
            self.wf(),
        ensures
            r.0 == self.node_paddrs@[0],
    {
        PhysAddr(self.node_paddrs[0])
    }

    /// Walks the table and returns the frame address and attributes that
    /// the virtual address resolves to, or `None` when nothing is mapped
    /// there.
    pub fn query(&self, vaddr: VirtAddr) -> (r: Option<(PhysAddr, NrPteFlags)>)
        requires
            self.wf(),
        ensures
            match r {
                Some(p) => self.lookup(vaddr.0 as int) == Some((p.0.0, p.1)),
                None => self.lookup(vaddr.0 as int) is None,
            },
    {
        proof {
            reveal(PageTable::lookup);
        }
        let v = vaddr.0 as u64;
        let i0 = ((v / 0x80_0000_0000u64) % 512) as usize;
        let i1 = ((v / 0x4000_0000u64) % 512) as usize;
        let i2 = ((v / 0x20_0000u64) % 512) as usize;
        let i3 = ((v / 0x1000u64) % 512) as usize;
        proof {
            assert(i0 as int == idx_of(vaddr.0 as int, 0));
            assert(i1 as int == idx_of(vaddr.0 as int, 1));
            assert(i2 as int == idx_of(vaddr.0 as int, 2));
            assert(i3 as int == idx_of(vaddr.0 as int, 3));
        }
        let e0 = self.slot(0, i0);
        let n1 = match e0 {
            Entry::Table(c) => c,
            _ => {
                return None;
            },
        };
        let e1 = self.slot(n1, i1);
        let n2 = match e1 {
            Entry::Table(c) => c,
            _ => {
                return None;
            },
        };
        let e2 = self.slot(n2, i2);
        let n3 = match e2 {
            Entry::Table(c) => c,
            _ => {
                return None;
            },
        };
        let e3 = self.slot(n3, i3);
        match e3 {
            Entry::Leaf(p, f) => Some((PhysAddr(p), f)),
            _ => None,
        }
    }

    /// Walk step: returns the child node under slot `j` of node `n`,
    /// creating it (backed by a freshly allocated, exclusively owned frame,
    /// with every slot empty) when the slot is empty. Creating a node never
    /// changes what any address resolves to.
    fn descend(&mut self, alloc: &mut VerifiedBitmapAllocator, n: usize, j: usize) -> (r: Result<
        usize,
        PagingError,
    >)
        requires
            old(self).wf(),
            old(alloc).wf(),
            above_offset(old(alloc).0),
            n < old(self).num_nodes(),
            j < 512,
            old(self).levels@[n as int] < 3,
        ensures
            final(alloc).wf(),
            above_offset(final(alloc).0),
            final(alloc).0.total == old(alloc).0.total,
            final(self).wf(),
            old(self).num_nodes() <= final(self).num_nodes() <= old(self).num_nodes() + 1,
            forall|n2: int|
                0 <= n2 < old(self).num_nodes() ==> final(self).levels@[n2] == old(
                    self,
                ).levels@[n2],
            match r {
                Ok(c) => {
                    &&& 1 <= c as int
                    &&& (c as int) < final(self).num_nodes()
                    &&& final(self).entry_at(n as int, j as int) == Entry::Table(c)
                    &&& final(self).levels@[c as int] == old(self).levels@[n as int] + 1
                    &&& forall|n2: int, j2: int|
                        0 <= n2 < old(self).num_nodes() && 0 <= j2 < 512 && !(n2 == n as int && j2
                            == j as int) ==> final(self).entry_at(n2, j2) == old(self).entry_at(
                            n2,
                            j2,
                        )
                    &&& old(alloc).0.used <= final(alloc).0.used <= old(alloc).0.used
                        + PAGE_SIZE_4K
                    &&& forall|v: int| #[trigger] final(self).lookup(v) == old(self).lookup(v)
                },
                Err(e) => {
                    &&& e == PagingError::NoMemory
                    &&& *final(self) == *old(self)
                    &&& *final(alloc) == *old(alloc)
                    &&& (old(alloc).0.available() < PAGE_SIZE_4K || old(self).num_nodes()
                        >= MAX_NODES)
                },
            },
    {
        let e = self.slot(n, j);
        match e {
            Entry::Table(c) => {
                proof {
                    assert(old(self).entry_ok(n as int, j as int));
                }
                Ok(c)
            },
            Entry::Leaf(_, _) => {
                proof {
                    assert(old(self).entry_ok(n as int, j as int));
                    assert(false);
                }
                vstd::pervasive::unreached()
            },
            Entry::Empty => {
                if self.node_paddrs.len() >= MAX_NODES {
                    return Err(PagingError::NoMemory);
                }
                match PagingIfImpl::alloc_frame(alloc) {
                    None => Err(PagingError::NoMemory),
                    Some(p) => {
                        let ghost pre = *self;
                        let c = self.node_paddrs.len();
                        let ghost lv = self.levels@[n as int];
                        self.node_paddrs.push(p.as_usize());
                        self.levels = Ghost(pre.levels@.push(lv + 1));
                        let mut jj: usize = 0;
                        while jj < ENTRIES_PER_NODE
                            invariant
                                jj <= 512,
                                self.node_paddrs@ == pre.node_paddrs@.push(p.0),
                                self.levels@ == pre.levels@.push(lv + 1),
                                self.entries@.len() == pre.entries@.len() + jj,
                                forall|x: int|
                                    0 <= x < pre.entries@.len() ==> self.entries@[x]
                                        == pre.entries@[x],
                                forall|x: int|
                                    pre.entries@.len() <= x < self.entries@.len()
                                        ==> self.entries@[x] == Entry::Empty,
                            decreases 512 - jj,
                        {
                            self.entries.push(Entry::Empty);
                            jj += 1;
                        }
                        proof {
                            assert(pre.entries@.len() == pre.num_nodes() * 512);
                            assert(n as int * 512 + j as int <= (pre.num_nodes() - 1) * 512
                                + 511);
                        }
                        self.entries.set(n * ENTRIES_PER_NODE + j, Entry::Table(c));
                        proof {
                            assert(self.entries@ =~= (pre.entries@ + Seq::new(
                                512nat,
                                |x: int| Entry::Empty,
                            )).update(n as int * 512 + j as int, Entry::Table(c)));
                            self.lemma_descend_created(pre, n as int, j as int, c as int, lv);
                        }
                        Ok(c)
                    },
                }
            },
        }
    }

    /// After a node is created under slot `(n, j)`: the table is still well
    /// formed, only that slot changed among the old ones, the new node is
    /// empty, and every lookup is unchanged.
    proof fn lemma_descend_created(self, pre: Self, n: int, j: int, c: int, lv: int)
        requires
            pre.wf(),
            0 <= n < pre.num_nodes(),
            0 <= j < 512,
            pre.levels@[n] == lv,
            lv < 3,
            pre.num_nodes() < MAX_NODES,
            pre.entry_at(n, j) == Entry::Empty,
            c == pre.num_nodes(),
            self.node_paddrs@.len() == pre.node_paddrs@.len() + 1,
            self.levels@ == pre.levels@.push(lv + 1),
            self.entries@ == (pre.entries@ + Seq::new(512nat, |x: int| Entry::Empty)).update(
                n * 512 + j,
                Entry::Table(c as usize),
            ),
        ensures
            self.wf(),
            self.num_nodes() == pre.num_nodes() + 1,
            self.entry_at(n, j) == Entry::Table(c as usize),
            self.levels@[c] == lv + 1,
            forall|n2: int, j2: int|
                0 <= n2 < pre.num_nodes() && 0 <= j2 < 512 && !(n2 == n && j2 == j)
                    ==> self.entry_at(n2, j2) == pre.entry_at(n2, j2),
            forall|j2: int| 0 <= j2 < 512 ==> self.entry_at(c, j2) == Entry::Empty,
            forall|v: int| #[trigger] self.lookup(v) == pre.lookup(v),
    {
        reveal(PageTable::lookup);
        let num = pre.num_nodes();
        assert(pre.entries@.len() == num * 512);
        assert(n * 512 + j < num * 512);
        assert(self.entries@ == (pre.entries@ + Seq::new(512nat, |x: int| Entry::Empty)).update(
            n * 512 + j,
            Entry::Table(c as usize),
        ));
        assert(self.entries@.len() == num * 512 + 512);
        assert(self.num_nodes() * 512 == (num + 1) * 512);
        assert((num + 1) * 512 == num * 512 + 512) by (nonlinear_arith);
        assert(self.entry_at(n, j) == Entry::Table(c as usize));
        assert forall|n2: int, j2: int|
            0 <= n2 < num && 0 <= j2 < 512 && !(n2 == n && j2 == j) implies self.entry_at(n2, j2)
            == pre.entry_at(n2, j2) by {
            assert(n2 * 512 <= (num - 1) * 512) by (nonlinear_arith)
                requires
                    n2 <= num - 1,
            ;
            assert((num - 1) * 512 == num * 512 - 512) by (nonlinear_arith);
            if n2 * 512 + j2 == n * 512 + j {
                assert(n2 == n && j2 == j) by (nonlinear_arith)
                    requires
                        n2 * 512 + j2 == n * 512 + j,
                        0 <= j2 < 512,
                        0 <= j < 512,
                ;
            }
        }
        assert forall|j2: int| 0 <= j2 < 512 implies self.entry_at(c, j2) == Entry::Empty by {
            assert(c * 512 + j2 >= num * 512) by (nonlinear_arith)
                requires
                    c == num,
                    j2 >= 0,
            ;
            assert(c * 512 + j2 < num * 512 + 512) by (nonlinear_arith)
                requires
                    c == num,
                    j2 < 512,
            ;
            assert(n * 512 + j < num * 512);
        }
        // well-formedness
        assert forall|n2: int, j2: int|
            #![trigger self.entry_at(n2, j2)]
            0 <= n2 < self.num_nodes() && 0 <= j2 < 512 implies self.entry_ok(n2, j2) by {
            if n2 == c {
                assert(self.entry_at(n2, j2) == Entry::Empty);
            } else {
                assert(pre.entry_ok(n2, j2));
                if n2 == n && j2 == j {
                    assert(self.levels@[n2] == lv);
                } else {
                    assert(self.entry_at(n2, j2) == pre.entry_at(n2, j2));
                    match pre.entry_at(n2, j2) {
                        Entry::Table(c2) => {
                            assert(self.levels@[c2 as int] == pre.levels@[c2 as int]);
                            assert(self.levels@[n2] == pre.levels@[n2]);
                        },
                        _ => {},
                    }
                }
            }
        }
        // where a table pointer can sit, and where it can point
        assert forall|n2: int, j2: int, cc: int|
            0 <= n2 < self.num_nodes() && 0 <= j2 < 512 && #[trigger] points_to(
                self.entry_at(n2, j2),
                cc,
            ) implies (if n2 == n && j2 == j {
            cc == c
        } else {
            &&& 0 <= n2 < num
            &&& points_to(pre.entry_at(n2, j2), cc)
            &&& 0 < cc < num
        }) by {
            if n2 == c {
                assert(self.entry_at(n2, j2) == Entry::Empty);
            } else if !(n2 == n && j2 == j) {
                assert(self.entry_at(n2, j2) == pre.entry_at(n2, j2));
                assert(pre.entry_ok(n2, j2));
            }
        }
        assert forall|n1: int, j1: int, n2: int, j2: int, cc: int|
            #![trigger points_to(self.entry_at(n1, j1), cc), points_to(self.entry_at(n2, j2), cc)]
            0 <= n1 < self.num_nodes() && 0 <= j1 < 512 && 0 <= n2 < self.num_nodes() && 0 <= j2
                < 512 && points_to(self.entry_at(n1, j1), cc) && points_to(
                self.entry_at(n2, j2),
                cc,
            ) implies n1 == n2 && j1 == j2 by {
            if n1 == n && j1 == j {
                if !(n2 == n && j2 == j) {
                    assert(cc == c && cc < num);
                    assert(false);
                }
            } else if n2 == n && j2 == j {
                assert(cc == c && cc < num);
                assert(false);
            } else {
                assert(points_to(pre.entry_at(n1, j1), cc));
                assert(points_to(pre.entry_at(n2, j2), cc));
            }
        }
        assert(self.wf());
        // lookups are unchanged: the new slot points at an all-empty node
        assert forall|v: int| #[trigger] self.lookup(v) == pre.lookup(v) by {
            let a0 = idx_of(v, 0);
            let a1 = idx_of(v, 1);
            let a2 = idx_of(v, 2);
            let a3 = idx_of(v, 3);
            assert(0 <= a0 < 512 && 0 <= a1 < 512 && 0 <= a2 < 512 && 0 <= a3 < 512);
            if n == 0 && a0 == j {
                assert(self.entry_at(c, a1) == Entry::Empty);
            } else {
                assert(self.entry_at(0, a0) == pre.entry_at(0, a0));
                match pre.entry_at(0, a0) {
                    Entry::Table(c1) => {
                        assert(pre.entry_ok(0, a0));
                        if c1 as int == n && a1 == j {
                            assert(self.entry_at(c, a2) == Entry::Empty);
                        } else {
                            assert(self.entry_at(c1 as int, a1) == pre.entry_at(c1 as int, a1));
                            match pre.entry_at(c1 as int, a1) {
                                Entry::Table(c2) => {
                                    assert(pre.entry_ok(c1 as int, a1));
                                    if c2 as int == n && a2 == j {
                                        assert(self.entry_at(c, a3) == Entry::Empty);
                                    } else {
                                        assert(self.entry_at(c2 as int, a2) == pre.entry_at(
                                            c2 as int,
                                            a2,
                                        ));
                                        match pre.entry_at(c2 as int, a2) {
                                            Entry::Table(c3) => {
                                                assert(pre.entry_ok(c2 as int, a2));
                                                if c3 as int == n && a3 == j {
                                                    assert(self.entry_at(c, 0) == Entry::Empty);
                                                } else {
                                                    assert(self.entry_at(c3 as int, a3)
                                                        == pre.entry_at(c3 as int, a3));
                                                }
                                            },
                                            _ => {},
                                        }
                                    }
                                },
                                _ => {},
                            }
                        }
                    },
                    _ => {},
                }
            }
        }
    }

    /// Maps one page: walks the table from the root, creating missing
    /// intermediate nodes from the frame supply, and fills the leaf slot.
    /// Fails with `AlreadyMapped` when the address already resolves and with
    /// `NoMemory` on frame exhaustion; on any failure no resolution changes.
    fn map_page(
        &mut self,
        alloc: &mut VerifiedBitmapAllocator,
        vaddr: usize,
        paddr: usize,
        flags: NrPteFlags,
    ) -> (r: Result<(), PagingError>)
        requires
            old(self).wf(),
            old(alloc).wf(),
            above_offset(old(alloc).0),
            vaddr as int % PAGE_SIZE_4K as int == 0,
            (vaddr as int) < vaddr_limit(),
        ensures
            final(self).wf(),
            final(alloc).wf(),
            above_offset(final(alloc).0),
            final(alloc).0.total == old(alloc).0.total,
            old(alloc).0.used <= final(alloc).0.used <= old(alloc).0.used + 3 * PAGE_SIZE_4K as int,
            old(self).num_nodes() <= final(self).num_nodes() <= old(self).num_nodes() + 3,
            match r {
                Ok(()) => {
                    &&& old(self).lookup(vaddr as int) is None
                    &&& final(self).lookup(vaddr as int) == Some((paddr, flags))
                    &&& forall|v: int|
                        0 <= v < vaddr_limit() && v % PAGE_SIZE_4K as int == 0 && v != vaddr as int
                            ==> #[trigger] final(self).lookup(v) == old(self).lookup(v)
                },
                Err(PagingError::AlreadyMapped) => {
                    &&& old(self).lookup(vaddr as int) is Some
                    &&& forall|v: int| #[trigger] final(self).lookup(v) == old(self).lookup(v)
                },
                Err(PagingError::NoMemory) => {
                    &&& forall|v: int| #[trigger] final(self).lookup(v) == old(self).lookup(v)
                    &&& (old(alloc).0.available() < 3 * PAGE_SIZE_4K as int || old(
                        self,
                    ).num_nodes() + 3 > MAX_NODES as int)
                },
                Err(PagingError::NotAligned) => false,
            },
    {
        let v64 = vaddr as u64;
        let i0 = ((v64 / 0x80_0000_0000u64) % 512) as usize;
        let i1 = ((v64 / 0x4000_0000u64) % 512) as usize;
        let i2 = ((v64 / 0x20_0000u64) % 512) as usize;
        let i3 = ((v64 / 0x1000u64) % 512) as usize;
        proof {
            assert(i0 as int == idx_of(vaddr as int, 0));
            assert(i1 as int == idx_of(vaddr as int, 1));
            assert(i2 as int == idx_of(vaddr as int, 2));
            assert(i3 as int == idx_of(vaddr as int, 3));
        }
        let ghost s0 = *self;
        let n1 = match self.descend(alloc, 0, i0) {
            Ok(c) => c,
            Err(e) => {
                return Err(e);
            },
        };
        let ghost s1 = *self;
        let n2 = match self.descend(alloc, n1, i1) {
            Ok(c) => c,
            Err(e) => {
                return Err(e);
            },
        };
        let ghost s2 = *self;
        let n3 = match self.descend(alloc, n2, i2) {
            Ok(c) => c,
            Err(e) => {
                return Err(e);
            },
        };
        let ghost s3 = *self;
        proof {
            reveal(PageTable::lookup);
            assert(s3.entry_at(0, i0 as int) == Entry::Table(n1));
            assert(s3.entry_at(n1 as int, i1 as int) == Entry::Table(n2));
            assert(s3.levels@[n1 as int] == 1 && s3.levels@[n2 as int] == 2 && s3.levels@[n3 as int]
                == 3);
        }
        let e = self.slot(n3, i3);
        match e {
            Entry::Leaf(_, _) => {
                proof {
                    reveal(PageTable::lookup);
                    assert(s3.lookup(vaddr as int) is Some);
                }
                Err(PagingError::AlreadyMapped)
            },
            Entry::Table(_) => {
                proof {
                    assert(s3.entry_ok(n3 as int, i3 as int));
                    assert(false);
                }
                vstd::pervasive::unreached()
            },
            Entry::Empty => {
                proof {
                    assert((n3 as int * 512 + i3 as int) < s3.num_nodes() * 512)
                        by (nonlinear_arith)
                        requires
                            (n3 as int) < s3.num_nodes(),
                            0 <= i3 < 512,
                            0 <= n3,
                    ;
                }
                self.entries.set(n3 * ENTRIES_PER_NODE + i3, Entry::Leaf(paddr, flags));
                proof {
                    self.lemma_leaf_set(
                        s3,
                        vaddr as int,
                        paddr,
                        flags,
                        n1 as int,
                        n2 as int,
                        n3 as int,
                        i0 as int,
                        i1 as int,
                        i2 as int,
                        i3 as int,
                    );
                }
                Ok(())
            },
        }
    }

    /// After the leaf slot for `vaddr` is filled: the table is still well
    /// formed, `vaddr` now resolves to the new frame, and, because every
    /// node is pointed to by exactly one table slot, no other page-aligned
    /// address changes what it resolves to.
    proof fn lemma_leaf_set(
        self,
        pre: Self,
        vaddr: int,
        paddr: usize,
        flags: NrPteFlags,
        n1: int,
        n2: int,
        n3: int,
        i0: int,
        i1: int,
        i2: int,
        i3: int,
    )
        requires
            pre.wf(),
            0 <= vaddr < vaddr_limit(),
            vaddr % PAGE_SIZE_4K as int == 0,
            i0 == idx_of(vaddr, 0),
            i1 == idx_of(vaddr, 1),
            i2 == idx_of(vaddr, 2),
            i3 == idx_of(vaddr, 3),
            0 < n1 < pre.num_nodes(),
            0 < n2 < pre.num_nodes(),
            0 < n3 < pre.num_nodes(),
            pre.entry_at(0, i0) == Entry::Table(n1 as usize),
            pre.entry_at(n1, i1) == Entry::Table(n2 as usize),
            pre.entry_at(n2, i2) == Entry::Table(n3 as usize),
            pre.entry_at(n3, i3) == Entry::Empty,
            pre.levels@[n1] == 1,
            pre.levels@[n2] == 2,
            pre.levels@[n3] == 3,
            self.node_paddrs@ == pre.node_paddrs@,
            self.levels@ == pre.levels@,
            self.entries@ == pre.entries@.update(n3 * 512 + i3, Entry::Leaf(paddr, flags)),
        ensures
            self.wf(),
            pre.lookup(vaddr) is None,
            self.lookup(vaddr) == Some((paddr, flags)),
            forall|v: int|
                0 <= v < vaddr_limit() && v % PAGE_SIZE_4K as int == 0 && v != vaddr
                    ==> #[trigger] self.lookup(v) == pre.lookup(v),
    {
        reveal(PageTable::lookup);
        let num = pre.num_nodes();
        assert(0 <= i0 < 512 && 0 <= i1 < 512 && 0 <= i2 < 512 && 0 <= i3 < 512);
        assert forall|x: int, y: int|
            0 <= x < num && 0 <= y < 512 && !(x == n3 && y == i3) implies self.entry_at(x, y)
            == pre.entry_at(x, y) by {
            assert(x * 512 + y < num * 512) by (nonlinear_arith)
                requires
                    0 <= x < num,
                    0 <= y < 512,
            ;
            if x * 512 + y == n3 * 512 + i3 {
                assert(x == n3 && y == i3) by (nonlinear_arith)
                    requires
                        x * 512 + y == n3 * 512 + i3,
                        0 <= y < 512,
                        0 <= i3 < 512,
                ;
            }
        }
        assert(self.entry_at(n3, i3) == Entry::Leaf(paddr, flags));
        // well-formedness
        assert forall|x: int, y: int|
            #![trigger self.entry_at(x, y)]
            0 <= x < self.num_nodes() && 0 <= y < 512 implies self.entry_ok(x, y) by {
            assert(pre.entry_ok(x, y));
            if !(x == n3 && y == i3) {
                assert(self.entry_at(x, y) == pre.entry_at(x, y));
            }
        }
        assert forall|m1: int, k1: int, m2: int, k2: int, cc: int|
            #![trigger points_to(self.entry_at(m1, k1), cc), points_to(self.entry_at(m2, k2), cc)]
            0 <= m1 < self.num_nodes() && 0 <= k1 < 512 && 0 <= m2 < self.num_nodes() && 0 <= k2
                < 512 && points_to(self.entry_at(m1, k1), cc) && points_to(
                self.entry_at(m2, k2),
                cc,
            ) implies m1 == m2 && k1 == k2 by {
            assert(!(m1 == n3 && k1 == i3) && !(m2 == n3 && k2 == i3));
            assert(points_to(pre.entry_at(m1, k1), cc));
            assert(points_to(pre.entry_at(m2, k2), cc));
        }
        assert(self.wf());
        // the walk of `vaddr` in both states
        assert(n3 != 0 && n1 != n3 && n2 != n3);
        assert(self.entry_at(0, i0) == Entry::Table(n1 as usize));
        assert(self.entry_at(n1, i1) == Entry::Table(n2 as usize));
        assert(self.entry_at(n2, i2) == Entry::Table(n3 as usize));
        assert(pre.lookup(vaddr) is None);
        assert(self.lookup(vaddr) == Some((paddr, flags)));
        // every other page-aligned address still walks past unchanged slots
        assert forall|v: int|
            0 <= v < vaddr_limit() && v % PAGE_SIZE_4K as int == 0 && v != vaddr implies
            #[trigger] self.lookup(v) == pre.lookup(v) by {
            let b0 = idx_of(v, 0);
            let b1 = idx_of(v, 1);
            let b2 = idx_of(v, 2);
            let b3 = idx_of(v, 3);
            assert(0 <= b0 < 512 && 0 <= b1 < 512 && 0 <= b2 < 512 && 0 <= b3 < 512);
            assert(self.entry_at(0, b0) == pre.entry_at(0, b0));
            match pre.entry_at(0, b0) {
                Entry::Table(d1) => {
                    assert(pre.entry_ok(0, b0));
                    assert(self.entry_at(d1 as int, b1) == pre.entry_at(d1 as int, b1));
                    match pre.entry_at(d1 as int, b1) {
                        Entry::Table(d2) => {
                            assert(pre.entry_ok(d1 as int, b1));
                            assert(self.entry_at(d2 as int, b2) == pre.entry_at(d2 as int, b2));
                            match pre.entry_at(d2 as int, b2) {
                                Entry::Table(d3) => {
                                    assert(pre.entry_ok(d2 as int, b2));
                                    if d3 as int == n3 && b3 == i3 {
                                        assert(points_to(pre.entry_at(d2 as int, b2), n3));
                                        assert(points_to(pre.entry_at(n2, i2), n3));
                                        assert(d2 as int == n2 && b2 == i2);
                                        assert(points_to(pre.entry_at(d1 as int, b1), n2));
                                        assert(points_to(pre.entry_at(n1, i1), n2));
                                        assert(d1 as int == n1 && b1 == i1);
                                        assert(points_to(pre.entry_at(0, b0), n1));
                                        assert(points_to(pre.entry_at(0, i0), n1));
                                        assert(b0 == i0);
                                        lemma_vaddr_from_indices(v, vaddr);
                                        assert(false);
                                    } else {
                                        assert(self.entry_at(d3 as int, b3) == pre.entry_at(
                                            d3 as int,
                                            b3,
                                        ));
                                    }
                                },
                                _ => {},
                            }
                        },
                        _ => {},
                    }
                },
                _ => {},
            }
        }
    }

    /// Maps the byte region `[vaddr, vaddr + size)` onto
    /// `[paddr, paddr + size)` with the given permissions, page by page in
    /// ascending order, translating the portable flags once and sourcing
    /// intermediate table frames from the allocator. `allow_huge` is a hint
    /// only: this backend always maps at base page granularity, which the
    /// contract permits.
    ///
    /// All three of `vaddr`, `paddr` and `size` must be page-granular, or
    /// `NotAligned` comes back before anything changes. Pages mapped before
    /// a failing page are not rolled back: the contract states exactly
    /// which prefix is mapped.
    #[verifier::rlimit(100)]
    pub fn map_region(
        &mut self,
        alloc: &mut VerifiedBitmapAllocator,
        vaddr: VirtAddr,
        paddr: PhysAddr,
        size: usize,
        flags: MappingFlags,
        _allow_huge: bool,
    ) -> (r: Result<(), PagingError>)
        requires
            old(self).wf(),
            old(alloc).wf(),
            above_offset(old(alloc).0),
            vaddr.0 + size <= vaddr_limit(),
            vaddr.0 + size <= usize::MAX,
            paddr.0 + size <= usize::MAX,
        ensures
            final(self).wf(),
            final(alloc).wf(),
            above_offset(final(alloc).0),
            final(alloc).0.total == old(alloc).0.total,
            ({
                let n = size as int / PAGE_SIZE_4K as int;
                let nf = spec_nr_flags(flags);
                let pre = *old(self);
                let post = *final(self);
                let aligned = region_aligned(vaddr.0 as int, paddr.0 as int, size as int);
                match r {
                    Ok(()) => {
                        &&& aligned
                        &&& mapped_prefix(post, vaddr.0 as int, paddr.0 as int, nf, n)
                        &&& Self::preserved_outside(pre, post, vaddr.0 as int, vaddr.0 + size)
                    },
                    Err(PagingError::NotAligned) => {
                        &&& !aligned
                        &&& post == pre
                        &&& *final(alloc) == *old(alloc)
                    },
                    Err(PagingError::AlreadyMapped) => {
                        &&& aligned
                        &&& ({
                            let k = first_premapped(pre, vaddr.0 as int, n);
                            &&& 0 <= k < n
                            &&& pre.lookup(vaddr.0 + k * PAGE_SIZE_4K as int) is Some
                            &&& mapped_prefix(post, vaddr.0 as int, paddr.0 as int, nf, k)
                            &&& Self::preserved_outside(
                                pre,
                                post,
                                vaddr.0 as int,
                                vaddr.0 + k * PAGE_SIZE_4K as int,
                            )
                        })
                    },
                    Err(PagingError::NoMemory) => {
                        &&& aligned
                        &&& exists|m: int|
                            {
                                &&& 0 <= m <= n
                                &&& #[trigger] mapped_prefix(
                                    post,
                                    vaddr.0 as int,
                                    paddr.0 as int,
                                    nf,
                                    m,
                                )
                                &&& Self::preserved_outside(
                                    pre,
                                    post,
                                    vaddr.0 as int,
                                    vaddr.0 + m * PAGE_SIZE_4K as int,
                                )
                            }
                    },
                }
            }),
            (region_aligned(vaddr.0 as int, paddr.0 as int, size as int) && none_prefix(
                *old(self),
                vaddr.0 as int,
                size as int / PAGE_SIZE_4K as int,
            ) && old(alloc).0.available() >= 3 * PAGE_SIZE_4K as int * (
            size as int / PAGE_SIZE_4K as int) && old(self).num_nodes() + 3 * (
            size as int / PAGE_SIZE_4K as int) <= MAX_NODES as int) ==> r == Ok::<
                (),
                PagingError,
            >(()),
    {
        let va = vaddr.as_usize();
        let pa = paddr.as_usize();
        proof {
            assert((4096usize & 4095usize) == 0usize) by (bit_vector);
            assert(spec_is_pow2(PAGE_SIZE_4K));
        }
        if !memory_addr::is_aligned(va, PAGE_SIZE_4K) || !memory_addr::is_aligned(
            pa,
            PAGE_SIZE_4K,
        ) || !memory_addr::is_aligned(size, PAGE_SIZE_4K) {
            return Err(PagingError::NotAligned);
        }
        let nf = mapping_to_nr_flags(flags);
        let n = size / PAGE_SIZE_4K;
        proof {
            vstd::arithmetic::div_mod::lemma_fundamental_div_mod(size as int, PAGE_SIZE_4K as int);
        }
        let ghost pre = *self;
        let ghost pre_alloc = *alloc;
        let ghost owed = none_prefix(pre, vaddr.0 as int, n as int) && pre_alloc.0.available()
            >= 3 * PAGE_SIZE_4K as int * n as int && pre.num_nodes() + 3 * n as int
            <= MAX_NODES as int;
        let mut j: usize = 0;
        while j < n
            invariant
                j <= n,
                n as int * PAGE_SIZE_4K as int == size as int,
                va == vaddr.0,
                pa == paddr.0,
                vaddr.0 + size <= vaddr_limit(),
                vaddr.0 + size <= usize::MAX,
                paddr.0 + size <= usize::MAX,
                vaddr.0 as int % PAGE_SIZE_4K as int == 0,
                paddr.0 as int % PAGE_SIZE_4K as int == 0,
                size as int % PAGE_SIZE_4K as int == 0,
                n as int == size as int / PAGE_SIZE_4K as int,
                nf == spec_nr_flags(flags),
                self.wf(),
                alloc.wf(),
                above_offset(alloc.0),
                alloc.0.total == pre_alloc.0.total,
                pre == *old(self),
                pre_alloc == *old(alloc),
                pre.wf(),
                owed == (none_prefix(pre, vaddr.0 as int, n as int) && pre_alloc.0.available()
                    >= 3 * PAGE_SIZE_4K as int * n as int && pre.num_nodes() + 3 * n as int
                    <= MAX_NODES as int),
                mapped_prefix(*self, vaddr.0 as int, paddr.0 as int, nf, j as int),
                none_prefix(pre, vaddr.0 as int, j as int),
                Self::preserved_outside(pre, *self, vaddr.0 as int, vaddr.0 + j
                    * PAGE_SIZE_4K as int),
                owed ==> alloc.0.available() >= 3 * PAGE_SIZE_4K as int * (n - j)
                    && self.num_nodes() + 3 * (n - j) <= MAX_NODES as int,
            decreases n - j,
        {
            proof {
                assert(j as int * PAGE_SIZE_4K as int + PAGE_SIZE_4K as int <= n as int
                    * PAGE_SIZE_4K as int) by (nonlinear_arith)
                    requires
                        (j as int) < n as int,
                ;
                vstd::arithmetic::div_mod::lemma_mod_multiples_vanish(
                    j as int,
                    vaddr.0 as int,
                    PAGE_SIZE_4K as int,
                );
            }
            let cur_v = va + j * PAGE_SIZE_4K;
            let cur_p = pa + j * PAGE_SIZE_4K;
            let ghost loop_self = *self;
            match self.map_page(alloc, cur_v, cur_p, nf) {
                Ok(()) => {
                    proof {
                        lemma_region_step(
                            pre,
                            loop_self,
                            *self,
                            vaddr.0 as int,
                            paddr.0 as int,
                            nf,
                            j as int,
                            size as int,
                        );
                    }
                },
                Err(e) => {
                    proof {
                        lemma_region_stop(
                            pre,
                            loop_self,
                            *self,
                            vaddr.0 as int,
                            paddr.0 as int,
                            nf,
                            j as int,
                            size as int,
                        );
                        if e == PagingError::AlreadyMapped {
                            assert(loop_self.lookup(vaddr.0 + j * PAGE_SIZE_4K as int) is Some);
                            assert(pre.lookup(vaddr.0 + j * PAGE_SIZE_4K as int) is Some);
                            lemma_first_premapped(pre, vaddr.0 as int, n as int, j as int);
                        }
                        if owed {
                            assert(pre.lookup(vaddr.0 + j * PAGE_SIZE_4K as int) is None);
                            assert(false);
                        }
                        if e == PagingError::NoMemory {
                            assert(0 <= j as int <= n as int && mapped_prefix(
                                *self,
                                vaddr.0 as int,
                                paddr.0 as int,
                                nf,
                                j as int,
                            ) && Self::preserved_outside(
                                pre,
                                *self,
                                vaddr.0 as int,
                                vaddr.0 + j as int * PAGE_SIZE_4K as int,
                            ));
                        }
                    }
                    return Err(e);
                },
            }
            j += 1;
        }
        Ok(())
    }

    /// Reads one slot of one node.
    fn slot(&self, n: usize, j: usize) -> (r: Entry)
        requires
            self.wf(),
            n < self.num_nodes(),
            j < 512,
        ensures
            r == self.entry_at(n as int, j as int),
    {
        proof {
            assert(n as int * 512 + j < self.num_nodes() * 512);
        }
        self.entries[n * ENTRIES_PER_NODE + j]
    }
}

} // verus!
