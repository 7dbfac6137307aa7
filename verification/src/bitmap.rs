//! Allocator core: a bitmap-indexed free-space tracker over a set of
//! disjoint, page-granularity physical address ranges. Each tracked range
//! keeps one mark per page; allocation finds a free, sufficiently large,
//! correctly aligned run of pages and marks it used.

use crate::addr::PAGE_SIZE_4K;
use vstd::prelude::*;

verus! {

/// Error signals of the allocator core.
#[derive(Clone, Copy, PartialEq, Eq, Structural, Debug)]
pub enum AllocError {
    /// Malformed size, alignment or range.
    InvalidParam,
    /// The range overlaps memory that is already tracked.
    MemoryOverlap,
    /// No sufficiently large free region exists.
    NoMemory,
}

/// One tracked range: a page-aligned start address and one used-mark per
/// page of the range.
pub struct Segment {
    pub start: usize,
    pub used: Vec<bool>,
}

/// Number of marks set in a bitmap.
pub open spec fn count_used(s: Seq<bool>) -> int
    decreases s.len(),
{
    if s.len() == 0 {
        0
    } else {
        count_used(s.drop_last()) + if s.last() {
            1int
        } else {
            0int
        }
    }
}

impl Segment {
    /// Length of the range in bytes.
    pub open spec fn size_bytes(self) -> int {
        self.used@.len() * PAGE_SIZE_4K as int
    }

    /// One past the last byte of the range.
    pub open spec fn end(self) -> int {
        self.start + self.size_bytes()
    }

    pub open spec fn wf(self) -> bool {
        &&& self.start as int % PAGE_SIZE_4K as int == 0
        &&& self.used@.len() >= 1
        &&& self.end() <= usize::MAX as int
    }
}

/// Two segments cover disjoint address ranges.
pub open spec fn seg_disjoint(a: Segment, b: Segment) -> bool {
    a.end() <= b.start || b.end() <= a.start
}

/// The segment's range intersects `[start, start + size)`.
pub open spec fn overlaps(seg: Segment, start: int, size: int) -> bool {
    start < seg.end() && seg.start < start + size
}

/// Some tracked range intersects `[start, start + size)`.
pub open spec fn overlaps_any(segs: Seq<Segment>, start: int, size: int) -> bool {
    exists|k: int| 0 <= k < segs.len() && overlaps(#[trigger] segs[k], start, size)
}

/// A well-formed range argument: non-empty, page-granular, and not
/// overflowing the address width.
pub open spec fn valid_range(start: int, size: int) -> bool {
    &&& size > 0
    &&& start % PAGE_SIZE_4K as int == 0
    &&& size % PAGE_SIZE_4K as int == 0
    &&& start + size <= usize::MAX as int
}

/// Total bytes tracked by the segments.
pub open spec fn sum_total(segs: Seq<Segment>) -> int
    decreases segs.len(),
{
    if segs.len() == 0 {
        0
    } else {
        sum_total(segs.drop_last()) + segs.last().size_bytes()
    }
}

/// Total bytes currently marked used in the segments.
pub open spec fn sum_used(segs: Seq<Segment>) -> int
    decreases segs.len(),
{
    if segs.len() == 0 {
        0
    } else {
        sum_used(segs.drop_last()) + count_used(segs.last().used@) * PAGE_SIZE_4K as int
    }
}

pub proof fn lemma_count_bounds(s: Seq<bool>)
    ensures
        0 <= count_used(s) <= s.len(),
    decreases s.len(),
{
    if s.len() > 0 {
        lemma_count_bounds(s.drop_last());
    }
}

pub proof fn lemma_count_update(s: Seq<bool>, i: int, b: bool)
    requires
        0 <= i < s.len(),
    ensures
        count_used(s.update(i, b)) == count_used(s) - (if s[i] {
            1int
        } else {
            0int
        }) + (if b {
            1int
        } else {
            0int
        }),
    decreases s.len(),
{
    let t = s.update(i, b);
    if i == s.len() - 1 {
        assert(t.drop_last() =~= s.drop_last());
    } else {
        assert(t.drop_last() =~= s.drop_last().update(i, b));
        lemma_count_update(s.drop_last(), i, b);
        assert(t.last() == s.last());
    }
}

pub proof fn lemma_sum_used_le_total(segs: Seq<Segment>)
    ensures
        0 <= sum_used(segs) <= sum_total(segs),
    decreases segs.len(),
{
    if segs.len() > 0 {
        lemma_sum_used_le_total(segs.drop_last());
        lemma_count_bounds(segs.last().used@);
        assert(count_used(segs.last().used@) * PAGE_SIZE_4K as int <= segs.last().used@.len()
            * PAGE_SIZE_4K as int) by (nonlinear_arith)
            requires
                count_used(segs.last().used@) <= segs.last().used@.len(),
        ;
        assert(count_used(segs.last().used@) * PAGE_SIZE_4K as int >= 0) by (nonlinear_arith)
            requires
                count_used(segs.last().used@) >= 0,
        ;
    }
}

pub proof fn lemma_sum_push(segs: Seq<Segment>, seg: Segment)
    ensures
        sum_total(segs.push(seg)) == sum_total(segs) + seg.size_bytes(),
        sum_used(segs.push(seg)) == sum_used(segs) + count_used(seg.used@) * PAGE_SIZE_4K as int,
{
    assert(segs.push(seg).drop_last() =~= segs);
    assert(segs.push(seg).last() == seg);
}

pub proof fn lemma_sum_update(segs: Seq<Segment>, k: int, seg: Segment)
    requires
        0 <= k < segs.len(),
    ensures
        sum_total(segs.update(k, seg)) == sum_total(segs) - segs[k].size_bytes()
            + seg.size_bytes(),
        sum_used(segs.update(k, seg)) == sum_used(segs) - count_used(segs[k].used@)
            * PAGE_SIZE_4K as int + count_used(seg.used@) * PAGE_SIZE_4K as int,
    decreases segs.len(),
{
    let t = segs.update(k, seg);
    if k == segs.len() - 1 {
        assert(t.drop_last() =~= segs.drop_last());
    } else {
        assert(t.drop_last() =~= segs.drop_last().update(k, seg));
        lemma_sum_update(segs.drop_last(), k, seg);
        assert(t.last() == segs.last());
    }
}

/// `align` is a power of two. Written as the machine test so that the
/// executable check is the definition itself.
pub open spec fn spec_is_pow2(a: usize) -> bool {
    a != 0 && (a & (a - 1) as usize) == 0
}

/// Pages needed to hold `size` bytes: `size` rounded up to page granularity.
pub open spec fn pages_needed(size: int) -> int {
    size / PAGE_SIZE_4K as int + if size % PAGE_SIZE_4K as int == 0 {
        0int
    } else {
        1int
    }
}

/// A run of `need` free pages starts at page `i` of the segment and its
/// address is a multiple of `align`.
pub open spec fn fits_at(seg: Segment, i: int, need: int, align: int) -> bool {
    &&& 0 <= i
    &&& i + need <= seg.used@.len()
    &&& (seg.start + i * PAGE_SIZE_4K as int) % align == 0
    &&& forall|j: int| i <= j < i + need ==> !(#[trigger] seg.used@[j])
}

/// Some tracked segment can satisfy the request.
pub open spec fn can_fit(segs: Seq<Segment>, need: int, align: int) -> bool {
    exists|k: int, i: int|
        0 <= k < segs.len() && #[trigger] fits_at(segs[k], i, need, align)
}

/// Pages `[i, i + n)` of the segment exist and their first byte is `addr`.
pub open spec fn seg_span(seg: Segment, i: int, n: int, addr: int) -> bool {
    &&& 0 <= i
    &&& i + n <= seg.used@.len()
    &&& addr == seg.start + i * PAGE_SIZE_4K as int
}

/// The `n` pages starting at byte address `addr` are tracked and all
/// currently marked used.
pub open spec fn span_allocated(segs: Seq<Segment>, addr: int, n: int) -> bool {
    exists|k: int, i: int|
        {
            &&& 0 <= k < segs.len()
            &&& #[trigger] seg_span(segs[k], i, n, addr)
            &&& forall|j: int| i <= j < i + n ==> (#[trigger] segs[k].used@[j])
        }
}

/// A bitmap with a free run of `n` pages has at least `n` marks clear.
proof fn lemma_count_free_run(s: Seq<bool>, i: int, n: int)
    requires
        0 <= i,
        0 <= n,
        i + n <= s.len(),
        forall|j: int| i <= j < i + n ==> !(#[trigger] s[j]),
    ensures
        count_used(s) <= s.len() - n,
    decreases n,
{
    if n == 0 {
        lemma_count_bounds(s);
    } else {
        let t = s.update(i + n - 1, true);
        lemma_count_update(s, i + n - 1, true);
        lemma_count_free_run(t, i, n - 1);
    }
}

/// Lifts the per-segment slack of `lemma_count_free_run` to the totals.
proof fn lemma_sum_used_gap(segs: Seq<Segment>, k: int, gap: int)
    requires
        0 <= k < segs.len(),
        0 <= gap,
        count_used(segs[k].used@) <= segs[k].used@.len() - gap,
    ensures
        sum_used(segs) <= sum_total(segs) - gap * PAGE_SIZE_4K as int,
    decreases segs.len(),
{
    lemma_sum_used_le_total(segs.drop_last());
    lemma_count_bounds(segs.last().used@);
    if k == segs.len() - 1 {
        assert(count_used(segs.last().used@) * PAGE_SIZE_4K as int <= (segs.last().used@.len()
            - gap) * PAGE_SIZE_4K as int) by (nonlinear_arith)
            requires
                count_used(segs.last().used@) <= segs.last().used@.len() - gap,
        ;
        assert((segs.last().used@.len() - gap) * PAGE_SIZE_4K as int == segs.last().used@.len()
            * PAGE_SIZE_4K as int - gap * PAGE_SIZE_4K as int) by (nonlinear_arith);
    } else {
        lemma_sum_used_gap(segs.drop_last(), k, gap);
        assert(segs.drop_last()[k] == segs[k]);
        assert(count_used(segs.last().used@) * PAGE_SIZE_4K as int <= segs.last().used@.len()
            * PAGE_SIZE_4K as int) by (nonlinear_arith)
            requires
                count_used(segs.last().used@) <= segs.last().used@.len(),
        ;
    }
}

/// Exhaustion law: a request for more bytes than are available cannot fit,
/// whatever the alignment.
pub proof fn lemma_exhaustion(a: BitmapAllocator, size: int, align: int)
    requires
        a.wf(),
        size > a.available(),
    ensures
        !can_fit(a.segments@, pages_needed(size), align),
{
    if can_fit(a.segments@, pages_needed(size), align) {
        let need = pages_needed(size);
        lemma_sum_used_le_total(a.segments@);
        vstd::arithmetic::div_mod::lemma_fundamental_div_mod(size, PAGE_SIZE_4K as int);
        assert(need >= 1);
        let (k, i) = choose|k: int, i: int|
            0 <= k < a.segments@.len() && #[trigger] fits_at(a.segments@[k], i, need, align);
        lemma_count_free_run(a.segments@[k].used@, i, need);
        lemma_sum_used_gap(a.segments@, k, need);
        let q = size / PAGE_SIZE_4K as int;
        let rm = size % PAGE_SIZE_4K as int;
        vstd::arithmetic::div_mod::lemma_fundamental_div_mod(size, PAGE_SIZE_4K as int);
        assert(size <= need * PAGE_SIZE_4K as int) by (nonlinear_arith)
            requires
                need == q + (if rm == 0 {
                    0int
                } else {
                    1int
                }),
                size == PAGE_SIZE_4K as int * q + rm,
                0 <= rm < PAGE_SIZE_4K as int,
        ;
    }
}

/// The allocator core: disjoint tracked segments plus running byte counters.
pub struct BitmapAllocator {
    pub segments: Vec<Segment>,
    pub total: usize,
    pub used: usize,
}

impl BitmapAllocator {
    /// The accounting invariant: segments are well formed and pairwise
    /// disjoint, and the counters agree with the bitmaps.
    pub open spec fn wf(self) -> bool {
        &&& forall|k: int|
            0 <= k < self.segments@.len() ==> (#[trigger] self.segments@[k]).wf()
        &&& forall|k1: int, k2: int|
            0 <= k1 < self.segments@.len() && 0 <= k2 < self.segments@.len() && k1 != k2
                ==> seg_disjoint(#[trigger] self.segments@[k1], #[trigger] self.segments@[k2])
        &&& self.total as int == sum_total(self.segments@)
        &&& self.used as int == sum_used(self.segments@)
    }

    /// Bytes still free.
    pub open spec fn available(self) -> int {
        self.total - self.used
    }

    /// The postcondition of a successful `unsafe_add_memory`: one new
    /// all-free segment is appended and the totals grow by `size`.
    pub open spec fn added_post(pre: Self, post: Self, start: int, size: int) -> bool {
        &&& post.segments@.len() == pre.segments@.len() + 1
        &&& forall|k: int|
            0 <= k < pre.segments@.len() ==> post.segments@[k] == pre.segments@[k]
        &&& post.segments@.last().start == start
        &&& post.segments@.last().used@.len() == size / PAGE_SIZE_4K as int
        &&& forall|j: int|
            0 <= j < post.segments@.last().used@.len() ==> !(#[trigger] post.segments@.last().used@[j])
        &&& post.total == pre.total + size
        &&& post.used == pre.used
    }

    /// Segment `k` keeps its place and length, pages `[i, i + n)` of it are
    /// re-marked to `b`, and everything else is untouched.
    pub open spec fn marked_post(pre: Self, post: Self, k: int, i: int, n: int, b: bool) -> bool {
        &&& post.segments@.len() == pre.segments@.len()
        &&& forall|k2: int|
            0 <= k2 < pre.segments@.len() && k2 != k ==> post.segments@[k2] == pre.segments@[k2]
        &&& post.segments@[k].start == pre.segments@[k].start
        &&& post.segments@[k].used@.len() == pre.segments@[k].used@.len()
        &&& forall|j: int|
            0 <= j < pre.segments@[k].used@.len() ==> post.segments@[k].used@[j] == (if i <= j < i
                + n {
                b
            } else {
                pre.segments@[k].used@[j]
            })
    }

    /// The postcondition of a successful `alloc`: some fitting free run was
    /// found, its pages are now marked used, and the accounting moved by the
    /// rounded size.
    pub open spec fn alloc_post(pre: Self, post: Self, size: int, align: int, addr: int) -> bool {
        &&& exists|k: int, i: int|
            {
                &&& 0 <= k < pre.segments@.len()
                &&& #[trigger] fits_at(pre.segments@[k], i, pages_needed(size), align)
                &&& addr == pre.segments@[k].start + i * PAGE_SIZE_4K as int
                &&& Self::marked_post(pre, post, k, i, pages_needed(size), true)
            }
        &&& post.total == pre.total
        &&& post.used == pre.used + pages_needed(size) * PAGE_SIZE_4K as int
    }

    /// The postcondition of `unsafe_dealloc`: the span is marked free again
    /// and the accounting moved back by the rounded size.
    pub open spec fn dealloc_post(pre: Self, post: Self, addr: int, n: int) -> bool {
        &&& exists|k: int, i: int|
            {
                &&& 0 <= k < pre.segments@.len()
                &&& #[trigger] seg_span(pre.segments@[k], i, n, addr)
                &&& Self::marked_post(pre, post, k, i, n, false)
            }
        &&& post.total == pre.total
        &&& post.used == pre.used - n * PAGE_SIZE_4K as int
    }

    /// Creates an empty allocator that tracks no memory.
    pub fn new() -> (r: Self)
        ensures
            r.wf(),
            r.segments@.len() == 0,
            r.total == 0,
            r.used == 0,
    {
        BitmapAllocator { segments: Vec::new(), total: 0, used: 0 }
    }

    /// Starts tracking `[start, start + size)` as free memory. The range is
    /// not checked against ranges already tracked: the caller must know it is
    /// fresh, which `init` (first range, nothing tracked yet) and a checked
    /// `add_memory` both guarantee.
    pub fn unsafe_add_memory(&mut self, start: usize, size: usize) -> (r: Result<(), AllocError>)
        requires
            old(self).wf(),
        ensures
            final(self).wf(),
            !valid_range(start as int, size as int) ==> r === Err(AllocError::InvalidParam)
                && *final(self) == *old(self),
            valid_range(start as int, size as int) && overlaps_any(
                old(self).segments@,
                start as int,
                size as int,
            ) ==> r === Err(AllocError::MemoryOverlap) && *final(self) == *old(self),
            valid_range(start as int, size as int) && !overlaps_any(
                old(self).segments@,
                start as int,
                size as int,
            ) && old(self).total + size > usize::MAX ==> r === Err(AllocError::InvalidParam)
                && *final(self) == *old(self),
            valid_range(start as int, size as int) && !overlaps_any(
                old(self).segments@,
                start as int,
                size as int,
            ) && old(self).total + size <= usize::MAX ==> r === Ok(()) && Self::added_post(
                *old(self),
                *final(self),
                start as int,
                size as int,
            ),
    {
        if size == 0 || size % PAGE_SIZE_4K != 0 || start % PAGE_SIZE_4K != 0 || start
            > usize::MAX - size {
            return Err(AllocError::InvalidParam);
        }
        let ghost pre = *self;
        let mut k: usize = 0;
        while k < self.segments.len()
            invariant
                *self == pre,
                self.wf(),
                k <= self.segments@.len(),
                valid_range(start as int, size as int),
                forall|k2: int|
                    0 <= k2 < k ==> !overlaps(#[trigger] self.segments@[k2], start as int, size as int),
            decreases self.segments@.len() - k,
        {
            let seg_start = self.segments[k].start;
            let seg_pages = self.segments[k].used.len();
            let seg_end = seg_start + seg_pages * PAGE_SIZE_4K;
            if start < seg_end && seg_start < start + size {
                return Err(AllocError::MemoryOverlap);
            }
            k += 1;
        }
        if self.total > usize::MAX - size {
            return Err(AllocError::InvalidParam);
        }
        let pages = size / PAGE_SIZE_4K;
        let mut bits: Vec<bool> = Vec::new();
        let mut j: usize = 0;
        while j < pages
            invariant
                bits@.len() == j,
                j <= pages,
                count_used(bits@) == 0,
                forall|jj: int| 0 <= jj < j ==> !(#[trigger] bits@[jj]),
            decreases pages - j,
        {
            let ghost prev = bits@;
            bits.push(false);
            proof {
                assert(bits@.drop_last() =~= prev);
            }
            j += 1;
        }
        let seg = Segment { start, used: bits };
        proof {
            lemma_sum_push(self.segments@, seg);
            assert(size as int / PAGE_SIZE_4K as int * PAGE_SIZE_4K as int == size as int) by {
                vstd::arithmetic::div_mod::lemma_fundamental_div_mod(
                    size as int,
                    PAGE_SIZE_4K as int,
                );
            }
            assert(seg.size_bytes() == size as int);
            assert(seg.used@.len() >= 1);
        }
        self.segments.push(seg);
        self.total = self.total + size;
        proof {
            assert forall|k1: int, k2: int|
                0 <= k1 < self.segments@.len() && 0 <= k2 < self.segments@.len() && k1 != k2
                    implies seg_disjoint(self.segments@[k1], self.segments@[k2]) by {
                let last = self.segments@.len() - 1;
                if k1 == last || k2 == last {
                    assert(forall|k3: int|
                        0 <= k3 < pre.segments@.len() ==> !overlaps(
                            #[trigger] pre.segments@[k3],
                            start as int,
                            size as int,
                        ));
                }
            }
        }
        Ok(())
    }

    /// O(1) read of the bytes still free. The accounting invariant makes
    /// `used_bytes() + available_bytes() == total_bytes()`.
    pub fn available_bytes(&self) -> (r: usize)
        requires
            self.wf(),
        ensures
            r as int == self.available(),
    {
        proof {
            lemma_sum_used_le_total(self.segments@);
        }
        self.total - self.used
    }

    /// O(1) read of the bytes currently allocated.
    pub fn used_bytes(&self) -> (r: usize)
        ensures
            r == self.used,
    {
        self.used
    }

    /// O(1) read of the bytes tracked in all ranges together.
    pub fn total_bytes(&self) -> (r: usize)
        ensures
            r == self.total,
    {
        self.total
    }

    /// True exactly when pages `[i, i + n)` of segment `k` are all free.
    fn run_free(&self, k: usize, i: usize, n: usize) -> (r: bool)
        requires
            self.wf(),
            k < self.segments@.len(),
            i + n <= self.segments@[k as int].used@.len(),
        ensures
            r == (forall|j: int|
                i <= j < i + n ==> !(#[trigger] self.segments@[k as int].used@[j])),
    {
        let mut j: usize = 0;
        while j < n
            invariant
                self.wf(),
                k < self.segments@.len(),
                i + n <= self.segments@[k as int].used@.len(),
                j <= n,
                forall|jj: int|
                    i <= jj < i + j ==> !(#[trigger] self.segments@[k as int].used@[jj]),
            decreases n - j,
        {
            if self.segments[k].used[i + j] {
                return false;
            }
            j += 1;
        }
        true
    }

    /// First-fit search: the first segment position holding a free,
    /// aligned run of `need` pages, or `None` when no segment has one.
    fn find_fit(&self, need: usize, align: usize) -> (r: Option<(usize, usize)>)
        requires
            self.wf(),
            need >= 1,
            align >= 1,
        ensures
            match r {
                Some(p) => 0 <= p.0 < self.segments@.len() && fits_at(
                    self.segments@[p.0 as int],
                    p.1 as int,
                    need as int,
                    align as int,
                ),
                None => !can_fit(self.segments@, need as int, align as int),
            },
    {
        let mut k: usize = 0;
        while k < self.segments.len()
            invariant
                self.wf(),
                need >= 1,
                align >= 1,
                k <= self.segments@.len(),
                forall|k2: int, i2: int|
                    0 <= k2 < k ==> !(#[trigger] fits_at(
                        self.segments@[k2],
                        i2,
                        need as int,
                        align as int,
                    )),
            decreases self.segments@.len() - k,
        {
            let seg_start = self.segments[k].start;
            let seg_len = self.segments[k].used.len();
            if need <= seg_len {
                let mut i: usize = 0;
                while i <= seg_len - need
                    invariant
                        self.wf(),
                        need >= 1,
                        align >= 1,
                        k < self.segments@.len(),
                        seg_start == self.segments@[k as int].start,
                        seg_len == self.segments@[k as int].used@.len(),
                        need <= seg_len,
                        i <= seg_len - need + 1,
                        forall|i2: int|
                            0 <= i2 < i ==> !(#[trigger] fits_at(
                                self.segments@[k as int],
                                i2,
                                need as int,
                                align as int,
                            )),
                    decreases seg_len - need + 1 - i,
                {
                    proof {
                        assert(self.segments@[k as int].wf());
                        assert(i as int * PAGE_SIZE_4K as int <= (seg_len - 1) * PAGE_SIZE_4K as int)
                            by (nonlinear_arith)
                            requires
                                i as int <= seg_len - 1,
                        ;
                        assert((seg_len - 1) * PAGE_SIZE_4K as int == seg_len * PAGE_SIZE_4K as int
                            - PAGE_SIZE_4K as int) by (nonlinear_arith);
                    }
                    let addr = seg_start + i * PAGE_SIZE_4K;
                    if addr % align == 0 {
                        if self.run_free(k, i, need) {
                            return Some((k, i));
                        }
                    }
                    i += 1;
                }
            }
            k += 1;
        }
        None
    }

    /// Marks pages `[i, i + n)` of segment `k` as used (`b` true) or free
    /// (`b` false) and moves the accounting accordingly. The pages must all
    /// carry the opposite mark beforehand.
    fn mark_pages(&mut self, k: usize, i: usize, n: usize, b: bool)
        requires
            old(self).wf(),
            k < old(self).segments@.len(),
            i + n <= old(self).segments@[k as int].used@.len(),
            forall|j: int|
                i <= j < i + n ==> (#[trigger] old(self).segments@[k as int].used@[j]) == !b,
        ensures
            final(self).wf(),
            Self::marked_post(*old(self), *final(self), k as int, i as int, n as int, b),
            final(self).total == old(self).total,
            final(self).used as int == old(self).used + (if b {
                n as int * PAGE_SIZE_4K as int
            } else {
                -(n as int * PAGE_SIZE_4K as int)
            }),
    {
        let ghost pre = *self;
        let mut seg = self.segments.remove(k);
        let ghost pre_used = seg.used@;
        let total_pages = seg.used.len();
        let mut j: usize = 0;
        while j < n
            invariant
                j <= n,
                pre_used.len() == total_pages,
                i + n <= pre_used.len(),
                seg.start == pre.segments@[k as int].start,
                seg.used@.len() == pre_used.len(),
                pre_used == pre.segments@[k as int].used@,
                forall|jj: int| i <= jj < i + n ==> (#[trigger] pre_used[jj]) == !b,
                forall|jj: int|
                    0 <= jj < pre_used.len() ==> (#[trigger] seg.used@[jj]) == (if i <= jj < i
                        + j {
                        b
                    } else {
                        pre_used[jj]
                    }),
                count_used(seg.used@) == count_used(pre_used) + (if b {
                    j as int
                } else {
                    -(j as int)
                }),
            decreases n - j,
        {
            proof {
                lemma_count_update(seg.used@, i + j, b);
            }
            seg.used.set(i + j, b);
            j += 1;
        }
        proof {
            assert(self.segments@ == pre.segments@.remove(k as int));
        }
        self.segments.insert(k, seg);
        proof {
            assert(self.segments@ =~= pre.segments@.update(k as int, seg));
            lemma_sum_update(pre.segments@, k as int, seg);
            assert(pre.segments@[k as int].wf());
            let cpre = count_used(pre_used);
            let cpost = count_used(seg.used@);
            assert(cpost * PAGE_SIZE_4K as int == cpre * PAGE_SIZE_4K as int + (if b {
                n as int * PAGE_SIZE_4K as int
            } else {
                -(n as int * PAGE_SIZE_4K as int)
            })) by (nonlinear_arith)
                requires
                    cpost == cpre + (if b {
                        n as int
                    } else {
                        -(n as int)
                    }),
            ;
            lemma_sum_used_le_total(self.segments@);
            lemma_sum_used_le_total(pre.segments@);
            lemma_count_bounds(pre_used);
            lemma_count_bounds(seg.used@);
        }
        if b {
            self.used = self.used + n * PAGE_SIZE_4K;
        } else {
            self.used = self.used - n * PAGE_SIZE_4K;
        }
    }

    /// Finds a free, sufficiently large, correctly aligned region and marks
    /// it used, returning its starting address and the rounded size that was
    /// actually reserved. Fails with `InvalidParam` on a zero size or an
    /// alignment that is not a power of two, and with `NoMemory` exactly
    /// when no tracked segment holds a fitting run.
    pub fn allocate(&mut self, size: usize, align: usize) -> (r: Result<(usize, usize), AllocError>)
        requires
            old(self).wf(),
        ensures
            final(self).wf(),
            (size == 0 || !spec_is_pow2(align)) ==> r == Err::<(usize, usize), AllocError>(
                AllocError::InvalidParam,
            ) && *final(self) == *old(self),
            size > 0 && spec_is_pow2(align) && !can_fit(
                old(self).segments@,
                pages_needed(size as int),
                align as int,
            ) ==> r == Err::<(usize, usize), AllocError>(AllocError::NoMemory) && *final(self)
                == *old(self),
            size > 0 && spec_is_pow2(align) && can_fit(
                old(self).segments@,
                pages_needed(size as int),
                align as int,
            ) ==> (match r {
                Ok(p) => Self::alloc_post(
                    *old(self),
                    *final(self),
                    size as int,
                    align as int,
                    p.0 as int,
                ) && p.1 == pages_needed(size as int) * PAGE_SIZE_4K as int,
                Err(_) => false,
            }),
            size > 0 && spec_is_pow2(align) && size as int > old(self).available() ==> r
                == Err::<(usize, usize), AllocError>(AllocError::NoMemory),
    {
        if size == 0 || align == 0 || (align & (align - 1)) != 0 {
            return Err(AllocError::InvalidParam);
        }
        let need: usize = size / PAGE_SIZE_4K + (if size % PAGE_SIZE_4K == 0 {
            0
        } else {
            1
        });
        proof {
            vstd::arithmetic::div_mod::lemma_fundamental_div_mod(size as int, PAGE_SIZE_4K as int);
        }
        match self.find_fit(need, align) {
            Some((k, i)) => {
                proof {
                    assert(self.segments@[k as int].wf());
                    assert(i as int * PAGE_SIZE_4K as int + need as int * PAGE_SIZE_4K as int <= self.segments@[k as int].used@.len()
                        * PAGE_SIZE_4K as int) by (nonlinear_arith)
                        requires
                            i as int + need as int <= self.segments@[k as int].used@.len(),
                            need as int >= 0,
                            i as int >= 0,
                    ;
                    if size as int > self.available() {
                        lemma_exhaustion(*self, size as int, align as int);
                    }
                }
                let addr = self.segments[k].start + i * PAGE_SIZE_4K;
                let ghost pre = *self;
                self.mark_pages(k, i, need, true);
                proof {
                    assert(fits_at(pre.segments@[k as int], i as int, need as int, align as int));
                    assert(Self::marked_post(pre, *self, k as int, i as int, need as int, true));
                }
                Ok((addr, need * PAGE_SIZE_4K))
            },
            None => Err(AllocError::NoMemory),
        }
    }

    /// Marks a previously returned span free again. The span must be
    /// exactly a span handed out by `alloc` (same address, same rounded
    /// size) that is still fully allocated; anything else is a caller
    /// contract violation, not a checked error.
    pub fn unsafe_dealloc(&mut self, addr: usize, size: usize)
        requires
            old(self).wf(),
            size > 0,
            span_allocated(old(self).segments@, addr as int, pages_needed(size as int)),
        ensures
            final(self).wf(),
            Self::dealloc_post(*old(self), *final(self), addr as int, pages_needed(size as int)),
    {
        let need: usize = size / PAGE_SIZE_4K + (if size % PAGE_SIZE_4K == 0 {
            0
        } else {
            1
        });
        proof {
            vstd::arithmetic::div_mod::lemma_fundamental_div_mod(size as int, PAGE_SIZE_4K as int);
        }
        let ghost (wk, wi) = choose|k: int, i: int|
            {
                &&& 0 <= k < old(self).segments@.len()
                &&& #[trigger] seg_span(old(self).segments@[k], i, need as int, addr as int)
                &&& forall|j: int|
                    i <= j < i + need ==> (#[trigger] old(self).segments@[k].used@[j])
            };
        proof {
            assert(self.segments@[wk].wf());
            assert(0 <= wi as int * PAGE_SIZE_4K as int) by (nonlinear_arith)
                requires
                    wi >= 0,
            ;
            assert(wi * PAGE_SIZE_4K as int + need as int * PAGE_SIZE_4K as int <= self.segments@[wk].used@.len()
                * PAGE_SIZE_4K as int) by (nonlinear_arith)
                requires
                    wi + need as int <= self.segments@[wk].used@.len(),
                    need as int >= 0,
                    wi >= 0,
            ;
        }
        let mut k: usize = 0;
        while k < self.segments.len()
            invariant
                self.wf(),
                *self == *old(self),
                k <= self.segments@.len(),
                need as int == pages_needed(size as int),
                need >= 1,
                0 <= wk < self.segments@.len(),
                seg_span(self.segments@[wk], wi, need as int, addr as int),
                forall|j: int| wi <= j < wi + need ==> (#[trigger] self.segments@[wk].used@[j]),
                addr as int >= self.segments@[wk].start,
                (addr as int) < self.segments@[wk].end(),
                forall|k2: int|
                    0 <= k2 < k ==> !((#[trigger] self.segments@[k2]).start <= addr as int
                        && (addr as int) < self.segments@[k2].end()),
            decreases self.segments@.len() - k,
        {
            let seg_start = self.segments[k].start;
            let seg_len = self.segments[k].used.len();
            let seg_end = seg_start + seg_len * PAGE_SIZE_4K;
            if seg_start <= addr && addr < seg_end {
                proof {
                    if k as int != wk {
                        assert(seg_disjoint(self.segments@[k as int], self.segments@[wk]));
                        assert(false);
                    }
                }
                let i = (addr - seg_start) / PAGE_SIZE_4K;
                proof {
                    vstd::arithmetic::div_mod::lemma_div_by_multiple(wi, PAGE_SIZE_4K as int);
                    assert(i as int == wi);
                }
                let ghost pre = *self;
                self.mark_pages(k, i, need, false);
                proof {
                    assert(seg_span(pre.segments@[k as int], i as int, need as int, addr as int));
                    assert(Self::marked_post(pre, *self, k as int, i as int, need as int, false));
                }
                return ;
            }
            k += 1;
        }
        proof {
            assert(false);
        }
    }
}

/// Somewhere under a strictly smaller used-sum there is a segment with a
/// clear mark.
proof fn lemma_sum_strict(segs: Seq<Segment>)
    requires
        sum_used(segs) < sum_total(segs),
    ensures
        exists|k: int|
            0 <= k < segs.len() && count_used(#[trigger] segs[k].used@) < segs[k].used@.len(),
    decreases segs.len(),
{
    if segs.len() > 0 {
        lemma_count_bounds(segs.last().used@);
        if count_used(segs.last().used@) < segs.last().used@.len() {
            assert(segs[segs.len() - 1] == segs.last());
        } else {
            assert(count_used(segs.last().used@) * PAGE_SIZE_4K as int == segs.last().used@.len()
                * PAGE_SIZE_4K as int);
            lemma_sum_strict(segs.drop_last());
            let k = choose|k: int|
                0 <= k < segs.drop_last().len() && count_used(
                    #[trigger] segs.drop_last()[k].used@,
                ) < segs.drop_last()[k].used@.len();
            assert(segs[k] == segs.drop_last()[k]);
        }
    }
}

/// A bitmap with fewer marks than slots has a clear slot.
proof fn lemma_count_lt_exists_free(s: Seq<bool>)
    requires
        count_used(s) < s.len(),
    ensures
        exists|j: int| 0 <= j < s.len() && !(#[trigger] s[j]),
    decreases s.len(),
{
    if s.len() > 0 {
        if !s.last() {
            assert(!s[s.len() - 1]);
        } else {
            lemma_count_lt_exists_free(s.drop_last());
            let j = choose|j: int| 0 <= j < s.drop_last().len() && !(#[trigger] s.drop_last()[j]);
            assert(!s[j]);
        }
    }
}

/// Whenever at least one page is still available, a single page-aligned
/// page can be carved out somewhere.
pub proof fn lemma_avail_page_can_fit(a: BitmapAllocator)
    requires
        a.wf(),
        a.available() >= PAGE_SIZE_4K,
    ensures
        can_fit(a.segments@, 1, PAGE_SIZE_4K as int),
{
    lemma_sum_strict(a.segments@);
    let k = choose|k: int|
        0 <= k < a.segments@.len() && count_used(#[trigger] a.segments@[k].used@)
            < a.segments@[k].used@.len();
    lemma_count_lt_exists_free(a.segments@[k].used@);
    let j = choose|j: int| 0 <= j < a.segments@[k].used@.len() && !(#[trigger] a.segments@[k].used@[j]);
    assert(a.segments@[k].wf());
    vstd::arithmetic::div_mod::lemma_mod_multiples_vanish(
        j,
        a.segments@[k].start as int,
        PAGE_SIZE_4K as int,
    );
    assert(fits_at(a.segments@[k], j, 1, PAGE_SIZE_4K as int));
}

/// A span just handed out by `allocate` is fully allocated, so handing it
/// straight back to `unsafe_dealloc` meets that function's contract.
pub proof fn lemma_alloc_enables_dealloc(
    pre: BitmapAllocator,
    post: BitmapAllocator,
    size: int,
    align: int,
    addr: int,
)
    requires
        pre.wf(),
        BitmapAllocator::alloc_post(pre, post, size, align, addr),
    ensures
        span_allocated(post.segments@, addr, pages_needed(size)),
{
    let need = pages_needed(size);
    let (k, i) = choose|k: int, i: int|
        {
            &&& 0 <= k < pre.segments@.len()
            &&& #[trigger] fits_at(pre.segments@[k], i, need, align)
            &&& addr == pre.segments@[k].start + i * PAGE_SIZE_4K as int
            &&& BitmapAllocator::marked_post(pre, post, k, i, need, true)
        };
    assert(seg_span(post.segments@[k], i, need, addr));
    assert(forall|j: int| i <= j < i + need ==> (#[trigger] post.segments@[k].used@[j]));
}

/// Round-trip law: a successful allocation followed immediately by a
/// deallocation of the returned address with the same requested size
/// restores the used and available byte counts to their earlier values.
pub proof fn lemma_alloc_dealloc_round_trip(
    s0: BitmapAllocator,
    s1: BitmapAllocator,
    s2: BitmapAllocator,
    size: int,
    align: int,
    addr: int,
)
    requires
        s0.wf(),
        BitmapAllocator::alloc_post(s0, s1, size, align, addr),
        BitmapAllocator::dealloc_post(s1, s2, addr, pages_needed(size)),
    ensures
        s2.used == s0.used,
        s2.total == s0.total,
        s2.available() == s0.available(),
{
}

/// Accounting invariant: in every well-formed allocator state the used and
/// available byte counts add up to the total.
pub proof fn lemma_accounting(a: BitmapAllocator)
    requires
        a.wf(),
    ensures
        a.used + a.available() == a.total,
        0 <= a.used <= a.total,
{
    lemma_sum_used_le_total(a.segments@);
}

} // verus!
