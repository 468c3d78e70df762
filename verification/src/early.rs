//! The early-boot allocator itself: one contiguous region served from
//! both ends at once. Byte allocations bump a cursor forward from the low
//! end; page allocations bump a second cursor backward from the high end;
//! the space between the two cursors is free. The region is laid out as
//!
//! `[ bytes in use | free | pages in use ]`
//!
//! with `start <= byte_cursor <= page_cursor <= end` as the central
//! invariant. Byte allocations carry no per-allocation metadata: only a
//! count of live allocations is kept, and the whole byte area is
//! reclaimed at once when the count drains to zero. Pages are never
//! reclaimed.

use vstd::prelude::*;

verus! {

use crate::AllocError;
use crate::alignment::{
    align_down,
    align_up,
    is_power_of_two,
    lemma_align_down_properties,
    lemma_align_up_as_down,
    lemma_align_up_properties,
    lemma_mask_is_align_down,
    lemma_power_of_two_pos,
};
use vstd::arithmetic::div_mod::{lemma_div_of0, lemma_hoist_over_denominator};
use vstd::arithmetic::mul::lemma_mul_strictly_positive;
use vstd::arithmetic::power2::{lemma_pow2_pos, pow2};
use vstd::bits::{lemma_usize_pow2_no_overflow, lemma_usize_shl_is_mul};

/// A dual-ended bump allocator over `[start, end)`, handing out bytes
/// forward from the low end and `PAGE_SIZE`-sized pages backward from the
/// high end.
pub struct EarlyAllocator<const PAGE_SIZE: usize> {
    start: usize,
    end: usize,
    b_pos: usize,
    p_pos: usize,
    count: usize,
}

impl<const PAGE_SIZE: usize> EarlyAllocator<PAGE_SIZE> {
    /// Low bound of the managed region.
    pub closed spec fn region_start(&self) -> int {
        self.start as int
    }

    /// High bound (exclusive) of the managed region.
    pub closed spec fn region_end(&self) -> int {
        self.end as int
    }

    /// Next free address for forward byte allocation.
    pub closed spec fn byte_cursor(&self) -> int {
        self.b_pos as int
    }

    /// Exclusive upper bound of the free area; pages live above it.
    pub closed spec fn page_cursor(&self) -> int {
        self.p_pos as int
    }

    /// Number of byte allocations not yet released.
    pub closed spec fn live_count(&self) -> int {
        self.count as int
    }

    /// The central invariant: the two cursors partition the region and
    /// never cross.
    pub open spec fn wf(&self) -> bool {
        self.region_start() <= self.byte_cursor()
            && self.byte_cursor() <= self.page_cursor()
            && self.page_cursor() <= self.region_end()
    }

    /// Size of the whole managed region.
    pub open spec fn spec_total_bytes(&self) -> int {
        self.region_end() - self.region_start()
    }

    /// Bytes consumed by the forward cursor.
    pub open spec fn spec_used_bytes(&self) -> int {
        self.byte_cursor() - self.region_start()
    }

    /// Free bytes between the two cursors.
    pub open spec fn spec_available_bytes(&self) -> int {
        self.page_cursor() - self.byte_cursor()
    }

    /// Whole pages contained in the region.
    pub open spec fn spec_total_pages(&self) -> int {
        self.spec_total_bytes() / (PAGE_SIZE as int)
    }

    /// Whole pages consumed by the backward cursor.
    pub open spec fn spec_used_pages(&self) -> int {
        (self.region_end() - self.page_cursor()) / (PAGE_SIZE as int)
    }

    /// Whole pages still free between the cursors.
    pub open spec fn spec_available_pages(&self) -> int {
        self.spec_available_bytes() / (PAGE_SIZE as int)
    }

    /// The state `init(start, size)` leaves behind: an empty partition of
    /// `[start, start + size)`.
    pub open spec fn freshly_initialized(&self, start: int, size: int) -> bool {
        self.region_start() == start && self.region_end() == start + size
            && self.byte_cursor() == start && self.page_cursor() == start + size
            && self.live_count() == 0
    }

    /// When a byte allocation succeeds: the rounded-up cursor stays in
    /// the address word and the allocation ends at or before the page
    /// cursor.
    pub open spec fn byte_alloc_fits(&self, size: int, align: int) -> bool {
        self.byte_cursor() + align - 1 <= usize::MAX
            && align_up(self.byte_cursor(), align) + size <= self.page_cursor()
    }

    /// How a successful byte allocation transforms the state: the address
    /// is the old cursor rounded up, the cursor moves past the new
    /// allocation, the count rises by one, and nothing else moves.
    pub open spec fn bytes_allocated(pre: Self, post: Self, addr: int, size: int, align: int) -> bool {
        addr == align_up(pre.byte_cursor(), align) && post.byte_cursor() == addr + size
            && post.region_start() == pre.region_start() && post.region_end() == pre.region_end()
            && post.page_cursor() == pre.page_cursor() && post.live_count() == pre.live_count()
            + 1
    }

    /// When a page allocation succeeds: the requested pages fit below the
    /// page cursor and the aligned base does not cross the byte cursor.
    pub open spec fn page_alloc_fits(&self, num_pages: int, align_pow2: nat) -> bool {
        num_pages * (PAGE_SIZE as int) <= self.page_cursor() && self.byte_cursor() <= align_down(
            self.page_cursor() - num_pages * (PAGE_SIZE as int),
            pow2(align_pow2) as int,
        )
    }

    /// How a successful page allocation transforms the state: the page
    /// cursor drops by the requested size and is then rounded down to the
    /// requested alignment; the result is the new cursor; nothing else
    /// moves.
    pub open spec fn pages_allocated(
        pre: Self,
        post: Self,
        addr: int,
        num_pages: int,
        align_pow2: nat,
    ) -> bool {
        addr == align_down(
            pre.page_cursor() - num_pages * (PAGE_SIZE as int),
            pow2(align_pow2) as int,
        ) && post.page_cursor() == addr && post.byte_cursor() == pre.byte_cursor()
            && post.region_start() == pre.region_start() && post.region_end() == pre.region_end()
            && post.live_count() == pre.live_count()
    }

    /// The zeroed state, fit for static storage: usable only after `init`.
    pub fn new() -> (r: Self)
        ensures
            r.wf(),
            r.region_start() == 0,
            r.region_end() == 0,
            r.byte_cursor() == 0,
            r.page_cursor() == 0,
            r.live_count() == 0,
    {
        EarlyAllocator { start: 0, end: 0, b_pos: 0, p_pos: 0, count: 0 }
    }

    /// Adopt the region `[start, start + size)`: both cursors are reset
    /// to their respective ends and no byte allocation is live.
    ///
    /// Calling this on an allocator that already handed out memory
    /// silently re-partitions the region and invalidates every address it
    /// returned before; avoiding that is the caller's responsibility.
    pub fn init(&mut self, start: usize, size: usize)
        requires
            start + size <= usize::MAX,
        ensures
            final(self).wf(),
            final(self).freshly_initialized(start as int, size as int),
    {
        self.start = start;
        self.end = start + size;
        self.b_pos = start;
        self.p_pos = self.end;
        self.count = 0;
    }

    /// Growing the managed region is permanently unsupported at this
    /// allocator tier; the call always fails and changes nothing.
    pub fn add_memory(&mut self, _start: usize, _size: usize) -> (r: Result<(), AllocError>)
        ensures
            r == Err::<(), AllocError>(AllocError::Unsupported),
            *final(self) == *old(self),
    {
        Err(AllocError::Unsupported)
    }

    /// Allocate `size` bytes at alignment `align` by rounding the byte
    /// cursor up and bumping it forward. Fails with `RegionExhausted`
    /// exactly when the rounded-up allocation would cross the page
    /// cursor (or leave the address word); a failed call changes nothing.
    ///
    /// The alignment must be a power of two; that is trusted from the
    /// caller, as is the matching of every release to an allocation.
    pub fn allocate(&mut self, size: usize, align: usize) -> (r: Result<usize, AllocError>)
        requires
            old(self).wf(),
            is_power_of_two(align),
            old(self).live_count() < usize::MAX,
        ensures
            final(self).wf(),
            r is Ok <==> old(self).byte_alloc_fits(size as int, align as int),
            (r matches Ok(addr) ==> Self::bytes_allocated(
                *old(self),
                *final(self),
                addr as int,
                size as int,
                align as int,
            )),
            r is Err ==> r == Err::<usize, AllocError>(AllocError::RegionExhausted),
            r is Err ==> *final(self) == *old(self),
    {
        proof {
            lemma_power_of_two_pos(align);
        }
        let mask = align - 1;
        match self.b_pos.checked_add(mask) {
            None => Err(AllocError::RegionExhausted),
            Some(sum) => {
                let aligned = sum & !mask;
                proof {
                    lemma_mask_is_align_down(sum, align);
                    lemma_align_up_as_down(self.b_pos as int, align as int);
                    lemma_align_up_properties(self.b_pos as int, align as int);
                }
                if aligned > self.p_pos {
                    Err(AllocError::RegionExhausted)
                } else if size > self.p_pos - aligned {
                    Err(AllocError::RegionExhausted)
                } else {
                    self.b_pos = aligned + size;
                    self.count = self.count + 1;
                    Ok(aligned)
                }
            },
        }
    }

    /// The state after one release: the live count drops by one, and when
    /// it reaches zero the whole byte area is reclaimed at once.
    pub closed spec fn released(self) -> Self {
        if self.count == 1 {
            EarlyAllocator { b_pos: self.start, count: 0, ..self }
        } else {
            EarlyAllocator { count: (self.count - 1) as usize, ..self }
        }
    }

    /// Release one byte allocation. The address and size are not
    /// validated: this tier trusts its (bootstrap) caller to pass values
    /// from a matching `allocate`, and in particular to never release more
    /// often than it allocated. Nothing is reclaimed until the last live
    /// allocation is released, at which point the byte cursor snaps back
    /// to the region start.
    pub fn dealloc(&mut self, _pos: usize, _size: usize)
        requires
            old(self).wf(),
            old(self).live_count() > 0,
        ensures
            final(self).wf(),
            *final(self) == old(self).released(),
            final(self).live_count() == old(self).live_count() - 1,
            final(self).byte_cursor() == if old(self).live_count() == 1 {
                old(self).region_start()
            } else {
                old(self).byte_cursor()
            },
            final(self).region_start() == old(self).region_start(),
            final(self).region_end() == old(self).region_end(),
            final(self).page_cursor() == old(self).page_cursor(),
    {
        self.count = self.count - 1;
        if self.count == 0 {
            self.b_pos = self.start;
        }
    }

    /// Size of the whole managed region in bytes.
    pub fn total_bytes(&self) -> (r: usize)
        requires
            self.wf(),
        ensures
            r == self.spec_total_bytes(),
    {
        self.end - self.start
    }

    /// Bytes currently consumed by byte allocations (including any
    /// alignment padding swallowed by the cursor).
    pub fn used_bytes(&self) -> (r: usize)
        requires
            self.wf(),
        ensures
            r == self.spec_used_bytes(),
    {
        self.b_pos - self.start
    }

    /// Free bytes left between the byte and page cursors.
    pub fn available_bytes(&self) -> (r: usize)
        requires
            self.wf(),
        ensures
            r == self.spec_available_bytes(),
    {
        self.p_pos - self.b_pos
    }

    /// Allocate `num_pages` pages whose base address is aligned to
    /// `2^align_pow2`, carving them off the high end: the page cursor
    /// drops by the requested size and is rounded down to the alignment.
    /// Fails with `RegionExhausted` exactly when the aligned base would
    /// cross the byte cursor; a failed call changes nothing.
    pub fn alloc_pages(&mut self, num_pages: usize, align_pow2: usize) -> (r: Result<
        usize,
        AllocError,
    >)
        requires
            old(self).wf(),
            PAGE_SIZE > 0,
            align_pow2 < usize::BITS,
        ensures
            final(self).wf(),
            r is Ok <==> old(self).page_alloc_fits(num_pages as int, align_pow2 as nat),
            (r matches Ok(addr) ==> Self::pages_allocated(
                *old(self),
                *final(self),
                addr as int,
                num_pages as int,
                align_pow2 as nat,
            )),
            r is Err ==> r == Err::<usize, AllocError>(AllocError::RegionExhausted),
            r is Err ==> *final(self) == *old(self),
    {
        proof {
            lemma_usize_pow2_no_overflow(align_pow2 as nat);
        }
        let align: usize = 1usize << align_pow2;
        proof {
            lemma_usize_shl_is_mul(1usize, align_pow2);
            lemma_pow2_pos(align_pow2 as nat);
            crate::alignment::lemma_pow2_is_power_of_two(align_pow2 as nat);
        }
        match num_pages.checked_mul(PAGE_SIZE) {
            None => Err(AllocError::RegionExhausted),
            Some(size) => {
                if size > self.p_pos {
                    Err(AllocError::RegionExhausted)
                } else {
                    let base = (self.p_pos - size) & !(align - 1);
                    proof {
                        lemma_mask_is_align_down((self.p_pos - size) as usize, align);
                        lemma_align_down_properties(
                            self.p_pos - size,
                            pow2(align_pow2 as nat) as int,
                        );
                    }
                    if base < self.b_pos {
                        Err(AllocError::RegionExhausted)
                    } else {
                        self.p_pos = base;
                        Ok(base)
                    }
                }
            },
        }
    }

    /// Pages handed out by this tier are never reclaimed: nothing records
    /// where one page block ends and the next begins. The call always
    /// fails and changes nothing.
    pub fn dealloc_pages(&mut self, _pos: usize, _num_pages: usize) -> (r: Result<
        (),
        AllocError,
    >)
        ensures
            r == Err::<(), AllocError>(AllocError::Unsupported),
            *final(self) == *old(self),
    {
        Err(AllocError::Unsupported)
    }

    /// Whole pages contained in the managed region.
    pub fn total_pages(&self) -> (r: usize)
        requires
            self.wf(),
            PAGE_SIZE > 0,
        ensures
            r == self.spec_total_pages(),
    {
        (self.end - self.start) / PAGE_SIZE
    }

    /// Whole pages consumed by page allocations (including alignment
    /// padding below the page cursor).
    pub fn used_pages(&self) -> (r: usize)
        requires
            self.wf(),
            PAGE_SIZE > 0,
        ensures
            r == self.spec_used_pages(),
    {
        (self.end - self.p_pos) / PAGE_SIZE
    }

    /// Whole pages still free between the two cursors.
    pub fn available_pages(&self) -> (r: usize)
        requires
            self.wf(),
            PAGE_SIZE > 0,
        ensures
            r == self.spec_available_pages(),
    {
        (self.p_pos - self.b_pos) / PAGE_SIZE
    }

    /// The state after `k` releases, one after another.
    pub open spec fn drained(self, k: nat) -> Self
        decreases k,
    {
        if k == 0 {
            self
        } else {
            self.drained((k - 1) as nat).released()
        }
    }

    /// Law: right after `init(start, size)` the accounting sees the whole
    /// region as free: `total_bytes` and `available_bytes` are the full
    /// size, nothing is used, and the page counts follow by division.
    pub proof fn lemma_initialize_accounting(s: Self, start: int, size: int)
        requires
            s.freshly_initialized(start, size),
            0 <= size,
            PAGE_SIZE > 0,
        ensures
            s.wf(),
            s.spec_total_bytes() == size,
            s.spec_used_bytes() == 0,
            s.spec_available_bytes() == size,
            s.spec_total_pages() == size / (PAGE_SIZE as int),
            s.spec_available_pages() == size / (PAGE_SIZE as int),
            s.spec_used_pages() == 0,
    {
        lemma_div_of0(PAGE_SIZE as int);
    }

    /// Law: along any run of byte allocations with no release in between,
    /// `used_bytes` never decreases, and each address handed out is
    /// aligned as requested and does not precede the end of the previous
    /// allocation (which is exactly the old byte cursor).
    pub proof fn lemma_byte_allocations_monotonic(
        pre: Self,
        post: Self,
        addr: int,
        size: int,
        align: int,
    )
        requires
            pre.wf(),
            0 < align,
            0 <= size,
            Self::bytes_allocated(pre, post, addr, size, align),
        ensures
            post.spec_used_bytes() >= pre.spec_used_bytes(),
            addr % align == 0,
            addr >= pre.byte_cursor(),
            post.byte_cursor() == addr + size,
            post.spec_used_bytes() == pre.spec_used_bytes() + (addr - pre.byte_cursor()) + size,
    {
        lemma_align_up_properties(pre.byte_cursor(), align);
    }

    /// Law: releasing fewer byte allocations than are live never moves
    /// the byte cursor: a partial release reclaims nothing and
    /// `used_bytes` stays where the last allocation left it.
    pub proof fn lemma_partial_release_keeps_used_bytes(s: Self, j: nat)
        requires
            s.wf(),
            j < s.live_count(),
        ensures
            s.drained(j).wf(),
            s.drained(j).live_count() == s.live_count() - j,
            s.drained(j).byte_cursor() == s.byte_cursor(),
            s.drained(j).spec_used_bytes() == s.spec_used_bytes(),
            s.drained(j).region_start() == s.region_start(),
            s.drained(j).region_end() == s.region_end(),
            s.drained(j).page_cursor() == s.page_cursor(),
        decreases j,
    {
        if j > 0 {
            Self::lemma_partial_release_keeps_used_bytes(s, (j - 1) as nat);
        }
    }

    /// Law: releasing exactly as many times as there are live byte
    /// allocations — in any order, since a release looks only at the
    /// count — compacts the byte region in one step: `used_bytes` drops
    /// to zero and the byte cursor returns to the region start, so the
    /// next allocation is handed the region start rounded up to its
    /// alignment.
    pub proof fn lemma_full_release_compacts(s: Self, k: nat)
        requires
            s.wf(),
            0 < k,
            s.live_count() == k,
        ensures
            s.drained(k).wf(),
            s.drained(k).live_count() == 0,
            s.drained(k).byte_cursor() == s.region_start(),
            s.drained(k).spec_used_bytes() == 0,
            s.drained(k).region_start() == s.region_start(),
            s.drained(k).region_end() == s.region_end(),
            s.drained(k).page_cursor() == s.page_cursor(),
    {
        assert(s.drained(0) == s);
        if k > 1 {
            Self::lemma_partial_release_keeps_used_bytes(s, (k - 1) as nat);
        }
    }

    /// Law: page allocation only ever moves the page cursor downward; the
    /// address returned is the new cursor, lies strictly below the old
    /// one, and is aligned to the requested power of two. When the
    /// dropped cursor needed no extra rounding, `available_pages` shrinks
    /// by exactly the number of pages requested.
    pub proof fn lemma_page_allocation_moves_down(
        pre: Self,
        post: Self,
        addr: int,
        num_pages: int,
        align_pow2: nat,
    )
        requires
            pre.wf(),
            PAGE_SIZE > 0,
            0 < num_pages,
            Self::pages_allocated(pre, post, addr, num_pages, align_pow2),
            pre.page_alloc_fits(num_pages, align_pow2),
        ensures
            addr == post.page_cursor(),
            post.page_cursor() <= pre.page_cursor() - num_pages * (PAGE_SIZE as int),
            post.page_cursor() < pre.page_cursor(),
            addr % (pow2(align_pow2) as int) == 0,
            post.wf(),
            (pre.page_cursor() - num_pages * (PAGE_SIZE as int)) % (pow2(align_pow2) as int) == 0
                ==> pre.spec_available_pages() - post.spec_available_pages() == num_pages,
    {
        let ps = PAGE_SIZE as int;
        let a = pow2(align_pow2) as int;
        let x = pre.page_cursor() - num_pages * ps;
        lemma_pow2_pos(align_pow2);
        lemma_mul_strictly_positive(num_pages, ps);
        lemma_align_down_properties(x, a);
        if x % a == 0 {
            assert(addr == x);
            lemma_hoist_over_denominator(x - pre.byte_cursor(), num_pages, PAGE_SIZE as nat);
            assert((x - pre.byte_cursor()) + num_pages * ps == pre.page_cursor()
                - pre.byte_cursor());
        }
    }
}

} // verus!
