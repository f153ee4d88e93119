//! A monotonic allocator over a fixed address range.
//!
//! The allocator keeps a cursor that only moves forward. A request is served
//! at the cursor rounded up to the requested alignment; individual
//! allocations are never returned, only the whole region at once.

use crate::align::{
    align_up_spec, lemma_align_up_bounds, lemma_align_up_fits, lemma_mask_rounds_up, valid_align,
};
use vstd::arithmetic::power2::is_pow2;
use vstd::prelude::*;

verus! {

/// Rounds `addr` up to the next multiple of `align`; an alignment of zero
/// leaves the address as it is.
pub fn align_up(addr: usize, align: usize) -> (r: usize)
    requires
        valid_align(align),
        align_up_spec(addr as int, align as int) <= usize::MAX,
    ensures
        r == align_up_spec(addr as int, align as int),
{
    if align == 0 {
        addr
    } else {
        proof {
            lemma_align_up_fits(addr as int, align as int);
            lemma_mask_rounds_up(addr, align);
        }
        (addr + (align - 1)) & !(align - 1)
    }
}

/// The abstract state of a bump allocator: the region `[start, end)` and the
/// cursor `next`, below which everything has been handed out.
pub struct BumpState {
    pub start: int,
    pub end: int,
    pub next: int,
}

impl BumpState {
    /// The cursor lies within the region, and the region within the
    /// address space.
    pub open spec fn wf(self) -> bool {
        0 <= self.start <= self.next <= self.end <= usize::MAX
    }

    /// The state of an allocator that has handed out nothing.
    pub open spec fn fresh(start: int, size: int) -> BumpState {
        BumpState { start, end: start + size, next: start }
    }

    /// The address at which a request with this alignment would be served.
    pub open spec fn candidate(self, align: int) -> int {
        align_up_spec(self.next, align)
    }

    /// Whether the region has room for the request.
    pub open spec fn fits(self, size: int, align: int) -> bool {
        self.candidate(align) + size <= self.end
    }

    /// The state after a request: the cursor moves past the allocation when
    /// the request fits, and nothing changes when it does not.
    pub open spec fn allocate(self, size: int, align: int) -> BumpState {
        if self.fits(size, align) {
            BumpState { next: self.candidate(align) + size, ..self }
        } else {
            self
        }
    }

    /// The state after giving the whole region back.
    pub open spec fn reset(self) -> BumpState {
        BumpState { next: self.start, ..self }
    }

    /// The number of bytes between the cursor and the end of the region.
    pub open spec fn free_bytes(self) -> int {
        if self.next >= self.end {
            0
        } else {
            self.end - self.next
        }
    }
}

/// One allocation request: a number of bytes and an alignment.
pub struct Request {
    pub size: int,
    pub align: int,
}

impl BumpState {
    /// The state after the requests have been made one after another, the
    /// first of the sequence first.
    pub open spec fn serve(self, reqs: Seq<Request>) -> BumpState
        decreases reqs.len(),
    {
        if reqs.len() == 0 {
            self
        } else {
            self.serve(reqs.drop_last()).allocate(reqs.last().size, reqs.last().align)
        }
    }

    /// The address handed out for request `i` of the sequence, or `None`
    /// when that request found no room.
    pub open spec fn address_of(self, reqs: Seq<Request>, i: int) -> Option<int> {
        let before = self.serve(reqs.take(i));
        if before.fits(reqs[i].size, reqs[i].align) {
            Some(before.candidate(reqs[i].align))
        } else {
            None
        }
    }
}

/// Every request of the sequence asks for a size and an alignment that are
/// not negative.
pub open spec fn requests_valid(reqs: Seq<Request>) -> bool {
    forall|k: int| 0 <= k < reqs.len() ==> (#[trigger] reqs[k]).size >= 0 && reqs[k].align >= 0
}

/// The address at which a request is served is not below the cursor.
proof fn lemma_candidate_at_or_after_cursor(s: BumpState, align: int)
    requires
        0 <= s.next,
    ensures
        s.next <= s.candidate(align),
        align > 0 ==> s.candidate(align) % align == 0,
{
    if align > 0 {
        lemma_align_up_bounds(s.next, align);
    }
}

/// Serving requests keeps the state well formed and the region in place,
/// and never moves the cursor back.
proof fn lemma_serve_advances(s: BumpState, reqs: Seq<Request>)
    requires
        s.wf(),
        requests_valid(reqs),
    ensures
        s.serve(reqs).wf(),
        s.serve(reqs).start == s.start,
        s.serve(reqs).end == s.end,
        s.next <= s.serve(reqs).next,
    decreases reqs.len(),
{
    if reqs.len() > 0 {
        lemma_serve_advances(s, reqs.drop_last());
        lemma_candidate_at_or_after_cursor(s.serve(reqs.drop_last()), reqs.last().align);
    }
}

/// The cursor after a longer prefix of the requests is not below the cursor
/// after a shorter one.
proof fn lemma_serve_monotone(s: BumpState, reqs: Seq<Request>, i: int, j: int)
    requires
        s.wf(),
        requests_valid(reqs),
        0 <= i <= j <= reqs.len(),
    ensures
        s.serve(reqs.take(i)).next <= s.serve(reqs.take(j)).next,
    decreases j - i,
{
    if i < j {
        lemma_serve_monotone(s, reqs, i, j - 1);
        assert(reqs.take(j).drop_last() =~= reqs.take(j - 1));
        lemma_serve_advances(s, reqs.take(j - 1));
        lemma_candidate_at_or_after_cursor(s.serve(reqs.take(j - 1)), reqs[j - 1].align);
    }
}

/// Of any two allocations that succeeded, the earlier one lies inside the
/// region and ends at or before the address of the later one, so the two
/// ranges do not overlap and the addresses never decrease; they strictly
/// increase after an allocation of at least one byte. Each address is a
/// multiple of the alignment that was asked for.
pub proof fn lemma_allocations_ordered(s: BumpState, reqs: Seq<Request>, i: int, j: int)
    requires
        s.wf(),
        requests_valid(reqs),
        0 <= i < j < reqs.len(),
        s.address_of(reqs, i) is Some,
        s.address_of(reqs, j) is Some,
    ensures
        s.start <= s.address_of(reqs, i)->0,
        s.address_of(reqs, i)->0 + reqs[i].size <= s.address_of(reqs, j)->0,
        s.address_of(reqs, j)->0 + reqs[j].size <= s.end,
        reqs[i].size > 0 ==> s.address_of(reqs, i)->0 < s.address_of(reqs, j)->0,
        reqs[i].align > 0 ==> s.address_of(reqs, i)->0 % reqs[i].align == 0,
        reqs[j].align > 0 ==> s.address_of(reqs, j)->0 % reqs[j].align == 0,
{
    let before_i = s.serve(reqs.take(i));
    let before_j = s.serve(reqs.take(j));
    lemma_serve_advances(s, reqs.take(i));
    lemma_serve_advances(s, reqs.take(j));
    lemma_candidate_at_or_after_cursor(before_i, reqs[i].align);
    lemma_candidate_at_or_after_cursor(before_j, reqs[j].align);
    assert(reqs.take(i + 1).drop_last() =~= reqs.take(i));
    assert(s.serve(reqs.take(i + 1)).next == before_i.candidate(reqs[i].align) + reqs[i].size);
    lemma_serve_monotone(s, reqs, i + 1, j);
}

/// No two allocations of at least one byte that succeeded overlap or share
/// an address, whichever of them came first.
pub proof fn lemma_allocations_disjoint(s: BumpState, reqs: Seq<Request>, i: int, j: int)
    requires
        s.wf(),
        requests_valid(reqs),
        0 <= i < reqs.len(),
        0 <= j < reqs.len(),
        i != j,
        reqs[i].size > 0,
        reqs[j].size > 0,
        s.address_of(reqs, i) is Some,
        s.address_of(reqs, j) is Some,
    ensures
        s.address_of(reqs, i)->0 != s.address_of(reqs, j)->0,
        s.address_of(reqs, i)->0 + reqs[i].size <= s.address_of(reqs, j)->0 || s.address_of(
            reqs,
            j,
        )->0 + reqs[j].size <= s.address_of(reqs, i)->0,
{
    if i < j {
        lemma_allocations_ordered(s, reqs, i, j);
    } else {
        lemma_allocations_ordered(s, reqs, j, i);
    }
}

/// A request for more bytes than are free above the aligned cursor finds
/// no room, and leaves the state as it was.
pub proof fn lemma_oversized_request_fails(s: BumpState, size: int, align: int)
    requires
        s.wf(),
        size > (BumpState { next: s.candidate(align), ..s }).free_bytes(),
    ensures
        !s.fits(size, align),
        s.allocate(size, align) == s,
{
}

/// After a reset, a request whose alignment the region start already has
/// is served at the region start.
pub proof fn lemma_reset_reuses_start(s: BumpState, size: int, align: int)
    requires
        s.wf(),
        align <= 0 || s.start % align == 0,
    ensures
        s.reset().candidate(align) == s.start,
        s.reset().fits(size, align) <==> s.start + size <= s.end,
{
    if align > 0 {
        crate::align::lemma_align_up_aligned(s.start, align);
    }
}

/// Places a request of `size` bytes at the first `align`-aligned address at
/// or after `cursor`. Returns the address together with the cursor that
/// follows the allocation, or `None` when the allocation would pass `end`.
pub fn carve(cursor: usize, end: usize, size: usize, align: usize) -> (r: Option<(usize, usize)>)
    requires
        valid_align(align),
    ensures
        r is Some <==> align_up_spec(cursor as int, align as int) + size <= end,
        r matches Some((addr, next)) ==> addr == align_up_spec(cursor as int, align as int)
            && next == addr + size,
{
    if align != 0 && cursor > usize::MAX - (align - 1) {
        proof {
            if align_up_spec(cursor as int, align as int) <= usize::MAX {
                lemma_align_up_fits(cursor as int, align as int);
            }
        }
        return None;
    }
    proof {
        if align != 0 {
            reveal(is_pow2);
            lemma_align_up_bounds(cursor as int, align as int);
        }
    }
    let aligned = align_up(cursor, align);
    let new_next = aligned.saturating_add(size);
    if new_next > end || new_next - aligned < size {
        return None;
    }
    Some((aligned, new_next))
}

/// A monotonic allocator over the region `[heap_start, heap_end)`.
pub struct BumpAllocator {
    heap_start: usize,
    heap_end: usize,
    next: usize,
}

impl View for BumpAllocator {
    type V = BumpState;

    closed spec fn view(&self) -> BumpState {
        BumpState {
            start: self.heap_start as int,
            end: self.heap_end as int,
            next: self.next as int,
        }
    }
}

impl BumpAllocator {
    /// The cursor lies within the region.
    pub open spec fn wf(&self) -> bool {
        self@.wf()
    }

    /// An allocator that owns `[heap_start, heap_start + heap_size)` and has
    /// handed out nothing yet.
    pub fn new(heap_start: usize, heap_size: usize) -> (a: Self)
        requires
            heap_start + heap_size <= usize::MAX,
        ensures
            a@ == BumpState::fresh(heap_start as int, heap_size as int),
            a.wf(),
    {
        let heap_end = heap_start + heap_size;
        Self { heap_start, heap_end, next: heap_start }
    }

    /// Serves a request of `size` bytes aligned to `align`. Returns the
    /// address of the allocation, or `None`, leaving the allocator as it
    /// was, when the region has no room for it.
    pub fn allocate(&mut self, size: usize, align: usize) -> (r: Option<usize>)
        requires
            old(self).wf(),
            valid_align(align),
        ensures
            final(self).wf(),
            final(self)@ == old(self)@.allocate(size as int, align as int),
            r is Some <==> old(self)@.fits(size as int, align as int),
            r matches Some(addr) ==> addr == old(self)@.candidate(align as int),
    {
        match carve(self.next, self.heap_end, size, align) {
            Some((addr, next)) => {
                proof {
                    if align != 0 {
                        reveal(is_pow2);
                        lemma_align_up_bounds(self.next as int, align as int);
                    }
                }
                self.next = next;
                Some(addr)
            },
            None => None,
        }
    }

    /// Gives the whole region back: the cursor returns to the region start.
    pub fn reset(&mut self)
        ensures
            final(self)@ == old(self)@.reset(),
            old(self).wf() ==> final(self).wf(),
    {
        self.next = self.heap_start;
    }

    /// The number of bytes left between the cursor and the region end.
    pub fn free_bytes(&self) -> (n: usize)
        ensures
            n == self@.free_bytes(),
    {
        let current = self.next;
        if current >= self.heap_end {
            0
        } else {
            self.heap_end - current
        }
    }
}

} // verus!
