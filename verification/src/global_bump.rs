//! A bump allocator whose region is bound on first use.
//!
//! The allocator is created without a region. The first call that binds one
//! wins; every later attempt finds the allocator bound and changes nothing.
//! A region start of zero marks the unbound state, so no region may start at
//! address zero.

use crate::align::{lemma_align_up_bounds, valid_align};
use crate::bump::{carve, BumpState};
use vstd::arithmetic::power2::is_pow2;
use vstd::prelude::*;

verus! {

impl BumpState {
    /// The state of a lazily bound allocator before a region is bound.
    pub open spec fn unbound() -> BumpState {
        BumpState { start: 0, end: 0, next: 0 }
    }

    /// A lazily bound allocator is bound once its region start is not zero.
    pub open spec fn is_initialized(self) -> bool {
        self.start != 0
    }

    /// Binding the region `[start, end)`: the first binding takes effect,
    /// a later one changes nothing.
    pub open spec fn bind(self, start: int, end: int) -> BumpState {
        if self.is_initialized() {
            self
        } else {
            BumpState { start, end, next: start }
        }
    }

    /// Whether a lazily bound allocator has room for the request: an
    /// unbound one has room for nothing.
    pub open spec fn lazy_fits(self, size: int, align: int) -> bool {
        self.is_initialized() && self.fits(size, align)
    }

    /// The state of a lazily bound allocator after a request: as for any
    /// bump allocator once a region is bound, and unchanged before.
    pub open spec fn lazy_allocate(self, size: int, align: int) -> BumpState {
        if self.is_initialized() {
            self.allocate(size, align)
        } else {
            self
        }
    }

    /// The free bytes that a lazily bound allocator reports: none while it
    /// is unbound.
    pub open spec fn lazy_free_bytes(self) -> int {
        if !self.is_initialized() || self.next >= self.end {
            0
        } else {
            self.end - self.next
        }
    }
}

/// A bump allocator that starts out without a region.
pub struct GlobalBumpAllocator {
    start: usize,
    end: usize,
    next: usize,
}

impl View for GlobalBumpAllocator {
    type V = BumpState;

    closed spec fn view(&self) -> BumpState {
        BumpState { start: self.start as int, end: self.end as int, next: self.next as int }
    }
}

impl GlobalBumpAllocator {
    /// Either no region is bound and all fields are zero, or the cursor lies
    /// within the bound region.
    pub open spec fn wf(&self) -> bool {
        &&& self@.wf()
        &&& !self@.is_initialized() ==> self@ == BumpState::unbound()
    }

    /// An allocator with no region bound.
    pub fn new_const() -> (a: Self)
        ensures
            a@ == BumpState::unbound(),
            a.wf(),
    {
        Self { start: 0, end: 0, next: 0 }
    }

    /// Binds the region `[heap_addr, end)` unless a region is bound already.
    pub fn ensure_init(&mut self, heap_addr: usize, end: usize)
        requires
            old(self).wf(),
            heap_addr != 0,
            heap_addr <= end,
        ensures
            final(self)@ == old(self)@.bind(heap_addr as int, end as int),
            final(self)@.is_initialized(),
            final(self).wf(),
    {
        if self.start != 0 {
            return ;
        }
        self.start = heap_addr;
        self.end = end;
        self.next = heap_addr;
    }

    /// Serves a request of `size` bytes aligned to `align` from the bound
    /// region. Returns the address of the allocation, or `None`, leaving
    /// the allocator as it was, when the region has no room for it or no
    /// region is bound.
    pub fn try_alloc(&mut self, size: usize, align: usize) -> (r: Option<usize>)
        requires
            old(self).wf(),
            valid_align(align),
        ensures
            final(self).wf(),
            final(self)@ == old(self)@.lazy_allocate(size as int, align as int),
            r is Some <==> old(self)@.lazy_fits(size as int, align as int),
            r matches Some(addr) ==> addr == old(self)@.candidate(align as int),
    {
        if self.start == 0 {
            return None;
        }
        match carve(self.next, self.end, size, align) {
            Some((addr, next)) => {
                proof {
                    if align != 0 {
                        reveal(is_pow2);
                        lemma_align_up_bounds(self.next as int, align as int);
                    }
                }
                self.next = next;
                Some(addr)
            },
            None => None,
        }
    }

    /// Gives the whole region back: the cursor returns to the region start.
    pub fn reset(&mut self)
        ensures
            final(self)@ == old(self)@.reset(),
            old(self).wf() ==> final(self).wf(),
    {
        let start = self.start;
        self.next = start;
    }

    /// The number of bytes left between the cursor and the region end;
    /// zero while no region is bound.
    pub fn free_bytes(&self) -> (n: usize)
        ensures
            n == self@.lazy_free_bytes(),
    {
        let end = self.end;
        let start = self.start;
        let next = self.next;
        if start == 0 || next >= end {
            0
        } else {
            end - next
        }
    }
}

} // verus!
