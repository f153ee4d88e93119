//! An allocator that serves small requests from a slab and all others from
//! a bump allocator, both carved out of one backing region on first use.

use crate::align::{
    align_up_spec, lemma_align_up_aligned, lemma_align_up_bounds, lemma_pow2_divides,
    lemma_word_size_valid, spec_word_size, valid_align, word_size,
};
use crate::bump::{align_up, carve, BumpState};
use crate::global_bump::GlobalBumpAllocator;
use crate::slab::{
    lemma_bound_wf, lemma_index_of_block, lemma_rounded_block_size, rounded_block_size, Slab,
    SlabState,
};
use vstd::arithmetic::div_mod::{lemma_fundamental_div_mod, lemma_mod_multiples_basic};
use vstd::arithmetic::power2::is_pow2;
use vstd::prelude::*;

verus! {

/// The number of bytes at the front of the backing region that go to the
/// slab, where the region has that many.
pub const SLAB_REGION_BYTES: usize = 128 * 1024;

/// How far the one-time setup of the sub-allocators has come.
pub enum InitState {
    /// No sub-allocator is bound to a part of the region.
    Uninitialized,
    /// The region is being split; no request is served in this state.
    Initializing,
    /// Both sub-allocators are bound.
    Initialized,
}

/// The first address of the slab part of the backing region.
pub open spec fn slab_start(heap_addr: int) -> int {
    align_up_spec(heap_addr, spec_word_size() as int)
}

/// The number of bytes of the slab part of the backing region.
pub open spec fn slab_size(heap_size: int) -> int {
    if SLAB_REGION_BYTES <= heap_size {
        SLAB_REGION_BYTES as int
    } else {
        heap_size
    }
}

/// The address that follows the slab part.
pub open spec fn slab_end(heap_addr: int, heap_size: int) -> int {
    slab_start(heap_addr) + slab_size(heap_size)
}

/// The first address of the bump part of the backing region.
pub open spec fn bump_start(heap_addr: int, heap_size: int) -> int {
    align_up_spec(slab_end(heap_addr, heap_size), spec_word_size() as int)
}

/// A backing region can be split when it does not start at address zero,
/// lies within the address space, and has room for the slab part together
/// with the padding that puts both parts on word boundaries.
pub open spec fn region_splits(heap_addr: int, heap_size: int) -> bool {
    &&& 0 < heap_addr
    &&& 0 <= heap_size
    &&& heap_addr + heap_size <= usize::MAX
    &&& bump_start(heap_addr, heap_size) <= heap_addr + heap_size
}

/// Whether the `heap_size` bytes at `heap_addr` can serve as the backing
/// region of a composite allocator.
pub fn splits(heap_addr: usize, heap_size: usize) -> (ok: bool)
    ensures
        ok == region_splits(heap_addr as int, heap_size as int),
{
    if heap_addr == 0 || heap_size > usize::MAX - heap_addr {
        return false;
    }
    let heap_end = heap_addr + heap_size;
    let slab_size = if SLAB_REGION_BYTES <= heap_size {
        SLAB_REGION_BYTES
    } else {
        heap_size
    };
    proof {
        lemma_word_size_valid();
        lemma_align_up_bounds(
            slab_end(heap_addr as int, heap_size as int),
            spec_word_size() as int,
        );
    }
    match carve(heap_addr, heap_end, slab_size, word_size()) {
        Some((_, end_of_slab)) => carve(end_of_slab, heap_end, 0, word_size()).is_some(),
        None => false,
    }
}

/// The abstract state of the composite allocator.
pub struct CompositeState {
    pub init: InitState,
    pub slab_block_size: int,
    pub heap_addr: int,
    pub heap_size: int,
    pub slab: SlabState,
    pub bump: BumpState,
}

impl CompositeState {
    /// The state before first use: the region is known, and neither
    /// sub-allocator is bound to a part of it.
    pub open spec fn inert(slab_block_size: int, heap_addr: int, heap_size: int) -> CompositeState {
        CompositeState {
            init: InitState::Uninitialized,
            slab_block_size,
            heap_addr,
            heap_size,
            slab: SlabState::inert(rounded_block_size(slab_block_size)),
            bump: BumpState::unbound(),
        }
    }

    /// Between operations the setup has either not begun or is complete.
    /// Before it, no sub-allocator is bound; after it, the slab holds the
    /// slab part of the region and the bump allocator the rest.
    pub open spec fn wf(self) -> bool {
        &&& region_splits(self.heap_addr, self.heap_size)
        &&& 0 <= self.slab_block_size
        &&& self.slab.block_size == rounded_block_size(self.slab_block_size)
        &&& self.slab.wf()
        &&& self.bump.wf()
        &&& match self.init {
            InitState::Uninitialized => {
                &&& self.slab == SlabState::inert(self.slab.block_size)
                &&& self.bump == BumpState::unbound()
            },
            InitState::Initializing => false,
            InitState::Initialized => {
                &&& self.slab.region_start == slab_start(self.heap_addr)
                &&& self.slab.region_end == slab_end(self.heap_addr, self.heap_size)
                &&& self.bump.start == bump_start(self.heap_addr, self.heap_size)
                &&& self.bump.end == self.heap_addr + self.heap_size
            },
        }
    }

    /// The state after the one-time setup: a state that is set up already
    /// stays as it is.
    pub open spec fn initialized(self) -> CompositeState {
        if self.init is Initialized {
            self
        } else {
            CompositeState {
                init: InitState::Initialized,
                slab: SlabState::bound(
                    self.slab.block_size,
                    slab_start(self.heap_addr),
                    slab_size(self.heap_size),
                ),
                bump: BumpState::fresh(
                    bump_start(self.heap_addr, self.heap_size),
                    self.heap_addr + self.heap_size - bump_start(self.heap_addr, self.heap_size),
                ),
                ..self
            }
        }
    }

    /// A request goes to the slab when it asks for no more than the
    /// configured block size and for no more than word alignment.
    pub open spec fn routes_to_slab(self, size: int, align: int) -> bool {
        size <= self.slab_block_size && align <= spec_word_size()
    }

    /// Whether the sub-allocator that the request goes to can serve it.
    pub open spec fn can_allocate(self, size: int, align: int) -> bool {
        let s = self.initialized();
        if self.routes_to_slab(size, align) {
            s.slab.free.len() > 0
        } else {
            s.bump.fits(size, align)
        }
    }

    /// The address at which a request that can be served is served.
    pub open spec fn allocation_address(self, size: int, align: int) -> int {
        let s = self.initialized();
        if self.routes_to_slab(size, align) {
            s.slab.free[0]
        } else {
            s.bump.candidate(align)
        }
    }

    /// The state after a request: the allocator is set up, and the
    /// sub-allocator that the request goes to has made its step.
    pub open spec fn allocate(self, size: int, align: int) -> CompositeState {
        let s = self.initialized();
        if self.routes_to_slab(size, align) {
            CompositeState { slab: s.slab.allocate(), ..s }
        } else {
            CompositeState { bump: s.bump.allocate(size, align), ..s }
        }
    }

    /// Whether giving back `ptr` with this size and alignment reaches the
    /// slab.
    pub open spec fn frees_to_slab(self, ptr: int, size: int, align: int) -> bool {
        &&& self.init is Initialized
        &&& self.routes_to_slab(size, align)
        &&& self.slab.owns(ptr)
    }

    /// The state after `ptr` was given back: the slab takes the block back
    /// where the request reaches it; otherwise nothing changes.
    pub open spec fn dealloc(self, ptr: int, size: int, align: int) -> CompositeState {
        if self.frees_to_slab(ptr, size, align) {
            CompositeState { slab: self.slab.dealloc(ptr), ..self }
        } else {
            self
        }
    }
}

/// The parts of a region that can be split lie in order within it: the
/// slab part, then the bump part, which ends with the region.
pub proof fn lemma_split_in_order(heap_addr: int, heap_size: int)
    requires
        region_splits(heap_addr, heap_size),
    ensures
        heap_addr <= slab_start(heap_addr) <= slab_end(heap_addr, heap_size) <= bump_start(
            heap_addr,
            heap_size,
        ) <= heap_addr + heap_size,
        slab_start(heap_addr) % (spec_word_size() as int) == 0,
        bump_start(heap_addr, heap_size) % (spec_word_size() as int) == 0,
{
    lemma_word_size_valid();
    lemma_align_up_bounds(heap_addr, spec_word_size() as int);
    lemma_align_up_bounds(slab_end(heap_addr, heap_size), spec_word_size() as int);
}

/// The one-time setup leads from a well-formed state to a well-formed
/// state that is set up.
pub proof fn lemma_initialized_wf(s: CompositeState)
    requires
        s.wf(),
    ensures
        s.initialized().wf(),
        s.initialized().init is Initialized,
        s.initialized().initialized() == s.initialized(),
{
    if !(s.init is Initialized) {
        lemma_word_size_valid();
        lemma_split_in_order(s.heap_addr, s.heap_size);
        lemma_align_up_aligned(slab_start(s.heap_addr), spec_word_size() as int);
        lemma_bound_wf(s.slab.block_size, slab_start(s.heap_addr), slab_size(s.heap_size));
    }
}

/// A request for no more than the configured block size and no more than
/// word alignment is served from the slab whenever the slab has a free
/// block: the address is that of a block, which the slab owns, the request
/// lies within the slab part of the region, and the address has the
/// alignment that was asked for.
pub proof fn lemma_small_request_served_by_slab(s: CompositeState, size: int, align: int)
    requires
        s.wf(),
        0 <= size,
        align == 0 || is_pow2(align),
        s.routes_to_slab(size, align),
        s.initialized().slab.free.len() > 0,
    ensures
        s.can_allocate(size, align),
        s.initialized().slab.is_block(s.allocation_address(size, align)),
        s.initialized().slab.owns(s.allocation_address(size, align)),
        slab_start(s.heap_addr) <= s.allocation_address(size, align),
        s.allocation_address(size, align) + size <= slab_end(s.heap_addr, s.heap_size),
        align > 0 ==> s.allocation_address(size, align) % align == 0,
{
    let t = s.initialized();
    let addr = s.allocation_address(size, align);
    let word = spec_word_size() as int;
    lemma_initialized_wf(s);
    lemma_word_size_valid();
    lemma_split_in_order(s.heap_addr, s.heap_size);
    assert(t.slab.is_block(t.slab.free[0]));
    lemma_index_of_block(t.slab, addr);
    lemma_rounded_block_size(s.slab_block_size);
    if align > 0 {
        lemma_pow2_divides(align, word);
        lemma_fundamental_div_mod(addr, word);
        lemma_fundamental_div_mod(word, align);
        let k = (addr / word) * (word / align);
        assert(addr == k * align) by (nonlinear_arith)
            requires
                addr == word * (addr / word),
                word == align * (word / align),
                k == (addr / word) * (word / align),
        ;
        lemma_mod_multiples_basic(k, align);
    }
}

/// A request for more than the configured block size, or for more than
/// word alignment, is served from the bump part of the region whenever
/// that part has room for it: the request lies between the start of the
/// bump part and the end of the region, and the address has the alignment
/// that was asked for.
pub proof fn lemma_large_request_served_by_bump(s: CompositeState, size: int, align: int)
    requires
        s.wf(),
        0 <= size,
        0 <= align,
        size > s.slab_block_size || align > spec_word_size(),
    ensures
        !s.routes_to_slab(size, align),
        s.can_allocate(size, align) <==> s.initialized().bump.fits(size, align),
        s.can_allocate(size, align) ==> {
            &&& bump_start(s.heap_addr, s.heap_size) <= s.allocation_address(size, align)
            &&& s.allocation_address(size, align) + size <= s.heap_addr + s.heap_size
            &&& align > 0 ==> s.allocation_address(size, align) % align == 0
        },
        slab_end(s.heap_addr, s.heap_size) <= bump_start(s.heap_addr, s.heap_size),
{
    let t = s.initialized();
    lemma_initialized_wf(s);
    lemma_split_in_order(s.heap_addr, s.heap_size);
    if align > 0 {
        lemma_align_up_bounds(t.bump.next, align);
    }
}

/// An allocator that owns one backing region and routes each request to a
/// slab or to a bump allocator within it.
pub struct CompositeAllocator {
    inited: InitState,
    bump_allocator: GlobalBumpAllocator,
    slab_allocator: Slab,
    slab_block_size: usize,
    heap_addr: usize,
    heap_size: usize,
}

impl View for CompositeAllocator {
    type V = CompositeState;

    closed spec fn view(&self) -> CompositeState {
        CompositeState {
            init: self.inited,
            slab_block_size: self.slab_block_size as int,
            heap_addr: self.heap_addr as int,
            heap_size: self.heap_size as int,
            slab: self.slab_allocator@,
            bump: self.bump_allocator@,
        }
    }
}

impl CompositeAllocator {
    /// The two sub-allocators are well formed.
    pub closed spec fn parts_wf(&self) -> bool {
        self.slab_allocator.wf() && self.bump_allocator.wf()
    }

    /// The state is well formed, and so are the two sub-allocators.
    pub open spec fn wf(&self) -> bool {
        self@.wf() && self.parts_wf()
    }

    /// An allocator for the `heap_size` bytes at `heap_addr`, with slab
    /// blocks for requests of up to `slab_block_size` bytes. Nothing is set
    /// up until the first request.
    pub fn new_const(slab_block_size: usize, heap_addr: usize, heap_size: usize) -> (a: Self)
        requires
            rounded_block_size(slab_block_size as int) <= usize::MAX,
            region_splits(heap_addr as int, heap_size as int),
        ensures
            a@ == CompositeState::inert(
                slab_block_size as int,
                heap_addr as int,
                heap_size as int,
            ),
            a.wf(),
    {
        Self {
            inited: InitState::Uninitialized,
            bump_allocator: GlobalBumpAllocator::new_const(),
            slab_allocator: Slab::new_rounded(slab_block_size),
            slab_block_size,
            heap_addr,
            heap_size,
        }
    }

    /// Sets the sub-allocators up unless that has been done: the front of
    /// the region, from the first word boundary on, goes to the slab, and
    /// what follows the next word boundary after it to the bump allocator.
    pub fn ensure_init(&mut self)
        requires
            old(self).wf(),
        ensures
            final(self)@ == old(self)@.initialized(),
            final(self).wf(),
    {
        match self.inited {
            InitState::Initialized => {
                return ;
            },
            _ => {},
        }
        self.inited = InitState::Initializing;
        proof {
            lemma_word_size_valid();
            lemma_split_in_order(self.heap_addr as int, self.heap_size as int);
            lemma_align_up_aligned(slab_start(self.heap_addr as int), spec_word_size() as int);
        }
        let heap_addr = self.heap_addr;
        let heap_end = heap_addr + self.heap_size;
        let whole = heap_end - heap_addr;
        let slab_size = if SLAB_REGION_BYTES <= whole {
            SLAB_REGION_BYTES
        } else {
            whole
        };
        let slab_start = align_up(heap_addr, word_size());
        let slab_end = slab_start + slab_size;
        let bump_start = align_up(slab_end, word_size());
        self.slab_allocator.init_region(slab_start, slab_end - slab_start);
        self.bump_allocator.ensure_init(bump_start, heap_end);
        self.inited = InitState::Initialized;
    }

    /// Serves a request of `size` bytes aligned to `align`, after setting
    /// the allocator up if need be. The request goes to the slab or to the
    /// bump allocator, and fails when the one it goes to cannot serve it.
    pub fn allocate(&mut self, size: usize, align: usize) -> (r: Option<usize>)
        requires
            old(self).wf(),
            valid_align(align),
        ensures
            final(self).wf(),
            final(self)@ == old(self)@.allocate(size as int, align as int),
            r is Some <==> old(self)@.can_allocate(size as int, align as int),
            r matches Some(addr) ==> addr == old(self)@.allocation_address(
                size as int,
                align as int,
            ),
            r matches Some(addr) ==> (old(self)@.routes_to_slab(size as int, align as int)
                ==> final(self)@.slab.is_allocated(addr as int)),
    {
        self.ensure_init();
        if size <= self.slab_block_size && align <= word_size() {
            self.slab_allocator.allocate()
        } else {
            self.bump_allocator.try_alloc(size, align)
        }
    }

    /// Gives `ptr` back. Only a block of the slab is taken back; memory
    /// from the bump allocator stays handed out. `ptr`, `size` and `align`
    /// must be those of an allocation that has not been given back yet.
    pub fn dealloc(&mut self, ptr: usize, size: usize, align: usize)
        requires
            old(self).wf(),
            old(self)@.frees_to_slab(ptr as int, size as int, align as int) ==> old(
                self,
            )@.slab.is_allocated(ptr as int),
        ensures
            final(self).wf(),
            final(self)@ == old(self)@.dealloc(ptr as int, size as int, align as int),
    {
        match self.inited {
            InitState::Initialized => {},
            _ => {
                return ;
            },
        }
        if size <= self.slab_block_size && align <= word_size() && self.slab_allocator.owns(ptr) {
            self.slab_allocator.dealloc(ptr);
        }
    }

    /// The number of free blocks in the slab.
    pub fn free_blocks(&self) -> (n: usize)
        requires
            self.wf(),
        ensures
            n == self@.slab.free.len(),
    {
        self.slab_allocator.debug_count_free()
    }

    /// The block size that the allocator was configured with.
    pub fn slab_block_size(&self) -> (n: usize)
        ensures
            n == self@.slab_block_size,
    {
        self.slab_block_size
    }
}

} // verus!
