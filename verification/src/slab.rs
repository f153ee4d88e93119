//! A fixed-block-size allocator with a last-in-first-out free list.
//!
//! The region is cut into blocks of one size. The free blocks form a singly
//! linked list: `head` is the address of the first free block, and the first
//! word of every free block holds the address of the next one, zero ending
//! the list. The allocator keeps those first words in a table with one entry
//! per block; an entry means something only while its block is free.

use crate::align::{
    align_up_spec, lemma_align_up_bounds, lemma_align_up_fits, lemma_mask_rounds_up,
    lemma_word_size_valid, spec_word_size, valid_align, word_size,
};
use crate::bump::align_up;
use vstd::arithmetic::div_mod::{
    lemma_div_multiples_vanish, lemma_fundamental_div_mod, lemma_mod_multiples_basic,
};
use vstd::prelude::*;

verus! {

/// Rounds `addr` up to the next multiple of `align`; an alignment of zero
/// leaves the address as it is.
pub fn align_slab_up(addr: usize, align: usize) -> (r: usize)
    requires
        valid_align(align),
        align_up_spec(addr as int, align as int) <= usize::MAX,
    ensures
        r == align_up_spec(addr as int, align as int),
{
    if align == 0 {
        addr
    } else {
        proof {
            lemma_align_up_fits(addr as int, align as int);
            lemma_mask_rounds_up(addr, align);
        }
        (addr + (align - 1)) & !(align - 1)
    }
}

/// The abstract state of a slab: its block size, the region
/// `[region_start, region_end)` that it is bound to, and the addresses of
/// its free blocks, the one that is handed out next first.
pub struct SlabState {
    pub block_size: int,
    pub region_start: int,
    pub region_end: int,
    pub free: Seq<int>,
}

/// The block size that a slab gets for a nominal size: at least one word,
/// rounded up to a whole number of words.
pub open spec fn rounded_block_size(block_size: int) -> int {
    let word = spec_word_size() as int;
    align_up_spec(if block_size > word { block_size } else { word }, word)
}

/// The end of the region that starts at `start` and has `size` bytes,
/// cut off at the last address.
pub open spec fn saturated_end(start: int, size: int) -> int {
    if start + size > usize::MAX {
        usize::MAX as int
    } else {
        start + size
    }
}

/// The rounded block size holds the nominal size and at least one word, is
/// a whole number of words, and exceeds neither by a word or more. A
/// nominal size that is a whole number of words, and not zero, stays as it
/// is.
pub proof fn lemma_rounded_block_size(block_size: int)
    requires
        0 <= block_size,
    ensures
        block_size <= rounded_block_size(block_size),
        spec_word_size() <= rounded_block_size(block_size),
        rounded_block_size(block_size) % (spec_word_size() as int) == 0,
        rounded_block_size(block_size) < block_size + spec_word_size() || rounded_block_size(
            block_size,
        ) == spec_word_size(),
        block_size > 0 && block_size % (spec_word_size() as int) == 0 ==> rounded_block_size(
            block_size,
        ) == block_size,
{
    let word = spec_word_size() as int;
    let size = if block_size > word {
        block_size
    } else {
        word
    };
    lemma_word_size_valid();
    lemma_align_up_bounds(size, word);
    if size % word == 0 {
        crate::align::lemma_align_up_aligned(size, word);
    }
    if block_size > 0 && block_size % word == 0 && block_size < word {
        vstd::arithmetic::div_mod::lemma_small_mod(block_size as nat, word as nat);
    }
}

impl SlabState {
    /// The number of whole blocks in the region.
    pub open spec fn capacity(self) -> int {
        if self.block_size > 0 && self.region_start <= self.region_end {
            (self.region_end - self.region_start) / self.block_size
        } else {
            0
        }
    }

    /// The address of block number `i`.
    pub open spec fn block(self, i: int) -> int {
        self.region_start + i * self.block_size
    }

    /// The number of the block that starts at `addr`.
    pub open spec fn index_of(self, addr: int) -> int {
        (addr - self.region_start) / self.block_size
    }

    /// Whether `addr` is the address of one of the region's blocks.
    pub open spec fn is_block(self, addr: int) -> bool {
        &&& self.region_start <= addr
        &&& (addr - self.region_start) % self.block_size == 0
        &&& self.index_of(addr) < self.capacity()
    }

    /// Whether `addr` is a block that is handed out at present.
    pub open spec fn is_allocated(self, addr: int) -> bool {
        self.is_block(addr) && !self.free.contains(addr)
    }

    /// The address range that the slab answers for, both ends included.
    pub open spec fn owns(self, addr: int) -> bool {
        self.region_start <= addr <= self.region_end
    }

    /// Blocks are whole words on word boundaries, no block lies at address
    /// zero, and the free list holds blocks of the region, each at most once.
    pub open spec fn wf(self) -> bool {
        &&& spec_word_size() <= self.block_size
        &&& self.block_size % (spec_word_size() as int) == 0
        &&& 0 <= self.region_start <= usize::MAX
        &&& self.region_end <= usize::MAX
        &&& self.region_start % (spec_word_size() as int) == 0
        &&& self.capacity() > 0 ==> self.region_start > 0
        &&& self.free.no_duplicates()
        &&& forall|i: int| 0 <= i < self.free.len() ==> self.is_block(#[trigger] self.free[i])
    }

    /// A slab that is bound to no region.
    pub open spec fn inert(block_size: int) -> SlabState {
        SlabState { block_size, region_start: 0, region_end: 0, free: Seq::empty() }
    }

    /// A slab right after it was bound to the `size` bytes at `start`: the
    /// region starts at the first word boundary, and all its blocks are
    /// free, the lowest one first.
    pub open spec fn bound(block_size: int, start: int, size: int) -> SlabState {
        let region = SlabState {
            block_size,
            region_start: align_up_spec(start, spec_word_size() as int),
            region_end: saturated_end(start, size),
            free: Seq::empty(),
        };
        SlabState { free: Seq::new(region.capacity() as nat, |i: int| region.block(i)), ..region }
    }

    /// The state after one allocation: the first free block leaves the
    /// list; an empty list stays empty.
    pub open spec fn allocate(self) -> SlabState {
        if self.free.len() > 0 {
            SlabState { free: self.free.drop_first(), ..self }
        } else {
            self
        }
    }

    /// The state after `addr` was given back: it is the first free block.
    pub open spec fn dealloc(self, addr: int) -> SlabState {
        SlabState { free: seq![addr] + self.free, ..self }
    }

    /// The state after `n` allocations in a row.
    pub open spec fn drain(self, n: nat) -> SlabState
        decreases n,
    {
        if n == 0 {
            self
        } else {
            self.drain((n - 1) as nat).allocate()
        }
    }
}

/// Block `i` of the region is a block, has number `i`, and lies within the
/// region as a whole.
pub proof fn lemma_block_of_index(s: SlabState, i: int)
    requires
        s.block_size > 0,
        0 <= i < s.capacity(),
    ensures
        s.is_block(s.block(i)),
        s.index_of(s.block(i)) == i,
        s.region_start <= s.block(i),
        s.block(i) + s.block_size <= s.region_end,
{
    let bs = s.block_size;
    let span = s.region_end - s.region_start;
    lemma_fundamental_div_mod(span, bs);
    assert(i * bs + bs <= span && 0 <= i * bs) by (nonlinear_arith)
        requires
            0 <= i < span / bs,
            span == bs * (span / bs) + span % bs,
            0 <= span % bs,
            bs > 0,
    ;
    lemma_div_multiples_vanish(i, bs);
    lemma_mod_multiples_basic(i, bs);
    assert(i * bs == bs * i) by (nonlinear_arith);
}

/// A block starts at the address of its number, at a word boundary, and
/// lies within the region as a whole.
pub proof fn lemma_index_of_block(s: SlabState, addr: int)
    requires
        s.wf(),
        s.is_block(addr),
    ensures
        0 <= s.index_of(addr) < s.capacity(),
        addr == s.block(s.index_of(addr)),
        0 < addr,
        addr + s.block_size <= s.region_end,
        addr % (spec_word_size() as int) == 0,
{
    let bs = s.block_size;
    let off = addr - s.region_start;
    let i = off / bs;
    lemma_word_size_valid();
    lemma_fundamental_div_mod(off, bs);
    assert(0 <= i) by (nonlinear_arith)
        requires
            0 <= off,
            off == bs * i,
            bs > 0,
    ;
    assert(bs * i == i * bs) by (nonlinear_arith);
    lemma_block_of_index(s, i);
    let w = spec_word_size() as int;
    lemma_fundamental_div_mod(bs, w);
    lemma_fundamental_div_mod(s.region_start, w);
    let k = s.region_start / w + i * (bs / w);
    assert(addr == k * w) by (nonlinear_arith)
        requires
            addr == s.region_start + i * bs,
            bs == w * (bs / w),
            s.region_start == w * (s.region_start / w),
            k == s.region_start / w + i * (bs / w),
    ;
    lemma_mod_multiples_basic(k, w);
}

/// Two blocks with one number are one block.
proof fn lemma_index_injective(s: SlabState, a: int, b: int)
    requires
        s.wf(),
        s.is_block(a),
        s.is_block(b),
        s.index_of(a) == s.index_of(b),
    ensures
        a == b,
{
    lemma_index_of_block(s, a);
    lemma_index_of_block(s, b);
}

/// The free list is never longer than the region has blocks.
pub proof fn lemma_free_within_capacity(s: SlabState)
    requires
        s.wf(),
    ensures
        s.free.len() <= s.capacity(),
{
    let numbers = s.free.map_values(|a: int| s.index_of(a));
    assert forall|i: int, j: int|
        0 <= i < numbers.len() && 0 <= j < numbers.len() && i != j implies numbers[i]
        != numbers[j] by {
        if numbers[i] == numbers[j] {
            lemma_index_injective(s, s.free[i], s.free[j]);
        }
    }
    numbers.unique_seq_to_set();
    let range = vstd::set_lib::set_int_range(0, s.capacity());
    assert forall|n: int| numbers.to_set().contains(n) implies range.contains(n) by {
        let i = choose|i: int| 0 <= i < numbers.len() && numbers[i] == n;
        lemma_index_of_block(s, s.free[i]);
    }
    vstd::set_lib::lemma_int_range(0, s.capacity());
    vstd::set_lib::lemma_len_subset(numbers.to_set(), range);
}

/// After `n` allocations from a list that holds at least `n` blocks, the
/// first `n` blocks have left the list, and the rest is as it was.
pub proof fn lemma_drain(s: SlabState, n: nat)
    requires
        n <= s.free.len(),
    ensures
        s.drain(n) == (SlabState { free: s.free.skip(n as int), ..s }),
    decreases n,
{
    if n > 0 {
        lemma_drain(s, (n - 1) as nat);
        assert(s.free.skip(n - 1).drop_first() =~= s.free.skip(n as int));
    } else {
        assert(s.free.skip(0) =~= s.free);
    }
}

/// Allocations in a row keep the state well formed.
pub proof fn lemma_drain_keeps_wf(s: SlabState, n: nat)
    requires
        s.wf(),
    ensures
        s.drain(n).wf(),
    decreases n,
{
    if n > 0 {
        lemma_drain_keeps_wf(s, (n - 1) as nat);
        lemma_steps_keep_wf(s.drain((n - 1) as nat), 0);
    }
}

/// Allocations in a row hand out different blocks: no block is handed
/// out twice unless it was given back in between.
pub proof fn lemma_allocations_distinct(s: SlabState, i: nat, j: nat)
    requires
        s.wf(),
        i < j < s.free.len(),
    ensures
        s.drain(i).free.len() > 0,
        s.drain(j).free.len() > 0,
        s.drain(i).free[0] != s.drain(j).free[0],
        s.drain(j).is_allocated(s.drain(i).free[0]),
{
    lemma_drain(s, i);
    lemma_drain(s, j);
    assert(s.is_block(s.free[i as int]));
    assert(s.drain(j).is_block(s.free[i as int]));
    if s.drain(j).free.contains(s.free[i as int]) {
        let rest = s.drain(j).free;
        let k = choose|k: int| 0 <= k < rest.len() && rest[k] == s.free[i as int];
        assert(s.free[j + k] == s.free[i as int]);
    }
}

/// A slab that was just bound to a region of `N` whole blocks serves
/// exactly `N` allocations: allocation number `k` hands out block `k`, and
/// after the last block the list is empty, so that a further allocation
/// finds nothing and changes nothing.
pub proof fn lemma_bound_serves_capacity(block_size: int, start: int, size: int, k: nat)
    requires
        block_size > 0,
    ensures
        ({
            let s = SlabState::bound(block_size, start, size);
            &&& s.free.len() == s.capacity()
            &&& k < s.capacity() ==> s.drain(k).free.len() > 0 && s.drain(k).free[0] == s.block(
                k as int,
            )
            &&& s.drain(s.capacity() as nat).free.len() == 0
            &&& s.drain(s.capacity() as nat).allocate() == s.drain(s.capacity() as nat)
        }),
{
    let s = SlabState::bound(block_size, start, size);
    if k < s.capacity() {
        lemma_drain(s, k);
    }
    lemma_drain(s, s.capacity() as nat);
}

/// The blocks of a slab that was just bound to a region are free, each
/// once, and the state is well formed.
pub proof fn lemma_bound_wf(block_size: int, start: int, size: int)
    requires
        spec_word_size() <= block_size,
        block_size % (spec_word_size() as int) == 0,
        0 < start,
        align_up_spec(start, spec_word_size() as int) <= usize::MAX,
    ensures
        SlabState::bound(block_size, start, size).wf(),
{
    let s = SlabState::bound(block_size, start, size);
    lemma_word_size_valid();
    lemma_align_up_bounds(start, spec_word_size() as int);
    assert forall|i: int| 0 <= i < s.free.len() implies s.is_block(#[trigger] s.free[i]) by {
        lemma_block_of_index(s, i);
    }
    assert forall|i: int, j: int|
        0 <= i < s.free.len() && 0 <= j < s.free.len() && i != j implies s.free[i]
        != s.free[j] by {
        lemma_block_of_index(s, i);
        lemma_block_of_index(s, j);
    }
}

/// A block that is given back is the next one handed out, and handing it
/// out again restores the state from before it was given back.
pub proof fn lemma_dealloc_then_allocate(s: SlabState, addr: int)
    ensures
        s.dealloc(addr).free.len() > 0,
        s.dealloc(addr).free[0] == addr,
        s.dealloc(addr).allocate() == s,
{
    assert((seq![addr] + s.free).drop_first() =~= s.free);
}

/// Allocation and giving back keep the state well formed.
pub proof fn lemma_steps_keep_wf(s: SlabState, addr: int)
    requires
        s.wf(),
    ensures
        s.allocate().wf(),
        s.is_allocated(addr) ==> s.dealloc(addr).wf(),
        s.free.len() > 0 ==> s.allocate().is_allocated(s.free[0]),
{
    let a = s.allocate();
    if s.free.len() > 0 {
        assert forall|i: int| 0 <= i < a.free.len() implies a.free[i] == s.free[i + 1] by {}
        assert(s.capacity() == a.capacity());
        assert forall|i: int| 0 <= i < a.free.len() implies a.is_block(#[trigger] a.free[i]) by {
            assert(s.is_block(s.free[i + 1]));
        }
        assert(s.is_block(s.free[0]));
    }
    if s.is_allocated(addr) {
        let d = s.dealloc(addr);
        assert forall|i: int| 1 <= i < d.free.len() implies d.free[i] == s.free[i - 1] by {}
        assert(s.capacity() == d.capacity());
        assert forall|i: int| 0 <= i < d.free.len() implies d.is_block(#[trigger] d.free[i]) by {
            if i > 0 {
                assert(s.is_block(s.free[i - 1]));
            }
        }
    }
}

/// The slab owns every one of its blocks, and hence every address that an
/// allocation returns; it owns no address outside the closed range from
/// the region start to the region end.
pub proof fn lemma_owns_blocks(s: SlabState, addr: int)
    requires
        s.wf(),
    ensures
        s.is_block(addr) ==> s.owns(addr),
        addr < s.region_start || addr > s.region_end ==> !s.owns(addr),
{
    if s.is_block(addr) {
        lemma_index_of_block(s, addr);
    }
}

/// Whether the list that starts at `head` and goes on through the first
/// words of the blocks, which `links` holds by block number, is the free
/// list of `s`. Zero ends the list.
#[verifier::opaque]
pub open spec fn free_list_in(s: SlabState, links: Seq<usize>, head: usize) -> bool {
    &&& links.len() == s.capacity()
    &&& head == (if s.free.len() == 0 {
        0
    } else {
        s.free[0]
    })
    &&& forall|i: int|
        0 <= i < s.free.len() ==> links[s.index_of(#[trigger] s.free[i])] == (if i + 1
            < s.free.len() {
            s.free[i + 1]
        } else {
            0
        })
}

/// The list that starts at the lowest block and leads from each block to
/// the one above it is the free list of a slab that was just bound.
proof fn lemma_bound_list(
    block_size: int,
    start: int,
    size: int,
    links: Seq<usize>,
    head: usize,
)
    requires
        block_size > 0,
        ({
            let s = SlabState::bound(block_size, start, size);
            &&& links.len() == s.capacity()
            &&& head == (if 0 < s.capacity() {
                s.block(0)
            } else {
                0
            })
            &&& forall|k: int|
                0 <= k < s.capacity() ==> #[trigger] links[k] == (if k + 1 < s.capacity() {
                    s.block(k + 1)
                } else {
                    0
                })
        }),
    ensures
        free_list_in(SlabState::bound(block_size, start, size), links, head),
{
    reveal(free_list_in);
    let s = SlabState::bound(block_size, start, size);
    assert forall|i: int| 0 <= i < s.free.len() implies links[s.index_of(#[trigger] s.free[i])]
        == (if i + 1 < s.free.len() {
        s.free[i + 1]
    } else {
        0
    }) by {
        lemma_block_of_index(s, i);
    }
}

/// The head of a list is zero exactly when the list is empty, and is a
/// block of the region otherwise.
proof fn lemma_head(s: SlabState, links: Seq<usize>, head: usize)
    requires
        s.wf(),
        free_list_in(s, links, head),
    ensures
        head == 0 <==> s.free.len() == 0,
        head != 0 ==> head == s.free[0] && s.is_block(head as int) && 0 <= s.index_of(
            head as int,
        ) < links.len() && s.region_start <= head,
{
    reveal(free_list_in);
    if s.free.len() > 0 {
        assert(s.is_block(s.free[0]));
        lemma_index_of_block(s, s.free[0]);
    }
}

/// Taking the first block off the list leaves the list that starts at the
/// word stored in that block.
proof fn lemma_pop_list(s: SlabState, links: Seq<usize>, head: usize)
    requires
        s.wf(),
        free_list_in(s, links, head),
        s.free.len() > 0,
    ensures
        free_list_in(s.allocate(), links, links[s.index_of(head as int)]),
{
    reveal(free_list_in);
    let t = s.allocate();
    assert(s.capacity() == t.capacity());
    assert(links[s.index_of(s.free[0])] == (if 1 < s.free.len() {
        s.free[1]
    } else {
        0
    }));
    assert forall|i: int| 0 <= i < t.free.len() implies links[t.index_of(#[trigger] t.free[i])]
        == (if i + 1 < t.free.len() {
        t.free[i + 1]
    } else {
        0
    }) by {
        assert(t.free[i] == s.free[i + 1]);
        assert(links[s.index_of(s.free[i + 1])] == (if i + 2 < s.free.len() {
            s.free[i + 2]
        } else {
            0
        }));
        if i + 1 < t.free.len() {
            assert(t.free[i + 1] == s.free[i + 2]);
        }
    }
}

/// Storing the old head in a block that is handed out and making that
/// block the head puts it at the front of the list.
proof fn lemma_push_list(s: SlabState, links: Seq<usize>, head: usize, ptr: usize)
    requires
        s.wf(),
        free_list_in(s, links, head),
        s.is_allocated(ptr as int),
    ensures
        0 <= s.index_of(ptr as int) < links.len(),
        free_list_in(s.dealloc(ptr as int), links.update(s.index_of(ptr as int), head), ptr),
{
    reveal(free_list_in);
    let t = s.dealloc(ptr as int);
    let index = s.index_of(ptr as int);
    let updated = links.update(index, head);
    lemma_index_of_block(s, ptr as int);
    assert(s.capacity() == t.capacity());
    assert(t.free[0] == ptr);
    assert forall|i: int| 0 <= i < t.free.len() implies updated[t.index_of(#[trigger] t.free[i])]
        == (if i + 1 < t.free.len() {
        t.free[i + 1]
    } else {
        0
    }) by {
        if i == 0 {
            if 1 < t.free.len() {
                assert(t.free[1] == s.free[0]);
            }
        } else {
            assert(t.free[i] == s.free[i - 1]);
            assert(s.is_block(s.free[i - 1]));
            lemma_index_of_block(s, s.free[i - 1]);
            if s.index_of(s.free[i - 1]) == index {
                lemma_index_injective(s, s.free[i - 1], ptr as int);
            }
            assert(links[s.index_of(s.free[i - 1])] == (if i < s.free.len() {
                s.free[i]
            } else {
                0
            }));
            if i + 1 < t.free.len() {
                assert(t.free[i + 1] == s.free[i]);
            }
        }
    }
}

/// A fixed-block-size allocator over one region.
pub struct Slab {
    block_size: usize,
    head: usize,
    region_start: usize,
    region_end: usize,
    /// The first word of each block, by block number.
    links: Vec<usize>,
    /// The addresses of the free blocks, in the order of the list.
    free: Ghost<Seq<int>>,
}

impl View for Slab {
    type V = SlabState;

    closed spec fn view(&self) -> SlabState {
        SlabState {
            block_size: self.block_size as int,
            region_start: self.region_start as int,
            region_end: self.region_end as int,
            free: self.free@,
        }
    }
}

impl Slab {
    /// The list that starts at `head` and follows the first words of the
    /// blocks is the free list.
    pub closed spec fn linked(&self) -> bool {
        free_list_in(self@, self.links@, self.head)
    }

    /// The state is well formed and the linked list represents it.
    pub open spec fn wf(&self) -> bool {
        self@.wf() && self.linked()
    }

    /// A slab with blocks of at least `block_size` bytes, bound to no
    /// region yet.
    pub fn new_rounded(block_size: usize) -> (slab: Self)
        requires
            rounded_block_size(block_size as int) <= usize::MAX,
        ensures
            slab@ == SlabState::inert(rounded_block_size(block_size as int)),
            slab.wf(),
    {
        let min_size = word_size();
        let size = if block_size > min_size {
            block_size
        } else {
            min_size
        };
        let align = word_size();
        proof {
            lemma_word_size_valid();
            lemma_align_up_bounds(size as int, align as int);
        }
        let block_size = align_slab_up(size, align);
        let slab = Self {
            block_size,
            head: 0,
            region_start: 0,
            region_end: 0,
            links: Vec::new(),
            free: Ghost(Seq::empty()),
        };
        proof {
            reveal(free_list_in);
        }
        slab
    }

    /// Binds the slab to the `size` bytes at `start` and makes every whole
    /// block of the region free. The blocks are put on the free list from
    /// the highest address down, so that the lowest one is handed out first.
    pub fn init_region(&mut self, start: usize, size: usize)
        requires
            old(self).wf(),
            old(self)@ == SlabState::inert(old(self)@.block_size),
            start != 0,
            align_up_spec(start as int, spec_word_size() as int) <= usize::MAX,
        ensures
            final(self)@ == SlabState::bound(old(self)@.block_size, start as int, size as int),
            final(self).wf(),
    {
        proof {
            lemma_word_size_valid();
            lemma_align_up_bounds(start as int, spec_word_size() as int);
        }
        let end = start.saturating_add(size);
        let region_start = align_up(start, word_size());
        let region_end = end;
        self.region_start = region_start;
        self.region_end = region_end;
        let block_size = self.block_size;
        let count = if region_start <= region_end {
            (region_end - region_start) / block_size
        } else {
            0
        };
        let ghost target = SlabState::bound(block_size as int, start as int, size as int);
        assert(target.capacity() == count);

        let mut links: Vec<usize> = Vec::new();
        let mut filled: usize = 0;
        while filled < count
            invariant
                filled <= count,
                links@.len() == filled,
            decreases count - filled,
        {
            links.push(0);
            filled += 1;
        }

        // Thread the blocks from the highest address down.
        let mut head: usize = 0;
        let mut i: usize = count;
        while i > 0
            invariant
                i <= count,
                count == target.capacity(),
                block_size == target.block_size,
                region_start == target.region_start,
                target.region_end <= usize::MAX,
                block_size > 0,
                links@.len() == count,
                head == (if i < count {
                    target.block(i as int)
                } else {
                    0
                }),
                forall|k: int|
                    i <= k < count ==> #[trigger] links@[k] == (if k + 1 < count {
                        target.block(k + 1)
                    } else {
                        0
                    }),
            decreases i,
        {
            i -= 1;
            proof {
                lemma_block_of_index(target, i as int);
                assert(0 <= i * block_size) by (nonlinear_arith);
            }
            let cursor = region_start + i * block_size;
            links.set(i, head);
            head = cursor;
        }
        self.links = links;
        self.head = head;
        self.free = Ghost(target.free);
        proof {
            assert(self@ == target);
            lemma_bound_wf(block_size as int, start as int, size as int);
            lemma_bound_list(block_size as int, start as int, size as int, self.links@, head);
        }
    }

    /// Takes the first block off the free list. Returns its address, or
    /// `None` when no block is free.
    pub fn allocate(&mut self) -> (r: Option<usize>)
        requires
            old(self).wf(),
        ensures
            final(self).wf(),
            final(self)@ == old(self)@.allocate(),
            r is Some <==> old(self)@.free.len() > 0,
            r matches Some(addr) ==> addr == old(self)@.free[0] && final(self)@.is_allocated(
                addr as int,
            ),
    {
        let head = self.head;
        proof {
            lemma_head(self@, self.links@, head);
            lemma_steps_keep_wf(self@, 0);
        }
        if head == 0 {
            return None;
        }
        proof {
            lemma_pop_list(self@, self.links@, head);
        }
        let next = self.links[(head - self.region_start) / self.block_size];
        self.head = next;
        self.free = Ghost(self.free@.drop_first());
        Some(head)
    }

    /// Puts the block at `ptr` back at the front of the free list, so that
    /// it is the next one handed out. The block must be one that is handed
    /// out at present.
    pub fn dealloc(&mut self, ptr: usize)
        requires
            old(self).wf(),
            old(self)@.is_allocated(ptr as int),
        ensures
            final(self).wf(),
            final(self)@ == old(self)@.dealloc(ptr as int),
    {
        proof {
            lemma_index_of_block(self@, ptr as int);
            lemma_push_list(self@, self.links@, self.head, ptr);
            lemma_steps_keep_wf(self@, ptr as int);
        }
        let index = (ptr - self.region_start) / self.block_size;
        self.links.set(index, self.head);
        self.head = ptr;
        self.free = Ghost(seq![ptr as int] + self.free@);
    }

    /// Whether `p` lies in the address range of the region, both ends
    /// included.
    pub fn owns(&self, p: usize) -> (r: bool)
        ensures
            r == self@.owns(p as int),
    {
        p >= self.region_start && p <= self.region_end
    }

    /// The size of the slab's blocks in bytes.
    pub fn block_size(&self) -> (r: usize)
        ensures
            r == self@.block_size,
    {
        self.block_size
    }

    /// Counts the free blocks by walking the list.
    pub fn debug_count_free(&self) -> (count: usize)
        requires
            self.wf(),
        ensures
            count == self@.free.len(),
    {
        proof {
            lemma_free_within_capacity(self@);
        }
        let mut count: usize = 0;
        let mut head = self.head;
        assert(self@.free.skip(0) =~= self@.free);
        while head != 0
            invariant
                self.wf(),
                self@.free.len() <= self@.capacity(),
                count <= self@.free.len(),
                free_list_in(
                    SlabState { free: self@.free.skip(count as int), ..self@ },
                    self.links@,
                    head,
                ),
            decreases self@.free.len() - count,
        {
            proof {
                let rest = SlabState { free: self@.free.skip(count as int), ..self@ };
                lemma_drain(self@, count as nat);
                lemma_drain_keeps_wf(self@, count as nat);
                lemma_head(rest, self.links@, head);
                lemma_pop_list(rest, self.links@, head);
                assert(rest.free.drop_first() =~= self@.free.skip(count + 1));
            }
            head = self.links[(head - self.region_start) / self.block_size];
            count += 1;
        }
        proof {
            let rest = SlabState { free: self@.free.skip(count as int), ..self@ };
            lemma_drain(self@, count as nat);
            lemma_drain_keeps_wf(self@, count as nat);
            lemma_head(rest, self.links@, head);
        }
        count
    }
}

} // verus!
