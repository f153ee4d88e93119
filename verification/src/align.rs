//! Rounding addresses up to power-of-two boundaries.

use vstd::arithmetic::div_mod::{
    lemma_fundamental_div_mod, lemma_fundamental_div_mod_converse, lemma_mod_multiples_basic,
};
use vstd::arithmetic::power2::is_pow2;
use vstd::prelude::*;

verus! {

/// The number of bytes in a machine word.
pub open spec fn spec_word_size() -> usize {
    (usize::BITS / 8) as usize
}

/// The number of bytes in a machine word.
#[verifier::when_used_as_spec(spec_word_size)]
pub fn word_size() -> (w: usize)
    ensures
        w == spec_word_size(),
        w == 4 || w == 8,
{
    broadcast use vstd::layout::layout_of_primitives;

    core::mem::size_of::<usize>()
}

/// An alignment is either absent (zero) or a power of two.
pub open spec fn valid_align(align: usize) -> bool {
    align == 0 || is_pow2(align as int)
}

/// The least multiple of `align` that is not below `addr`; `addr` itself
/// when `align` is zero.
pub open spec fn align_up_spec(addr: int, align: int) -> int {
    if align <= 0 {
        addr
    } else {
        ((addr + align - 1) / align) * align
    }
}

/// `align_up_spec` is a multiple of the alignment, is not below the address,
/// and lies less than one alignment above it.
pub proof fn lemma_align_up_bounds(addr: int, align: int)
    requires
        0 <= addr,
        0 < align,
    ensures
        addr <= align_up_spec(addr, align) < addr + align,
        align_up_spec(addr, align) % align == 0,
{
    let x = addr + align - 1;
    lemma_fundamental_div_mod(x, align);
    assert((x / align) * align == align * (x / align)) by (nonlinear_arith);
    assert(0 <= x % align < align) by (nonlinear_arith)
        requires
            0 < align,
    ;
    lemma_mod_multiples_basic(x / align, align);
}

/// No multiple of the alignment lies between the address and
/// `align_up_spec`: the rounded address is the least one.
pub proof fn lemma_align_up_least(addr: int, align: int, m: int)
    requires
        0 <= addr,
        0 < align,
        addr <= m,
        m % align == 0,
    ensures
        align_up_spec(addr, align) <= m,
{
    lemma_align_up_bounds(addr, align);
    let r = align_up_spec(addr, align);
    if m < r {
        lemma_fundamental_div_mod(m, align);
        lemma_fundamental_div_mod(r, align);
        let qm = m / align;
        let qr = r / align;
        assert(qm < qr) by (nonlinear_arith)
            requires
                align * qm < align * qr,
                0 < align,
        ;
        assert(align * qr - align * qm >= align) by (nonlinear_arith)
            requires
                qm < qr,
                0 < align,
        ;
    }
}

/// An address that is a multiple of the alignment is its own rounding.
pub proof fn lemma_align_up_aligned(addr: int, align: int)
    requires
        0 <= addr,
        0 < align,
        addr % align == 0,
    ensures
        align_up_spec(addr, align) == addr,
{
    lemma_align_up_bounds(addr, align);
    lemma_align_up_least(addr, align, addr);
}

/// When the rounded address fits a machine word, so does the sum that the
/// mask is applied to.
pub proof fn lemma_align_up_fits(addr: int, align: int)
    requires
        0 <= addr <= usize::MAX,
        is_pow2(align),
        align <= usize::MAX,
        align_up_spec(addr, align) <= usize::MAX,
    ensures
        addr + align - 1 <= usize::MAX,
{
    reveal(is_pow2);
    lemma_pow2_divides_word_range(align);
    lemma_align_up_bounds(addr, align);
    let r = align_up_spec(addr, align);
    let top = usize::MAX + 1;
    if addr + align - 1 > usize::MAX {
        // `r` would lie strictly between two neighbouring multiples.
        lemma_fundamental_div_mod(r, align);
        lemma_fundamental_div_mod(top, align);
        let qr = r / align;
        let qt = top / align;
        assert(false) by (nonlinear_arith)
            requires
                0 < align,
                r == align * qr,
                top == align * qt,
                top - align < r < top,
        ;
    }
}

/// Of two powers of two, the smaller divides the larger.
pub proof fn lemma_pow2_divides(a: int, b: int)
    requires
        is_pow2(a),
        is_pow2(b),
        a <= b,
    ensures
        b % a == 0,
    decreases a,
{
    reveal(is_pow2);
    if a == 1 {
        assert(b % 1 == 0);
    } else {
        lemma_pow2_divides(a / 2, b / 2);
        let ha = a / 2;
        let hb = b / 2;
        lemma_fundamental_div_mod(hb, ha);
        let k = hb / ha;
        assert(b == k * a) by (nonlinear_arith)
            requires
                b == 2 * hb,
                a == 2 * ha,
                hb == ha * k,
        ;
        lemma_mod_multiples_basic(k, a);
    }
}

/// The number of addresses in a machine word is a multiple of every
/// power of two that fits one.
proof fn lemma_pow2_divides_word_range(align: int)
    requires
        is_pow2(align),
        align <= usize::MAX,
    ensures
        (usize::MAX + 1) % align == 0,
{
    vstd::layout::unsigned_int_max_values();
    vstd::arithmetic::power::lemma_pow_positive(2, usize::BITS as nat);
    let top: int = usize::MAX + 1;
    assert(vstd::arithmetic::power::pow(2, usize::BITS as nat) == top);
    assert(vstd::arithmetic::power2::is_pow2_exists(top));
    vstd::arithmetic::power2::is_pow2_equiv(top);
    lemma_pow2_divides(align, top);
}

/// A power of two shares no set bit with its predecessor.
proof fn lemma_pow2_single_bit(a: usize)
    requires
        is_pow2(a as int),
    ensures
        a > 0,
        a & ((a - 1) as usize) == 0,
    decreases a,
{
    reveal(is_pow2);
    if a == 1 {
        assert(1usize & 0usize == 0) by (bit_vector);
    } else {
        let h = (a / 2) as usize;
        lemma_pow2_single_bit(h);
        assert(a & ((a - 1) as usize) == 0) by (bit_vector)
            requires
                h > 0,
                a == 2 * h,
                h & ((h - 1) as usize) == 0,
        ;
    }
}

/// Clearing the bits below a power of two leaves a multiple of it.
proof fn lemma_mask_multiple(x: usize, a: usize)
    requires
        is_pow2(a as int),
    ensures
        (x & !((a - 1) as usize)) % a == 0,
    decreases a,
{
    reveal(is_pow2);
    if a == 1 {
        assert((x & !0usize) % 1 == 0);
    } else {
        let h = (a / 2) as usize;
        let y = (x / 2) as usize;
        lemma_mask_multiple(y, h);
        let ry = y & !((h - 1) as usize);
        let rx = x & !((a - 1) as usize);
        lemma_pow2_single_bit(h);
        assert(rx == 2 * ry) by (bit_vector)
            requires
                h > 0,
                a == 2 * h,
                h & ((h - 1) as usize) == 0,
                y == x / 2,
                ry == y & !((h - 1) as usize),
                rx == x & !((a - 1) as usize),
        ;
        lemma_fundamental_div_mod(ry as int, h as int);
        let k = ry as int / h as int;
        assert(rx == k * a) by (nonlinear_arith)
            requires
                rx == 2 * ry,
                a == 2 * h,
                ry == h * k,
        ;
        lemma_mod_multiples_basic(k, a as int);
    }
}

/// Clearing the low bits of `addr + (align - 1)` rounds `addr` up to the
/// power-of-two alignment.
pub proof fn lemma_mask_rounds_up(addr: usize, align: usize)
    requires
        is_pow2(align as int),
        addr + (align - 1) <= usize::MAX,
    ensures
        ((addr + (align - 1)) as usize) & !((align - 1) as usize) == align_up_spec(
            addr as int,
            align as int,
        ),
{
    reveal(is_pow2);
    let x = (addr + (align - 1)) as usize;
    let m = (align - 1) as usize;
    let r = x & !m;
    assert(r <= x && x - r <= m) by (bit_vector)
        requires
            r == x & !m,
    ;
    lemma_mask_multiple(x, align);
    lemma_fundamental_div_mod(r as int, align as int);
    let q = r as int / align as int;
    assert(x == q * align + (x - r)) by (nonlinear_arith)
        requires
            r == align * q,
    ;
    lemma_fundamental_div_mod_converse(x as int, align as int, q, x - r);
}

/// The word size is a power of two.
pub proof fn lemma_word_size_valid()
    ensures
        is_pow2(spec_word_size() as int),
        spec_word_size() == 4 || spec_word_size() == 8,
{
    reveal_with_fuel(is_pow2, 4);
}

} // verus!
