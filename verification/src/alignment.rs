//! Address-alignment arithmetic shared by the byte and page cursors:
//! rounding an address up or down to a power-of-two boundary, and the
//! facts connecting the executable mask tricks to their mathematical
//! meaning.

use vstd::prelude::*;

verus! {

use vstd::arithmetic::div_mod::{
    lemma_fundamental_div_mod,
    lemma_mod_bound,
    lemma_mod_multiples_basic,
    lemma_small_mod,
    lemma_sub_mod_noop,
};
use vstd::arithmetic::power2::{lemma_pow2_pos, pow2};
use vstd::bits::{
    lemma_usize_low_bits_mask_is_mod,
    lemma_usize_pow2_no_overflow,
    low_bits_mask,
};

/// A valid alignment: a power of two that fits in an address word.
pub open spec fn is_power_of_two(a: usize) -> bool {
    exists|k: nat| k < usize::BITS && a == pow2(k)
}

/// The smallest multiple of `align` that is at or above `pos`.
pub open spec fn align_up(pos: int, align: int) -> int {
    if pos % align == 0 {
        pos
    } else {
        pos + align - pos % align
    }
}

/// The largest multiple of `align` that is at or below `pos`.
pub open spec fn align_down(pos: int, align: int) -> int {
    pos - pos % align
}

/// Powers of two are positive.
pub proof fn lemma_power_of_two_pos(a: usize)
    requires
        is_power_of_two(a),
    ensures
        a >= 1,
{
    let k = choose|k: nat| k < usize::BITS && a == pow2(k);
    lemma_pow2_pos(k);
}

/// Every power of two with a representable exponent is a valid alignment.
pub proof fn lemma_pow2_is_power_of_two(k: nat)
    requires
        k < usize::BITS,
    ensures
        is_power_of_two(pow2(k) as usize),
{
    lemma_usize_pow2_no_overflow(k);
    assert(pow2(k) as usize == pow2(k));
}

/// Two multiples of `align` within less than one `align` of each other
/// are the same multiple.
proof fn lemma_close_multiples_equal(a: int, b: int, align: int)
    requires
        0 < align,
        a % align == 0,
        b % align == 0,
        a <= b,
        b - a < align,
    ensures
        a == b,
{
    lemma_sub_mod_noop(b, a, align);
    lemma_small_mod(0nat, align as nat);
    lemma_small_mod((b - a) as nat, align as nat);
}

/// Rounding up lands on a multiple of `align`, no earlier than `pos` and
/// less than one whole `align` past it.
pub proof fn lemma_align_up_properties(pos: int, align: int)
    requires
        0 < align,
        0 <= pos,
    ensures
        align_up(pos, align) % align == 0,
        pos <= align_up(pos, align) < pos + align,
{
    lemma_mod_bound(pos, align);
    if pos % align != 0 {
        lemma_fundamental_div_mod(pos, align);
        assert(align_up(pos, align) == (pos / align + 1) * align) by (nonlinear_arith)
            requires
                pos == align * (pos / align) + pos % align,
                pos % align != 0,
                0 < align,
        ;
        lemma_mod_multiples_basic(pos / align + 1, align);
    }
}

/// Rounding down lands on a multiple of `align`, no later than `pos` and
/// less than one whole `align` before it.
pub proof fn lemma_align_down_properties(pos: int, align: int)
    requires
        0 < align,
        0 <= pos,
    ensures
        align_down(pos, align) % align == 0,
        align_down(pos, align) <= pos < align_down(pos, align) + align,
        0 <= align_down(pos, align),
{
    lemma_mod_bound(pos, align);
    lemma_fundamental_div_mod(pos, align);
    lemma_mod_multiples_basic(pos / align, align);
    assert(align_down(pos, align) == (pos / align) * align);
}

/// A multiple of `align` lying within one `align` above `pos` is exactly
/// the rounded-up address: rounding up is uniquely characterized.
pub proof fn lemma_align_up_unique(m: int, pos: int, align: int)
    requires
        0 < align,
        0 <= pos,
        m % align == 0,
        pos <= m < pos + align,
    ensures
        m == align_up(pos, align),
{
    lemma_align_up_properties(pos, align);
    let u = align_up(pos, align);
    if m <= u {
        lemma_close_multiples_equal(m, u, align);
    } else {
        lemma_close_multiples_equal(u, m, align);
    }
}

/// A multiple of `align` lying at most one `align` below `pos` is exactly
/// the rounded-down address.
pub proof fn lemma_align_down_unique(m: int, pos: int, align: int)
    requires
        0 < align,
        0 <= pos,
        m % align == 0,
        m <= pos < m + align,
    ensures
        m == align_down(pos, align),
{
    lemma_align_down_properties(pos, align);
    let d = align_down(pos, align);
    if m <= d {
        lemma_close_multiples_equal(m, d, align);
    } else {
        lemma_close_multiples_equal(d, m, align);
    }
}

/// Rounding `pos` up is the same as rounding `pos + align - 1` down.
pub proof fn lemma_align_up_as_down(pos: int, align: int)
    requires
        0 < align,
        0 <= pos,
    ensures
        align_up(pos, align) == align_down(pos + align - 1, align),
{
    lemma_align_down_properties(pos + align - 1, align);
    lemma_align_up_unique(align_down(pos + align - 1, align), pos, align);
}

/// The bits kept and the bits cleared by a mask split a word in two.
proof fn lemma_mask_partition(x: usize, m: usize)
    by (bit_vector)
    ensures
        (x & !m) + (x & m) == x,
        x & !m <= x,
{
}

/// Clearing the low bits of an address with the mask `align - 1` rounds
/// it down to the alignment: the executable mask trick computes
/// `align_down`.
pub proof fn lemma_mask_is_align_down(x: usize, align: usize)
    requires
        is_power_of_two(align),
    ensures
        x & !((align - 1) as usize) == align_down(x as int, align as int),
{
    let k = choose|k: nat| k < usize::BITS && align == pow2(k);
    lemma_usize_pow2_no_overflow(k);
    assert(low_bits_mask(k) == pow2(k) - 1);
    lemma_usize_low_bits_mask_is_mod(x, k);
    lemma_mask_partition(x, (align - 1) as usize);
}

} // verus!
