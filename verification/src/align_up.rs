//! Rounding a byte count up to the next multiple of an alignment.

use vstd::prelude::*;
use vstd::arithmetic::div_mod::{
    lemma_fundamental_div_mod, lemma_mod_division_less_than_divisor, lemma_mod_multiples_basic,
};
use vstd::arithmetic::mul::lemma_mul_is_commutative;
use vstd::arithmetic::power2::pow2;
use vstd::bits::{lemma_usize_low_bits_mask_is_mod, low_bits_mask};

verus! {

/// What `align_up` computes: the least multiple of `align` that is `>= x`.
pub open spec fn spec_align_up(x: int, align: int) -> int {
    ((x + align - 1) / align) * align
}

/// The rounded value is a multiple of the alignment and lies in `[x, x + align)`.
pub proof fn lemma_align_up_props(x: int, align: int)
    requires
        0 <= x,
        0 < align,
    ensures
        spec_align_up(x, align) % align == 0,
        x <= spec_align_up(x, align) < x + align,
{
    let y = x + align - 1;
    lemma_mod_multiples_basic(y / align, align);
    lemma_fundamental_div_mod(y, align);
    lemma_mod_division_less_than_divisor(y, align);
    assert(spec_align_up(x, align) == y - y % align);
}

/// Round `x` up to the next multiple of `align`, which must be a power of two.
pub fn align_up(x: usize, align: usize) -> (r: usize)
    requires
        exists|k: nat| k < usize::BITS && align == pow2(k),
        x + align <= usize::MAX,
    ensures
        r == spec_align_up(x as int, align as int),
        r % align == 0,
        x <= r < x + align,
{
    proof {
        let k = choose|k: nat| k < usize::BITS && align == pow2(k);
        vstd::arithmetic::power2::lemma_pow2_pos(k);
    }
    let y: usize = x + align - 1;
    let m: usize = align - 1;
    proof {
        let k = choose|k: nat| k < usize::BITS && align == pow2(k);
        lemma_align_up_props(x as int, align as int);
        lemma_fundamental_div_mod(y as int, align as int);
        lemma_usize_low_bits_mask_is_mod(y, k);
        assert(m == low_bits_mask(k) as usize);
        assert(y % align == y & m);
        assert(y & !m == y - (y & m)) by (bit_vector);
        lemma_mul_is_commutative(align as int, y as int / align as int);
        assert((y / align) * align == y - y % align);
    }
    y & !m
}

} // verus!
