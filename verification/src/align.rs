//! Rounding an address up to an alignment.
use vstd::arithmetic::div_mod::{lemma_fundamental_div_mod, lemma_fundamental_div_mod_converse};
use vstd::arithmetic::power::pow;
use vstd::arithmetic::power2::{
    is_pow2, is_pow2_equiv, lemma2_to64_rest, lemma_pow2_strictly_increases, pow2,
};
use vstd::bits::{lemma_u64_low_bits_mask_is_mod, low_bits_mask};
use vstd::prelude::*;

verus! {

/// `addr` rounded up by the mask of `align`: exact for every `align >= 1`,
/// and the least multiple of `align` at or above `addr` where `align` is a
/// power of two.
pub open spec fn align_up_spec(addr: usize, align: usize) -> usize {
    ((addr + align - 1) as usize) & !((align - 1) as usize)
}

/// The least multiple of `align` at or above `addr`.
pub open spec fn next_multiple(addr: int, align: int) -> int {
    ((addr + align - 1) / align) * align
}

/// Clearing the bits of a mask takes away at most the mask.
proof fn lemma_mask_bounds(sum: usize, mask: usize)
    by (bit_vector)
    requires
        mask <= sum,
    ensures
        sum - mask <= sum & !mask <= sum,
{
}

/// What is left after clearing the bits of a mask has none of them.
proof fn lemma_mask_clears(sum: u64, mask: u64)
    by (bit_vector)
    ensures
        (sum & !mask) & mask == 0,
{
}

/// Clearing the low twelve bits rounds down to a page.
proof fn lemma_mask_page(sum: usize)
    by (bit_vector)
    ensures
        sum & !4095usize == (sum / 4096) * 4096,
{
}

/// The rounded address is at or above `addr` and less than `align` above it.
pub proof fn lemma_align_up_bounds(addr: usize, align: usize)
    requires
        align >= 1,
        addr + align - 1 <= usize::MAX,
    ensures
        addr <= align_up_spec(addr, align) <= addr + align - 1,
{
    lemma_mask_bounds((addr + align - 1) as usize, (align - 1) as usize);
}

/// For a power of two, rounding up by the mask gives the least multiple of
/// `align` at or above `addr`.
pub proof fn lemma_align_up_power_of_two(addr: usize, align: usize)
    requires
        is_pow2(align as int),
        addr + align - 1 <= usize::MAX,
    ensures
        align_up_spec(addr, align) % align == 0,
        align_up_spec(addr, align) == next_multiple(addr as int, align as int),
{
    let sum = (addr + align - 1) as usize;
    let mask = (align - 1) as usize;
    let r = align_up_spec(addr, align);
    reveal(is_pow2);
    lemma_align_up_bounds(addr, align);
    is_pow2_equiv(align as int);
    let n = choose|n: nat| pow(2, n) == align as int;
    assert(pow2(n) == align);
    assert(n < 64) by {
        lemma2_to64_rest();
        if n > 64 {
            lemma_pow2_strictly_increases(64, n);
        }
    }
    assert(low_bits_mask(n) == mask);
    assert((r as u64) & (mask as u64) == 0) by {
        lemma_mask_clears(sum as u64, mask as u64);
        assert(r as u64 == (sum as u64) & !(mask as u64)) by (bit_vector)
            requires
                r == sum & !mask,
        ;
    }
    lemma_u64_low_bits_mask_is_mod(r as u64, n);
    assert(r as int % align as int == 0);
    let a = align as int;
    let q = r as int / a;
    assert(r == q * a) by {
        lemma_fundamental_div_mod(r as int, a);
        assert(a * q == q * a) by (nonlinear_arith);
    }
    assert((addr + a - 1) / a == q) by {
        lemma_fundamental_div_mod_converse(addr + a - 1, a, q, addr + a - 1 - r);
    }
}

/// The alignments from 1 to 4096 that have one bit set are powers of two.
pub proof fn lemma_usual_alignments()
    ensures
        is_pow2(1),
        is_pow2(2),
        is_pow2(4),
        is_pow2(8),
        is_pow2(16),
        is_pow2(32),
        is_pow2(64),
        is_pow2(128),
        is_pow2(256),
        is_pow2(512),
        is_pow2(1024),
        is_pow2(2048),
        is_pow2(4096),
{
    reveal_with_fuel(is_pow2, 14);
}

/// For 4096, rounding up by the mask is rounding up to a whole page.
pub proof fn lemma_align_up_page(addr: usize)
    requires
        addr + 4095 <= usize::MAX,
    ensures
        align_up_spec(addr, 4096) == ((addr + 4095) / 4096) * 4096,
{
    lemma_mask_page((addr + 4095) as usize);
}

/// Rounds `addr` up by the mask of `align`.
pub fn align_up(addr: usize, align: usize) -> (r: usize)
    requires
        align >= 1,
        addr + align - 1 <= usize::MAX,
    ensures
        r == align_up_spec(addr, align),
        addr <= r <= addr + align - 1,
{
    proof {
        lemma_align_up_bounds(addr, align);
    }
    (addr + (align - 1)) & !(align - 1)
}

} // verus!
