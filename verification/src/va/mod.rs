pub mod bitmap;
pub mod bootstrap;
pub mod rng;
pub mod space;

use vstd::bits::{low_bits_mask, lemma_u64_low_bits_mask_is_mod, lemma_u64_pow2_no_overflow, lemma_u64_shl_is_mul};
use vstd::arithmetic::power2::pow2;
use vstd::prelude::*;

verus! {

/// `a` is a power of two.
pub open spec fn is_pow2(a: u64) -> bool {
    a != 0 && a & ((a - 1) as u64) == 0
}

/// Pages and huge pages are powers of two.
pub proof fn lemma_page_units_pow2()
    ensures
        is_pow2(4096),
        is_pow2(2097152),
{
    assert(is_pow2(4096)) by (bit_vector);
    assert(is_pow2(2097152)) by (bit_vector);
}

/// What `align_to` computes: `size + align - 1` with the bits below `align` cleared.
pub open spec fn aligned_up(size: u64, align: u64) -> u64 {
    ((size + align - 1) as u64) & !((align - 1) as u64)
}

/// Every power of two in a `u64` is `1 << n` for some `n < 64`.
proof fn lemma_pow2_is_shift(a: u64) -> (n: u64)
    requires
        is_pow2(a),
    ensures
        n < 64,
        a == 1u64 << n,
    decreases a,
{
    if a == 1 {
        assert(1u64 << 0u64 == 1u64) by (bit_vector);
        0
    } else {
        let h = a >> 1u64;
        assert(h != 0 && h & ((h - 1) as u64) == 0 && h < a && a == h << 1u64
            && h < 0x8000_0000_0000_0000u64) by (bit_vector)
            requires
                a != 0,
                a != 1,
                a & ((a - 1) as u64) == 0,
                h == a >> 1u64,
        ;
        let m = lemma_pow2_is_shift(h);
        assert(m < 63 && a == 1u64 << ((m + 1) as u64)) by (bit_vector)
            requires
                m < 64,
                h == 1u64 << m,
                h < 0x8000_0000_0000_0000u64,
                a == h << 1u64,
        ;
        (m + 1) as u64
    }
}

/// A word whose bits below the power of two `a` are clear is a multiple of `a`.
pub proof fn lemma_low_bits_zero_mod(x: u64, a: u64)
    requires
        is_pow2(a),
        x & ((a - 1) as u64) == 0,
    ensures
        x % a == 0,
{
    let n = lemma_pow2_is_shift(a);
    lemma_u64_pow2_no_overflow(n as nat);
    lemma_u64_shl_is_mul(1u64, n);
    lemma_u64_low_bits_mask_is_mod(x, n as nat);
    assert(low_bits_mask(n as nat) == a - 1);
}

/// Rounds `size` up to the next multiple of `align`: `(size + align - 1) & !(align - 1)`.
/// For a power of two `align` this is the least multiple of `align` that is at least `size`.
pub fn align_to(size: u64, align: u64) -> (r: u64)
    requires
        align > 0,
        size + align - 1 <= u64::MAX,
    ensures
        r == aligned_up(size, align),
        is_pow2(align) ==> r % align == 0 && size <= r < size + align,
{
    let al = align - 1;
    let sum = size + al;
    let r = sum & !al;
    if align & al == 0 {
        assert(size <= r && r < size + align) by (bit_vector)
            requires
                align != 0,
                align & al == 0,
                al == align - 1,
                sum == size + al,
                r == sum & !al,
        ;
        assert(r & al == 0) by (bit_vector)
            requires
                r == sum & !al,
        ;
        proof {
            lemma_low_bits_zero_mod(r, align);
        }
    }
    r
}

} // verus!
