//! Start-up settings and random values.
use crate::trim::TimeDecay;
use crate::va::space::{DEFAULT_MAX_RESERVATION, MAX_RESERVATION_CAP};
use vstd::prelude::*;

verus! {

/// Least trim threshold that can be configured: 1 MiB.
pub const MIN_TRIM_THRESHOLD: u64 = 1048576;

/// The least power of two from `p` on (doubling) that is at least `v`.
pub open spec fn next_pow2_from(p: nat, v: nat) -> nat
    decreases v - p,
{
    if p >= v || p == 0 { p } else if 2 * p >= v { 2 * p } else { next_pow2_from(2 * p, v) }
}

/// The size of the first reservations for a configured `val`: the next
/// power of two, kept between 16 GiB and 256 TiB (16 GiB when the power
/// of two overflows).
pub open spec fn reservation_for(val: u64) -> u64 {
    let p = next_pow2_from(1, val as nat);
    let q = if p > u64::MAX { DEFAULT_MAX_RESERVATION as nat } else { p };
    if q < DEFAULT_MAX_RESERVATION { DEFAULT_MAX_RESERVATION } else if q > MAX_RESERVATION_CAP { MAX_RESERVATION_CAP } else { q as u64 }
}

/// The size of the first reservations for the setting `val`.
pub fn init_reverse(val: u64) -> (r: u64)
    ensures
        r == reservation_for(val),
        DEFAULT_MAX_RESERVATION <= r <= MAX_RESERVATION_CAP,
{
    let mut p: u64 = 1;
    let mut overflow = false;
    while !overflow && p < val
        invariant
            p >= 1,
            !overflow ==> next_pow2_from(p as nat, val as nat) == next_pow2_from(1, val as nat),
            overflow ==> next_pow2_from(1, val as nat) > u64::MAX,
        decreases (if p < val { val - p } else { 0int }) + (if overflow { 0int } else { 1int }),
    {
        if p > u64::MAX / 2 {
            proof {
                if 2 * p < val {
                    assert(next_pow2_from(p as nat, val as nat) == next_pow2_from(2 * p as nat, val as nat));
                    lemma_pow2_from_ge(2 * p as nat, val as nat);
                }
            }
            overflow = true;
        } else {
            p = p * 2;
        }
    }
    proof {
        if !overflow {
            assert(next_pow2_from(p as nat, val as nat) == p);
        }
    }
    let q = if overflow { DEFAULT_MAX_RESERVATION } else { p };
    if q < DEFAULT_MAX_RESERVATION {
        DEFAULT_MAX_RESERVATION
    } else if q > MAX_RESERVATION_CAP {
        MAX_RESERVATION_CAP
    } else {
        q
    }
}

proof fn lemma_pow2_from_ge(p: nat, v: nat)
    requires
        p >= 1,
    ensures
        next_pow2_from(p, v) >= p,
    decreases v - p,
{
    if p < v && 2 * p < v {
        lemma_pow2_from_ge(2 * p, v);
    }
}

/// The trim threshold for the setting `val`: at least 1 MiB.
pub fn init_threshold(val: u64) -> (r: u64)
    ensures
        r == if val < MIN_TRIM_THRESHOLD { MIN_TRIM_THRESHOLD } else { val },
{
    if val == 0 || val < MIN_TRIM_THRESHOLD {
        MIN_TRIM_THRESHOLD
    } else {
        val
    }
}

/// Whether the setting `val` forces huge pages: only `1` does.
pub fn init_thp(val: u64) -> (r: bool)
    ensures
        r == (val == 1),
{
    val == 1
}

/// Whether the setting `val` disables transparent huge pages: only `1`
/// does, and not when huge pages are forced.
pub fn init_disable_thp(val: u64, force_thp: bool) -> (r: bool)
    ensures
        r == (val == 1 && !force_thp),
{
    val == 1 && !force_thp
}

/// Whether the trimming thread may run under the setting `val`: `1`
/// disables it.
pub fn init_trim_enabled(val: u64) -> (r: bool)
    ensures
        r == (val != 1),
{
    val != 1
}

/// The magic values from two random bytes: the second is lowered by one
/// when the magic values in force before were equal.
pub fn init_magic(old_magic: u8, old_freed: u8, rand0: u8, rand1: u8) -> (r: (u8, u8))
    ensures
        r.0 == rand0,
        r.1 == if old_freed == old_magic && rand1 > 0 { (rand1 - 1) as u8 } else { rand1 },
{
    let freed = if old_freed == old_magic { rand1.saturating_sub(1) } else { rand1 };
    (rand0, freed)
}

/// The key that masks list pointers: random, its low four bits cleared so
/// that masked pointers keep room for the generation tag.
pub fn init_random_numa(rand: u64) -> (r: u64)
    ensures
        r == rand & !15u64,
        r & 15u64 == 0,
{
    let r = rand & !15u64;
    assert(r & 15u64 == 0) by (bit_vector)
        requires
            r == rand & !15u64,
    ;
    r
}

/// The number of NUMA nodes in the memory-policy mask: one past the
/// highest allowed node, at least one; one when the kernel refused the call.
pub fn detect_numa_nodes(ret: i64, mask: &Vec<u64>) -> (r: usize)
    requires
        mask@.len() <= 16,
    ensures
        r >= 1,
        ret != 0 ==> r == 1,
        ret == 0 ==> (r == 1 && forall|j: int| 0 <= j < mask@.len() ==> #[trigger] mask@[j] == 0)
            || ((r - 1) / 64 < mask@.len() && mask[(r - 1) / 64] >> (((r - 1) % 64) as u64) == 1
                && forall|j: int| (r - 1) / 64 < j < mask@.len() ==> #[trigger] mask@[j] == 0),
{
    if ret != 0 {
        return 1;
    }
    let mut i = mask.len();
    while i > 0
        invariant
            ret == 0,
            i <= mask@.len(),
            mask@.len() <= 16,
            forall|j: int| i <= j < mask@.len() ==> #[trigger] mask@[j] == 0,
        decreases i,
    {
        let word = mask[i - 1];
        if word != 0 {
            let mut b: u64 = 63;
            while word >> b == 0
                invariant
                    b <= 63,
                    word != 0,
                    forall|c: u64| b < c <= 63 ==> #[trigger] (word >> c) == 0,
                decreases b,
            {
                assert(b > 0) by {
                    if b == 0 {
                        assert(word >> 0u64 == word) by (bit_vector);
                    }
                }
                b = b - 1;
            }
            assert(word >> b == 1) by (bit_vector)
                requires
                    word >> b != 0,
                    b == 63 || word >> ((b + 1) as u64) == 0,
                    b <= 63,
            ;
            let n = (i - 1) * 64 + b as usize + 1;
            assert((n - 1) / 64 == i - 1 && (n - 1) % 64 == b) by (nonlinear_arith)
                requires
                    n == (i - 1) * 64 + b + 1,
                    b <= 63,
            ;
            return if n < 1 { 1 } else { n };
        }
        i = i - 1;
    }
    1
}

} // verus!
