//! The decisions behind the C entry points: sizes of arrays, what a
//! reallocation of an array does, and the usable size of a block.
use crate::slab::{NUM_SIZE_CLASSES, SIZE_CLASSES};
use crate::sys::NOMEM;
use crate::va::{align_to, aligned_up, is_pow2};
use crate::OxidallocError;
use vstd::prelude::*;

verus! {

/// The class byte of a big allocation's header.
pub const BIG_CLASS_TAG: u8 = 100;

/// The bytes of `nmemb` elements of `size` bytes, or `ENOMEM` when the
/// product does not fit.
pub fn array_bytes(nmemb: u64, size: u64) -> (r: Result<u64, i32>)
    ensures
        nmemb * size <= u64::MAX ==> r == Ok::<u64, i32>((nmemb * size) as u64),
        nmemb * size > u64::MAX ==> r == Err::<u64, i32>(NOMEM),
{
    match nmemb.checked_mul(size) {
        Some(s) => Ok(s),
        None => Err(NOMEM),
    }
}

/// What resizing an array of `old_nmemb` to `new_nmemb` elements of `size`
/// bytes does.
#[derive(Clone, Copy, Debug, PartialEq, Eq, Structural)]
pub enum RecallocPlan {
    /// There is no array yet: a zeroed one of `new_nmemb` elements is made.
    Fresh,
    /// The new size does not fit: fail with `ENOMEM`.
    TooLarge,
    /// Reallocate to `new_size` bytes; nothing needs zeroing.
    Shrink { new_size: u64 },
    /// Reallocate to `new_size` bytes and zero the bytes from `old_size` on.
    Grow { new_size: u64, old_size: u64 },
}

/// The plan of a resize of an array, its old size counted as zero when it
/// does not fit.
pub fn recalloc_plan(is_null: bool, old_nmemb: u64, new_nmemb: u64, size: u64) -> (r: RecallocPlan)
    ensures
        is_null ==> r == RecallocPlan::Fresh,
        !is_null && new_nmemb * size > u64::MAX ==> r == RecallocPlan::TooLarge,
        !is_null && new_nmemb * size <= u64::MAX ==> {
            let new_size = (new_nmemb * size) as u64;
            let old_size = if old_nmemb * size <= u64::MAX { (old_nmemb * size) as u64 } else { 0u64 };
            r == if new_size <= old_size {
                RecallocPlan::Shrink { new_size }
            } else {
                RecallocPlan::Grow { new_size, old_size }
            }
        },
{
    if is_null {
        return RecallocPlan::Fresh;
    }
    let new_size = match new_nmemb.checked_mul(size) {
        Some(s) => s,
        None => return RecallocPlan::TooLarge,
    };
    let old_size = match old_nmemb.checked_mul(size) {
        Some(s) => s,
        None => 0,
    };
    if new_size <= old_size {
        RecallocPlan::Shrink { new_size }
    } else {
        RecallocPlan::Grow { new_size, old_size }
    }
}

/// The bytes a `pvalloc` asks for: one page for zero bytes, else the size
/// rounded up to whole pages.
pub fn pvalloc_size(size: u64) -> (r: u64)
    requires
        size + 4095 <= u64::MAX,
    ensures
        size == 0 ==> r == 4096,
        size > 0 ==> r == aligned_up(size, 4096) && r % 4096 == 0 && size <= r < size + 4096,
{
    if size == 0 {
        4096
    } else {
        assert(is_pow2(4096)) by (bit_vector);
        align_to(size, 4096)
    }
}

/// An `aligned_alloc` alignment is accepted: a nonzero power of two.
pub fn aligned_alloc_accepts(alignment: u64) -> (r: bool)
    ensures
        r == is_pow2(alignment),
{
    alignment != 0 && (alignment & (alignment - 1)) == 0
}

/// The usable bytes of a block whose header holds `class`, seen from a
/// pointer `offset` bytes past the start of its payload: the class's
/// payload, or for a big allocation the payload recorded for it, less the
/// offset (never below zero). A big allocation without a record is a fatal
/// corruption.
pub fn usable_size(class: u8, big_payload: Option<u64>, offset: u64) -> (r: Result<u64, OxidallocError>)
    requires
        class == BIG_CLASS_TAG || class < NUM_SIZE_CLASSES,
    ensures
        class == BIG_CLASS_TAG && big_payload is None ==> r == Err::<u64, OxidallocError>(OxidallocError::AttackOrCorruption),
        class == BIG_CLASS_TAG && big_payload is Some ==> r == Ok::<u64, OxidallocError>(
            if big_payload.unwrap() >= offset { (big_payload.unwrap() - offset) as u64 } else { 0u64 }),
        class != BIG_CLASS_TAG ==> r == Ok::<u64, OxidallocError>(
            if SIZE_CLASSES[class as int] >= offset { (SIZE_CLASSES[class as int] - offset) as u64 } else { 0u64 }),
{
    let raw = if class == BIG_CLASS_TAG {
        match big_payload {
            Some(p) => p,
            None => return Err(OxidallocError::AttackOrCorruption),
        }
    } else {
        SIZE_CLASSES[class as usize] as u64
    };
    Ok(raw.saturating_sub(offset))
}

} // verus!
