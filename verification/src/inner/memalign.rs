//! Aligned allocations: an ordinary allocation large enough to hold an
//! aligned address, with a tag and the address of its allocation stored below it.
use crate::inner::global_alloc::Oxidalloc;
use crate::inner::serve::{law_route_holds_request, route_of, AllocRoute};
use crate::slab::SIZE_CLASSES;
use crate::slab::thread_local::ThreadLocalEngine;
use crate::sys::{Kernel, EINVAL, NOMEM};
use crate::va::{align_to, aligned_up, is_pow2};
use crate::{OxHeader, OxidallocError};
use vstd::prelude::*;

verus! {

/// Bytes from the aligned address down to the stored address of the allocation.
pub const OFFSET_SIZE: u64 = 8;

/// Bytes from the aligned address down to the tag.
pub const TAG_SIZE: u64 = 16;

/// The bytes to allocate for `size` bytes aligned to `alignment`, or the
/// `errno` of the refusal: `EINVAL` for an alignment under 8 or not a power
/// of two, `ENOMEM` when the total overflows.
pub fn align_request(alignment: u64, size: u64) -> (r: Result<u64, i32>)
    ensures
        (alignment < 8 || !is_pow2(alignment)) ==> r == Err::<u64, i32>(EINVAL),
        !(alignment < 8 || !is_pow2(alignment)) && size + alignment + TAG_SIZE > u64::MAX ==> r == Err::<u64, i32>(NOMEM),
        !(alignment < 8 || !is_pow2(alignment)) && size + alignment + TAG_SIZE <= u64::MAX ==> r == Ok::<u64, i32>(
            (size + alignment + TAG_SIZE) as u64),
{
    if alignment < 8 || !(alignment != 0 && alignment & (alignment - 1) == 0) {
        return Err(EINVAL);
    }
    match size.checked_add(alignment) {
        None => Err(NOMEM),
        Some(v) => match v.checked_add(TAG_SIZE) {
            None => Err(NOMEM),
            Some(t) => Ok(t),
        },
    }
}

/// The alignment `memalign` uses: at least 8, and only a power of two.
pub fn memalign_adjust(alignment: u64) -> (r: Option<u64>)
    ensures
        ({
            let a = if alignment < 8 { 8u64 } else { alignment };
            r == if is_pow2(a) { Some(a) } else { None::<u64> }
        }),
{
    let a = if alignment < 8 { 8 } else { alignment };
    if a != 0 && a & (a - 1) == 0 {
        Some(a)
    } else {
        None
    }
}

/// The aligned address inside the allocation at `raw`: the first multiple
/// of `alignment` at least 16 bytes past `raw`.
pub fn aligned_in(raw: u64, alignment: u64) -> (a: u64)
    requires
        is_pow2(alignment),
        raw + TAG_SIZE + alignment <= u64::MAX,
    ensures
        a == aligned_up((raw + TAG_SIZE) as u64, alignment),
        a % alignment == 0,
        raw + TAG_SIZE <= a < raw + TAG_SIZE + alignment,
{
    let start = raw.saturating_add(TAG_SIZE);
    align_to(start, alignment)
}

/// An aligned allocation: the address handed out, and where the allocation
/// itself starts. The tag goes 16 bytes below `aligned`, the start 8 below.
#[derive(Clone, Copy, Debug, PartialEq, Eq, Structural)]
pub struct AlignedBlock {
    pub aligned: u64,
    pub raw: u64,
}

/// The aligned block inside the allocation whose header is at `header`.
pub open spec fn aligned_block(header: u64, alignment: u64) -> AlignedBlock {
    AlignedBlock { aligned: aligned_up((header + 2 * TAG_SIZE) as u64, alignment), raw: (header + TAG_SIZE) as u64 }
}

/// The alignment `memalign` uses for `alignment`.
pub open spec fn memalign_alignment(alignment: u64) -> u64 {
    if alignment < 8 { 8 } else { alignment }
}

/// The thread's stack serves an allocation of `total` bytes from its top
/// block, whose header lies low enough to hold an aligned address above it.
pub open spec fn served_from_stack(thread: ThreadLocalEngine, total: int, alignment: u64) -> bool {
    &&& 0 <= total <= usize::MAX
    &&& route_of(total as usize) is Slab
    &&& thread.bin(route_of(total as usize)->0 as int).len() > 0
    &&& thread.bin(route_of(total as usize)->0 as int)[0].addr + 2 * TAG_SIZE + alignment <= u64::MAX
}

/// The allocation under the aligned block `b` holds `size` bytes from the
/// aligned address on: for a big allocation its recorded size is the whole
/// request (`size`, `alignment` and the tag), and for a slab block (when
/// every block sits in the stack of its class) its class's payload reaches
/// past `b.aligned + size`.
pub open spec fn holds_aligned(now: Oxidalloc, thread0: ThreadLocalEngine, alloc0: Oxidalloc, b: AlignedBlock, alignment: u64, size: u64) -> bool {
    let total = size + alignment + TAG_SIZE;
    &&& route_of(total as usize) == AllocRoute::Big ==> exists|h: u64| {
        &&& b.raw == vstd::wrapping::u64_specs::wrapping_add(h, 16)
        &&& #[trigger] now.big_map.get_spec(h) == Some(total as u64)
        &&& b.aligned + size <= b.raw + total
    }
    &&& thread0.classes_ok() && alloc0.icc.classes_ok() ==> (route_of(total as usize) matches AllocRoute::Slab(c) ==> exists|h: OxHeader| {
        &&& b.raw == vstd::wrapping::u64_specs::wrapping_add(h.addr, 16)
        &&& #[trigger] h.class == c
        &&& b.aligned + size <= b.raw + SIZE_CLASSES[c as int]
    })
}

impl Oxidalloc {
    /// Serves `size` bytes aligned to `alignment`, or the `errno` of the
    /// refusal. The underlying allocation is tried twice.
    pub fn align_inner<K: Kernel>(&mut self, thread: &mut ThreadLocalEngine, os: &mut K, alignment: u64, size: u64) -> (r: Result<Result<AlignedBlock, i32>, OxidallocError>)
        requires
            old(self).wf(),
            old(thread).wf(),
        ensures
            final(self).wf(),
            final(thread).wf(),
            (alignment < 8 || !is_pow2(alignment)) ==> r == Ok::<Result<AlignedBlock, i32>, OxidallocError>(Err(EINVAL)),
            r matches Ok(Ok(b)) ==> b.aligned % alignment == 0 && b.raw + TAG_SIZE <= b.aligned && b.aligned < b.raw + TAG_SIZE + alignment,
            r matches Ok(Ok(b)) ==> holds_aligned(*final(self), *old(thread), *old(self), b, alignment, size),
            r matches Err(e) ==> e != OxidallocError::OutOfMemory,
            !(alignment < 8 || !is_pow2(alignment)) && size + alignment + TAG_SIZE > usize::MAX
                ==> r == Ok::<Result<AlignedBlock, i32>, OxidallocError>(Err(NOMEM)),
            (alignment < 8 || !is_pow2(alignment) || size + alignment + TAG_SIZE > usize::MAX)
                ==> *final(self) == *old(self) && *final(thread) == *old(thread),
            !(alignment < 8 || !is_pow2(alignment)) && served_from_stack(*old(thread), size + alignment + TAG_SIZE, alignment)
                ==> r == Ok::<Result<AlignedBlock, i32>, OxidallocError>(Ok(aligned_block(
                    old(thread).bin(route_of((size + alignment + TAG_SIZE) as usize)->0 as int)[0].addr, alignment))),
    {
        let total = match align_request(alignment, size) {
            Err(e) => return Ok(Err(e)),
            Ok(t) => t,
        };
        if total > usize::MAX as u64 {
            return Ok(Err(NOMEM));
        }
        let first = self.alloc_inner(thread, os, total as usize);
        let raw = match first {
            Err(e) => return Err(e),
            Ok(res) => match res.ptr {
                Some(p) => p,
                None => {
                    let second = self.alloc_inner(thread, os, total as usize);
                    match second {
                        Err(e) => return Err(e),
                        Ok(res2) => match res2.ptr {
                            Some(p) => p,
                            None => return Ok(Err(NOMEM)),
                        },
                    }
                },
            },
        };
        if raw > u64::MAX - (TAG_SIZE + alignment) {
            return Ok(Err(NOMEM));
        }
        let aligned = aligned_in(raw, alignment);
        proof {
            law_route_holds_request(total as usize);
        }
        Ok(Ok(AlignedBlock { aligned, raw }))
    }

    /// Serves `size` bytes aligned to `alignment` (raised to 8), or nothing.
    pub fn memalign_inner<K: Kernel>(&mut self, thread: &mut ThreadLocalEngine, os: &mut K, alignment: u64, size: u64) -> (r: Result<Option<AlignedBlock>, OxidallocError>)
        requires
            old(self).wf(),
            old(thread).wf(),
        ensures
            final(self).wf(),
            final(thread).wf(),
            r matches Ok(Some(b)) ==> b.aligned % memalign_alignment(alignment) == 0,
            r matches Ok(Some(b)) ==> holds_aligned(*final(self), *old(thread), *old(self), b, memalign_alignment(alignment), size),
            r matches Err(e) ==> e != OxidallocError::OutOfMemory,
            !is_pow2(memalign_alignment(alignment)) ==> r == Ok::<Option<AlignedBlock>, OxidallocError>(None),
            is_pow2(memalign_alignment(alignment)) && size + memalign_alignment(alignment) + TAG_SIZE > usize::MAX
                ==> r == Ok::<Option<AlignedBlock>, OxidallocError>(None),
            (!is_pow2(memalign_alignment(alignment)) || size + memalign_alignment(alignment) + TAG_SIZE > usize::MAX)
                ==> *final(self) == *old(self) && *final(thread) == *old(thread),
            ({
                let a = memalign_alignment(alignment);
                let total = size + a + TAG_SIZE;
                is_pow2(a) && served_from_stack(*old(thread), total, a) ==> r == Ok::<Option<AlignedBlock>, OxidallocError>(Some(
                    aligned_block(old(thread).bin(route_of(total as usize)->0 as int)[0].addr, a)))
            }),
    {
        let adjusted = match memalign_adjust(alignment) {
            None => return Ok(None),
            Some(a) => a,
        };
        match self.align_inner(thread, os, adjusted, size) {
            Err(e) => Err(e),
            Ok(Err(_)) => Ok(None),
            Ok(Ok(b)) => Ok(Some(b)),
        }
    }
}

} // verus!
