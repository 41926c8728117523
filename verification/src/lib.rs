pub mod abi;
pub mod big_allocation;
pub mod bits;
pub mod buddy;
pub mod free;
pub mod inner;
pub mod internals;
pub mod slab;
pub mod sys;
pub mod trim;
pub mod va;
use vstd::prelude::*;

verus! {

/// Size in bytes of the header that precedes every block.
pub const HEADER_SIZE: usize = 16;

/// Caches of blocks shared between threads, per CPU.
pub const MAX_INTERCONNECT_CACHE: usize = 4;

/// Most NUMA nodes the allocator looks for.
pub const MAX_NUMA_NODES: usize = 32;

/// The word written just below a pointer returned by an aligned allocation
/// (the bytes `OXIDALGN` read as a little-endian word).
pub const OX_ALIGN_TAG: u64 = 0x4E47_4C41_4449_584Fu64;

/// The header of a block.
///
/// `addr` is where the header lives; the payload follows it. In a free list
/// the successor of a header is the next element of the sequence that holds
/// it, so the list order stands for the `next` link.
#[derive(Clone, Copy, Debug, PartialEq, Eq, Structural)]
pub struct OxHeader {
    pub addr: u64,
    pub class: u8,
    pub magic: u8,
    pub life_time: u32,
}

/// The bookkeeping at the start of a slab segment: its bounds, and the
/// first byte not yet carved into blocks.
#[derive(Clone, Copy, Debug, PartialEq, Eq, Structural)]
pub struct MetaData {
    pub start: u64,
    pub end: u64,
    pub next: u64,
}

/// Bytes of `MetaData` at the start of a slab segment.
pub const METADATA_SIZE: u64 = 32;

/// Fatal conditions; each has a fixed code.
#[derive(Clone, Copy, Debug, PartialEq, Eq, Structural)]
pub enum OxidallocError {
    DoubleFree,
    MemoryCorruption,
    OutOfMemory,
    VaBitmapExhausted,
    VAIinitFailed,
    PThreadCacheFailed,
    SecurityViolation,
    AttackOrCorruption,
    ICCFailedToInitialize,
}

impl OxidallocError {
    /// The numeric code of the condition.
    pub fn code(&self) -> (c: u32)
        ensures
            c == match *self {
                OxidallocError::DoubleFree => 0x1000u32,
                OxidallocError::MemoryCorruption => 0x1001u32,
                OxidallocError::OutOfMemory => 0x1003u32,
                OxidallocError::VaBitmapExhausted => 0x1004u32,
                OxidallocError::VAIinitFailed => 0x1005u32,
                OxidallocError::PThreadCacheFailed => 0x1006u32,
                OxidallocError::SecurityViolation => 0x100Au32,
                OxidallocError::AttackOrCorruption => 0x100Bu32,
                OxidallocError::ICCFailedToInitialize => 0x100Cu32,
            },
    {
        match self {
            OxidallocError::DoubleFree => 0x1000,
            OxidallocError::MemoryCorruption => 0x1001,
            OxidallocError::OutOfMemory => 0x1003,
            OxidallocError::VaBitmapExhausted => 0x1004,
            OxidallocError::VAIinitFailed => 0x1005,
            OxidallocError::PThreadCacheFailed => 0x1006,
            OxidallocError::SecurityViolation => 0x100A,
            OxidallocError::AttackOrCorruption => 0x100B,
            OxidallocError::ICCFailedToInitialize => 0x100C,
        }
    }
}

} // verus!
