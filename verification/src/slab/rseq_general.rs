//! The layout of the kernel's restartable-sequence area of a thread.
use vstd::prelude::*;

verus! {

/// The signature that precedes a restartable sequence's abort handler.
pub const RSEQ_SIG: u32 = 0x53053053;

/// A thread's restartable-sequence area, as the kernel lays it out.
#[allow(non_camel_case_types)]
pub struct rseq {
    pub cpu_id: u32,
    pub cpu_id_start: u32,
    pub rseq_cs: u64,
    pub flags: u32,
    pub node_id: u32,
    pub mm_cid: u32,
}

} // verus!
