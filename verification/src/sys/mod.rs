//! The kernel interface: error codes, flag words, and the calls the
//! allocator makes.
pub mod numa;

use vstd::arithmetic::power2::{lemma2_to64, lemma2_to64_rest, lemma_pow2_unfold, pow2};
use vstd::prelude::*;

verus! {

/// `EINVAL`.
pub const EINVAL: i32 = 22;
/// `ENOMEM`.
pub const NOMEM: i32 = 12;
/// `EEXIST`.
pub const EEXIST: i32 = 17;

/// Why a kernel call failed.
#[derive(Clone, Copy, Debug, PartialEq, Eq, Structural)]
pub enum SysErr {
    OOM,
    Unaligned,
    RandomReqFail,
    MemAlreadyMapped,
    Other,
}

impl SysErr {
    /// The `errno` value reported for the failure.
    pub fn get_errno(&self) -> (e: i32)
        ensures
            e == match *self {
                SysErr::OOM => NOMEM,
                SysErr::Unaligned => EINVAL,
                SysErr::RandomReqFail => 1i32,
                SysErr::MemAlreadyMapped => EEXIST,
                SysErr::Other => 0i32,
            },
    {
        match self {
            SysErr::OOM => NOMEM,
            SysErr::Unaligned => EINVAL,
            SysErr::RandomReqFail => 1,
            SysErr::MemAlreadyMapped => EEXIST,
            SysErr::Other => 0,
        }
    }
}

/// Advice for `madvise`.
#[derive(Clone, Copy, Debug, PartialEq, Eq, Structural)]
pub struct Advice(pub u64);

/// The pages may be dropped.
pub const MADV_DONTNEED: u64 = 4;
/// Back the range with huge pages.
pub const MADV_HUGEPAGE: u64 = 14;
/// No special treatment.
pub const MADV_NORMAL: u64 = 0;

/// The calls into the kernel that the allocator makes. Nothing is assumed
/// of what they return: the logic that calls them is verified for every
/// outcome.
pub trait Kernel {
    /// Reserves `len` bytes of inaccessible address space, at `hint` when
    /// one is given (failing rather than replacing a mapping there).
    fn reserve(&mut self, hint: Option<u64>, len: u64) -> Option<u64>;

    /// Maps `len` bytes of fresh read-write memory at `addr`.
    fn map_fixed(&mut self, addr: u64, len: u64) -> bool;

    /// Makes `len` bytes at `addr` readable and writable.
    fn protect_read_write(&mut self, addr: u64, len: u64) -> bool;

    /// Gives the kernel `advice` about `len` bytes at `addr`.
    fn advise(&mut self, addr: u64, len: u64, advice: Advice);

    /// Eight random bytes from the kernel.
    fn random(&mut self) -> Option<u64>;
}


/// `mmap` flags.
#[derive(Clone, Copy, Debug, PartialEq, Eq, Structural)]
pub struct MapFlags(pub u64);

/// `mmap` and `mprotect` protection flags.
#[derive(Clone, Copy, Debug, PartialEq, Eq, Structural)]
pub struct ProtFlags(pub u64);

impl MapFlags {
    /// `MAP_PRIVATE`.
    pub fn private() -> (f: MapFlags)
        ensures
            f.0 == 2,
    {
        MapFlags(2)
    }

    /// `MAP_FIXED`.
    pub fn fixed() -> (f: MapFlags)
        ensures
            f.0 == 16,
    {
        MapFlags(16)
    }

    /// `MAP_NORESERVE`.
    pub fn noreserve() -> (f: MapFlags)
        ensures
            f.0 == 16384,
    {
        MapFlags(16384)
    }

    /// `MAP_FIXED_NOREPLACE`.
    pub fn fixed_noreplace() -> (f: MapFlags)
        ensures
            f.0 == 1048576,
    {
        MapFlags(1048576)
    }

    /// `MAP_ANONYMOUS`.
    pub fn anonymous() -> (f: MapFlags)
        ensures
            f.0 == 32,
    {
        MapFlags(32)
    }

    /// Both sets of flags.
    pub fn bitor(self, rhs: MapFlags) -> (f: MapFlags)
        ensures
            f.0 == self.0 | rhs.0,
    {
        MapFlags(self.0 | rhs.0)
    }
}

impl ProtFlags {
    /// `PROT_NONE`.
    pub fn none() -> (f: ProtFlags)
        ensures
            f.0 == 0,
    {
        ProtFlags(0)
    }

    /// `PROT_READ`.
    pub fn read() -> (f: ProtFlags)
        ensures
            f.0 == 1,
    {
        ProtFlags(1)
    }

    /// `PROT_WRITE`.
    pub fn write() -> (f: ProtFlags)
        ensures
            f.0 == 2,
    {
        ProtFlags(2)
    }

    /// Both sets of flags.
    pub fn bitor(self, rhs: ProtFlags) -> (f: ProtFlags)
        ensures
            f.0 == self.0 | rhs.0,
    {
        ProtFlags(self.0 | rhs.0)
    }
}

/// Mapping flags of the allocator's own mappings.
#[derive(Clone, Copy, Debug, PartialEq, Eq, Structural)]
pub struct MemoryFlags(pub MapFlags);

/// Protection of a new mapping.
#[derive(Clone, Copy, Debug, PartialEq, Eq, Structural)]
pub struct MProtFlags(pub ProtFlags);

/// Protection for `mprotect`.
#[derive(Clone, Copy, Debug, PartialEq, Eq, Structural)]
pub struct RMProtFlags(pub ProtFlags);

/// Advice for `madvise`.
#[derive(Clone, Copy, Debug, PartialEq, Eq, Structural)]
pub struct MadviseFlags(pub Advice);

/// Protection and flags of a mapping.
#[derive(Clone, Copy, Debug, PartialEq, Eq, Structural)]
pub struct MMapFlags {
    pub prot: MProtFlags,
    pub map: MemoryFlags,
}

impl MemoryFlags {
    /// Both sets of flags.
    pub fn bitor(self, rhs: MemoryFlags) -> (f: MemoryFlags)
        ensures
            f.0.0 == self.0.0 | rhs.0.0,
    {
        MemoryFlags(self.0.bitor(rhs.0))
    }
}

impl MProtFlags {
    /// Both sets of flags.
    pub fn bitor(self, rhs: MProtFlags) -> (f: MProtFlags)
        ensures
            f.0.0 == self.0.0 | rhs.0.0,
    {
        MProtFlags(self.0.bitor(rhs.0))
    }
}

impl RMProtFlags {
    /// Both sets of flags.
    pub fn bitor(self, rhs: RMProtFlags) -> (f: RMProtFlags)
        ensures
            f.0.0 == self.0.0 | rhs.0.0,
    {
        RMProtFlags(self.0.bitor(rhs.0))
    }
}

/// System call numbers on x86-64.
pub struct Sys;

impl Sys {
    pub const SYS_MMAP: u64 = 9;
    pub const SYS_MUNMAP: u64 = 11;
    pub const SYS_MADVISE: u64 = 28;
    pub const SYS_MPROTECT: u64 = 10;
    pub const SYS_GETRANDOM: u64 = 318;
    pub const SYS_RSEQ: u64 = 334;
}

/// The outcome of a raw system call: a negative return is an `errno`.
pub fn syscall_result(ret: i64) -> (r: Result<u64, i32>)
    requires
        ret > i64::MIN,
    ensures
        ret < 0 ==> r == Err::<u64, i32>((-ret) as i32),
        ret >= 0 ==> r == Ok::<u64, i32>(ret as u64),
{
    if ret < 0 {
        Err((-ret) as i32)
    } else {
        Ok(ret as u64)
    }
}

/// The failure of `mmap` for `errno`.
pub fn map_error(e: i32) -> (r: SysErr)
    ensures
        r == if e == NOMEM { SysErr::OOM } else if e == EINVAL { SysErr::Unaligned } else if e == EEXIST {
            SysErr::MemAlreadyMapped
        } else {
            SysErr::Other
        },
{
    if e == NOMEM {
        SysErr::OOM
    } else if e == EINVAL {
        SysErr::Unaligned
    } else if e == EEXIST {
        SysErr::MemAlreadyMapped
    } else {
        SysErr::Other
    }
}

/// The failure of `munmap` for `errno`.
pub fn unmap_error(e: i32) -> (r: SysErr)
    ensures
        r == if e == NOMEM { SysErr::OOM } else if e == EINVAL { SysErr::Unaligned } else { SysErr::Other },
{
    if e == NOMEM {
        SysErr::OOM
    } else if e == EINVAL {
        SysErr::Unaligned
    } else {
        SysErr::Other
    }
}

/// The failure of `madvise` or `mprotect` for `errno`.
pub fn advise_error(e: i32) -> (r: SysErr)
    ensures
        r == if e == EINVAL { SysErr::Unaligned } else { SysErr::Other },
{
    if e == EINVAL {
        SysErr::Unaligned
    } else {
        SysErr::Other
    }
}

/// The outcome of `mmap`: the address, or why it failed.
pub fn mmap_result(ret: i64) -> (r: Result<u64, SysErr>)
    requires
        ret > i64::MIN,
    ensures
        ret >= 0 ==> r == Ok::<u64, SysErr>(ret as u64),
        ret < 0 ==> r == Err::<u64, SysErr>({
            let e = (-ret) as i32;
            if e == NOMEM { SysErr::OOM } else if e == EINVAL { SysErr::Unaligned } else if e == EEXIST {
                SysErr::MemAlreadyMapped
            } else {
                SysErr::Other
            }
        }),
{
    match syscall_result(ret) {
        Ok(a) => Ok(a),
        Err(e) => Err(map_error(e)),
    }
}

/// Set bits of `w`.
pub open spec fn popcount(w: u64) -> int
    decreases w,
{
    if w == 0 {
        0
    } else {
        (w % 2) as int + popcount(w / 2)
    }
}

/// Set bits of the first `n` words of `mask`.
pub open spec fn mask_popcount(mask: Seq<u64>, n: int) -> int
    decreases n,
{
    if n <= 0 {
        0
    } else {
        mask_popcount(mask, n - 1) + popcount(mask[n - 1])
    }
}

/// A word below `2^k` has at most `k` set bits.
proof fn lemma_popcount_below(w: u64, k: nat)
    requires
        w < pow2(k),
    ensures
        popcount(w) <= k,
    decreases k,
{
    if w != 0 {
        if k == 0 {
            lemma2_to64();
        } else {
            lemma_pow2_unfold(k);
            lemma_popcount_below(w / 2, (k - 1) as nat);
        }
    }
}

/// A word has at most 64 set bits.
pub proof fn lemma_popcount_max(w: u64)
    ensures
        0 <= popcount(w) <= 64,
{
    lemma2_to64_rest();
    lemma_popcount_below(w, 64);
    lemma_popcount_nonneg(w);
}

proof fn lemma_popcount_nonneg(w: u64)
    ensures
        popcount(w) >= 0,
    decreases w,
{
    if w != 0 {
        lemma_popcount_nonneg(w / 2);
    }
}

/// Set bits of `w`, counted one at a time.
pub fn count_ones(w: u64) -> (c: u32)
    ensures
        c == popcount(w),
{
    let mut x = w;
    let mut c: u32 = 0;
    proof {
        lemma_popcount_max(w);
    }
    while x != 0
        invariant
            c + popcount(x) == popcount(w),
            popcount(w) <= 64,
        decreases x,
    {
        proof {
            lemma_popcount_nonneg(x / 2);
        }
        c = c + (x % 2) as u32;
        x = x / 2;
    }
    c
}

/// Number of CPUs in an affinity mask; one when the kernel refused to
/// report the mask.
pub fn cpu_count_of(ret: i64, mask: &Vec<u64>) -> (n: usize)
    requires
        mask@.len() <= 1024,
    ensures
        ret < 0 ==> n == 1,
        ret >= 0 ==> n == mask_popcount(mask@, mask@.len() as int),
{
    if ret < 0 {
        return 1;
    }
    let mut total: usize = 0;
    let mut i: usize = 0;
    while i < mask.len()
        invariant
            i <= mask@.len(),
            mask@.len() <= 1024,
            total == mask_popcount(mask@, i as int),
            total <= 64 * i,
        decreases mask@.len() - i,
    {
        let c = count_ones(mask[i]);
        proof {
            lemma_popcount_max(mask@[i as int]);
        }
        total = total + c as usize;
        i = i + 1;
    }
    total
}
} // verus!
