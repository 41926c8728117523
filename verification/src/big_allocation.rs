//! Allocations larger than the largest slab class: each gets a mapping of
//! its own, and up to sixteen released ones are kept for reuse.
use crate::bits::{bit_of, range_clear, range_written};
use crate::internals::lock::SerialLock;
use crate::sys::{Advice, Kernel, MADV_DONTNEED, MADV_HUGEPAGE, MADV_NORMAL};
use crate::va::bitmap::{claim_effect, lemma_claim_inside, law_claim_then_free, Segment, VaBitmap};
use crate::va::space::{claimed, untouched, AddressSpace};
use crate::va::{align_to, aligned_up};
use crate::{OxidallocError, HEADER_SIZE};
use vstd::prelude::*;

verus! {

/// Slots of the cache of released big blocks.
pub const BIG_CACHE_SLOTS: usize = 16;

/// Largest payload a big allocation records.
pub const BIG_SIZE_LIMIT: u64 = 0xFFFF_FFFF_FF00_0000;

/// A huge page: 2 MiB.
pub const HUGE_PAGE: u64 = 2097152;

/// Class byte written in the header of a big allocation.
pub const BIG_CLASS: u8 = 100;

/// A released big block: where it starts and how many bytes it spans.
#[derive(Clone, Copy, Debug, PartialEq, Eq, Structural)]
pub struct BigFreeBlock {
    pub ptr: u64,
    pub total_size: u64,
}

/// Released big blocks kept for reuse.
pub struct BigFreeCache {
    pub lock: SerialLock,
    pub data: Vec<Option<BigFreeBlock>>,
}

/// The payload size of each live big allocation, by header address.
pub struct BigAllocMap {
    pub entries: Vec<(u64, u64)>,
}

/// The size recorded for `k` in `s`, if any.
pub open spec fn lookup(s: Seq<(u64, u64)>, k: u64) -> Option<u64> {
    if exists|i: int| 0 <= i < s.len() && #[trigger] s[i].0 == k {
        Some(s[choose|i: int| 0 <= i < s.len() && #[trigger] s[i].0 == k].1)
    } else {
        None
    }
}

/// No key occurs twice.
pub open spec fn keys_distinct(s: Seq<(u64, u64)>) -> bool {
    forall|i: int, j: int| 0 <= i < s.len() && 0 <= j < s.len() && i != j ==> #[trigger] s[i].0 != #[trigger] s[j].0
}

impl BigAllocMap {
    pub open spec fn wf(&self) -> bool {
        &&& keys_distinct(self.entries@)
        &&& forall|i: int| 0 <= i < self.entries@.len() ==> #[trigger] self.entries@[i].1 <= BIG_SIZE_LIMIT
    }

    /// The recorded sizes as a function of the header address.
    pub open spec fn get_spec(&self, k: u64) -> Option<u64> {
        lookup(self.entries@, k)
    }

    /// Nothing recorded.
    pub fn new() -> (m: Self)
        ensures
            m.wf(),
            forall|k: u64| #[trigger] m.get_spec(k) is None,
    {
        BigAllocMap { entries: Vec::new() }
    }

    fn find(&self, k: u64) -> (r: Option<usize>)
        requires
            self.wf(),
        ensures
            match r {
                Some(i) => i < self.entries@.len() && self.entries@[i as int].0 == k,
                None => forall|i: int| 0 <= i < self.entries@.len() ==> #[trigger] self.entries@[i].0 != k,
            },
    {
        let mut i: usize = 0;
        while i < self.entries.len()
            invariant
                i <= self.entries@.len(),
                forall|j: int| 0 <= j < i ==> #[trigger] self.entries@[j].0 != k,
            decreases self.entries@.len() - i,
        {
            if self.entries[i].0 == k {
                return Some(i);
            }
            i = i + 1;
        }
        None
    }

    /// The size recorded for `k`.
    pub fn get(&self, k: u64) -> (r: Option<u64>)
        requires
            self.wf(),
        ensures
            r == self.get_spec(k),
    {
        match self.find(k) {
            Some(i) => {
                assert(self.entries@[i as int].0 == k);
                Some(self.entries[i].1)
            },
            None => None,
        }
    }

    /// Records `size` for `k`.
    pub fn insert(&mut self, k: u64, size: u64)
        requires
            old(self).wf(),
            size <= BIG_SIZE_LIMIT,
        ensures
            final(self).wf(),
            final(self).get_spec(k) == Some(size),
            forall|j: u64| j != k ==> #[trigger] final(self).get_spec(j) == old(self).get_spec(j),
    {
        match self.find(k) {
            Some(i) => {
                self.entries.set(i, (k, size));
                assert(self.entries@[i as int].0 == k);
                assert forall|j: u64| j != k implies #[trigger] self.get_spec(j) == old(self).get_spec(j) by {
                    if exists|t: int| 0 <= t < self.entries@.len() && #[trigger] self.entries@[t].0 == j {
                        let t = choose|t: int| 0 <= t < self.entries@.len() && #[trigger] self.entries@[t].0 == j;
                        assert(old(self).entries@[t].0 == j);
                    }
                    if exists|t: int| 0 <= t < old(self).entries@.len() && #[trigger] old(self).entries@[t].0 == j {
                        let t = choose|t: int| 0 <= t < old(self).entries@.len() && #[trigger] old(self).entries@[t].0 == j;
                        assert(self.entries@[t].0 == j);
                    }
                }
            },
            None => {
                self.entries.push((k, size));
                let ghost n: int = self.entries@.len() - 1;
                assert(self.entries@[n].0 == k);
                assert forall|j: u64| j != k implies #[trigger] self.get_spec(j) == old(self).get_spec(j) by {
                    if exists|t: int| 0 <= t < self.entries@.len() && #[trigger] self.entries@[t].0 == j {
                        let t = choose|t: int| 0 <= t < self.entries@.len() && #[trigger] self.entries@[t].0 == j;
                        assert(old(self).entries@[t].0 == j);
                    }
                    if exists|t: int| 0 <= t < old(self).entries@.len() && #[trigger] old(self).entries@[t].0 == j {
                        let t = choose|t: int| 0 <= t < old(self).entries@.len() && #[trigger] old(self).entries@[t].0 == j;
                        assert(self.entries@[t].0 == j);
                    }
                }
            },
        }
    }

    /// Removes the record for `k` and returns it.
    pub fn remove(&mut self, k: u64) -> (r: Option<u64>)
        requires
            old(self).wf(),
        ensures
            final(self).wf(),
            r == old(self).get_spec(k),
            r matches Some(v) ==> v <= BIG_SIZE_LIMIT,
            final(self).get_spec(k) is None,
            forall|j: u64| j != k ==> #[trigger] final(self).get_spec(j) == old(self).get_spec(j),
    {
        match self.find(k) {
            Some(i) => {
                assert(old(self).entries@[i as int].0 == k);
                assert(old(self).entries@[i as int].1 <= BIG_SIZE_LIMIT);
                let e = self.entries.swap_remove(i);
                assert forall|t: int| 0 <= t < self.entries@.len() implies #[trigger] self.entries@[t].0 != k by {
                    if t == i {
                        assert(self.entries@[t] == old(self).entries@[old(self).entries@.len() - 1]);
                    } else {
                        assert(self.entries@[t] == old(self).entries@[t]);
                    }
                }
                assert forall|j: u64| j != k implies #[trigger] self.get_spec(j) == old(self).get_spec(j) by {
                    if exists|t: int| 0 <= t < self.entries@.len() && #[trigger] self.entries@[t].0 == j {
                        let t = choose|t: int| 0 <= t < self.entries@.len() && #[trigger] self.entries@[t].0 == j;
                        if t == i {
                            assert(old(self).entries@[old(self).entries@.len() - 1].0 == j);
                        } else {
                            assert(old(self).entries@[t].0 == j);
                        }
                    }
                    if exists|t: int| 0 <= t < old(self).entries@.len() && #[trigger] old(self).entries@[t].0 == j {
                        let t = choose|t: int| 0 <= t < old(self).entries@.len() && #[trigger] old(self).entries@[t].0 == j;
                        if t == old(self).entries@.len() - 1 {
                            assert(self.entries@[i as int].0 == j);
                        } else {
                            assert(t != i);
                            assert(self.entries@[t].0 == j);
                        }
                    }
                }
                Some(e.1)
            },
            None => None,
        }
    }
}


/// Slot `i` holds a block of at least `need` bytes.
pub open spec fn fits(d: Seq<Option<BigFreeBlock>>, i: int, need: u64) -> bool {
    &&& d[i] is Some
    &&& d[i].unwrap().total_size >= need
}

/// Slot `j` is the first empty one.
pub open spec fn first_empty(d: Seq<Option<BigFreeBlock>>, j: int) -> bool {
    &&& 0 <= j < d.len()
    &&& d[j] is None
    &&& forall|k: int| 0 <= k < j ==> #[trigger] d[k] is Some
}

/// The bytes of a big allocation of `size` payload bytes: header and payload
/// rounded up to 2 MiB when huge pages are forced, else to 4096.
pub open spec fn big_total(size: u64, force_thp: bool) -> u64 {
    aligned_up((size + HEADER_SIZE) as u64, if force_thp { HUGE_PAGE } else { 4096 })
}

/// `d1` is `d0` after the block at `p`, in the first slot `i` that fits
/// `need`, was taken: its slot emptied, and what exceeds `need` by
/// `min_split` bytes or more kept in the first empty slot.
pub open spec fn fit_taken(d0: Seq<Option<BigFreeBlock>>, d1: Seq<Option<BigFreeBlock>>, need: u64, min_split: u64, p: u64) -> bool {
    exists|i: int| {
        &&& 0 <= i < BIG_CACHE_SLOTS
        &&& #[trigger] fits(d0, i, need)
        &&& forall|k: int| 0 <= k < i ==> !#[trigger] fits(d0, k, need)
        &&& p == d0[i].unwrap().ptr
        &&& {
            let b = d0[i].unwrap();
            let e = d0.update(i, None);
            if b.total_size >= need + min_split {
                exists|j: int| #[trigger] first_empty(e, j) && d1
                    == e.update(j, Some(BigFreeBlock { ptr: (b.ptr + need) as u64, total_size: (b.total_size - need) as u64 }))
            } else {
                d1 == e
            }
        }
    }
}

/// `[lo, hi)` shares no byte with the cached block `b`.
pub open spec fn block_apart(b: BigFreeBlock, lo: int, hi: int) -> bool {
    b.ptr + b.total_size <= lo || hi <= b.ptr
}

/// The cached blocks share no byte with each other.
pub open spec fn cache_apart(d: Seq<Option<BigFreeBlock>>) -> bool {
    forall|i: int, k: int| 0 <= i < d.len() && 0 <= k < d.len() && i != k && #[trigger] d[i] is Some && #[trigger] d[k] is Some
        ==> block_apart(d[i].unwrap(), d[k].unwrap().ptr as int, d[k].unwrap().ptr + d[k].unwrap().total_size)
}

/// Taking `need > 0` bytes at `p` from a cache whose blocks share no byte:
/// the bytes taken lie inside one cached block, and what stays cached (the
/// rest of that block among it) shares no byte with the bytes taken nor
/// with each other.
pub proof fn law_fit_keeps_blocks_apart(d0: Seq<Option<BigFreeBlock>>, d1: Seq<Option<BigFreeBlock>>, need: u64, min_split: u64, p: u64)
    requires
        d0.len() == BIG_CACHE_SLOTS,
        need > 0,
        forall|i: int| 0 <= i < d0.len() ==> (#[trigger] d0[i] matches Some(b) ==> b.ptr + b.total_size <= u64::MAX),
        cache_apart(d0),
        fit_taken(d0, d1, need, min_split, p),
    ensures
        exists|i: int| 0 <= i < BIG_CACHE_SLOTS && #[trigger] d0[i] is Some && d0[i].unwrap().ptr == p && need <= d0[i].unwrap().total_size,
        forall|k: int| 0 <= k < d1.len() && #[trigger] d1[k] is Some ==> block_apart(d1[k].unwrap(), p as int, p + need),
        cache_apart(d1),
{
    let i = choose|i: int| {
        &&& 0 <= i < BIG_CACHE_SLOTS
        &&& #[trigger] fits(d0, i, need)
        &&& forall|k: int| 0 <= k < i ==> !#[trigger] fits(d0, k, need)
        &&& p == d0[i].unwrap().ptr
        &&& {
            let b = d0[i].unwrap();
            let e = d0.update(i, None);
            if b.total_size >= need + min_split {
                exists|j: int| #[trigger] first_empty(e, j) && d1
                    == e.update(j, Some(BigFreeBlock { ptr: (b.ptr + need) as u64, total_size: (b.total_size - need) as u64 }))
            } else {
                d1 == e
            }
        }
    };
    let b = d0[i].unwrap();
    let e = d0.update(i, None);
    assert(d0[i] is Some);
    // Every other block lies apart from the block that was taken.
    assert forall|k: int| 0 <= k < e.len() && #[trigger] e[k] is Some implies
        block_apart(e[k].unwrap(), b.ptr as int, b.ptr + b.total_size) by {
        assert(k != i);
        assert(d0[k] is Some);
    }
    if b.total_size >= need + min_split {
        let j = choose|j: int| #[trigger] first_empty(e, j) && d1
            == e.update(j, Some(BigFreeBlock { ptr: (b.ptr + need) as u64, total_size: (b.total_size - need) as u64 }));
        assert(b.ptr + need <= u64::MAX) by {
            assert(b.total_size >= need);
            assert(d0[i] matches Some(x) ==> x.ptr + x.total_size <= u64::MAX);
        }
        assert forall|k: int| 0 <= k < d1.len() && #[trigger] d1[k] is Some implies block_apart(d1[k].unwrap(), p as int, p + need) by {
            if k != j {
                assert(e[k] is Some);
            }
        }
        assert forall|x: int, y: int| 0 <= x < d1.len() && 0 <= y < d1.len() && x != y && #[trigger] d1[x] is Some && #[trigger] d1[y] is Some
            implies block_apart(d1[x].unwrap(), d1[y].unwrap().ptr as int, d1[y].unwrap().ptr + d1[y].unwrap().total_size) by {
            if x != j && y != j {
                assert(e[x] is Some && e[y] is Some);
                assert(x != i && y != i);
                assert(d0[x] is Some && d0[y] is Some);
            } else if x == j {
                assert(e[y] is Some);
            } else {
                assert(e[x] is Some);
            }
        }
    } else {
        assert forall|k: int| 0 <= k < d1.len() && #[trigger] d1[k] is Some implies block_apart(d1[k].unwrap(), p as int, p + need) by {
            assert(e[k] is Some);
        }
        assert forall|x: int, y: int| 0 <= x < d1.len() && 0 <= y < d1.len() && x != y && #[trigger] d1[x] is Some && #[trigger] d1[y] is Some
            implies block_apart(d1[x].unwrap(), d1[y].unwrap().ptr as int, d1[y].unwrap().ptr + d1[y].unwrap().total_size) by {
            assert(x != i && y != i);
            assert(d0[x] is Some && d0[y] is Some);
        }
    }
}

/// The rounding unit of big allocations.
pub open spec fn big_unit(force_thp: bool) -> u64 {
    if force_thp { HUGE_PAGE } else { 4096 }
}

impl BigFreeCache {
    pub open spec fn wf(&self) -> bool {
        &&& self.data@.len() == BIG_CACHE_SLOTS
        &&& !self.lock.is_locked()
        &&& forall|i: int| 0 <= i < BIG_CACHE_SLOTS ==> (#[trigger] self.data@[i] matches Some(b)
                ==> b.ptr + b.total_size <= u64::MAX && b.total_size <= BIG_SIZE_LIMIT + 2 * HUGE_PAGE)
    }

    /// An empty cache.
    pub fn new() -> (c: Self)
        ensures
            c.wf(),
            forall|i: int| 0 <= i < BIG_CACHE_SLOTS ==> #[trigger] c.data@[i] is None,
    {
        let mut data: Vec<Option<BigFreeBlock>> = Vec::new();
        let mut i: usize = 0;
        while i < BIG_CACHE_SLOTS
            invariant
                i <= BIG_CACHE_SLOTS,
                data@.len() == i,
                forall|k: int| 0 <= k < i ==> #[trigger] data@[k] is None,
            decreases BIG_CACHE_SLOTS - i,
        {
            data.push(None);
            i = i + 1;
        }
        BigFreeCache { lock: SerialLock::new(), data }
    }

    /// Takes the first cached block of at least `need` bytes. What exceeds
    /// `need` by `min_split` bytes or more is kept, as a block of its own in
    /// the first empty slot.
    pub fn take_fit(&mut self, need: u64, min_split: u64) -> (r: Option<u64>)
        requires
            old(self).wf(),
            need <= BIG_SIZE_LIMIT + 2 * HUGE_PAGE,
            min_split <= HUGE_PAGE,
        ensures
            final(self).wf(),
            r is None <==> forall|i: int| 0 <= i < BIG_CACHE_SLOTS ==> !#[trigger] fits(old(self).data@, i, need),
            r is None ==> final(self).data@ == old(self).data@,
            r matches Some(p) ==> fit_taken(old(self).data@, final(self).data@, need, min_split, p),
            r is Some && need > 0 && cache_apart(old(self).data@) ==> {
                &&& cache_apart(final(self).data@)
                &&& forall|k: int| 0 <= k < BIG_CACHE_SLOTS && #[trigger] final(self).data@[k] is Some
                    ==> block_apart(final(self).data@[k].unwrap(), r.unwrap() as int, r.unwrap() + need)
            },
    {
        let mut i: usize = 0;
        while i < BIG_CACHE_SLOTS
            invariant
                self.wf(),
                *self == *old(self),
                need <= BIG_SIZE_LIMIT + 2 * HUGE_PAGE,
                min_split <= HUGE_PAGE,
                i <= BIG_CACHE_SLOTS,
                forall|k: int| 0 <= k < i ==> !#[trigger] fits(old(self).data@, k, need),
            decreases BIG_CACHE_SLOTS - i,
        {
            if let Some(block) = self.data[i] {
                if block.total_size >= need {
                    let ghost d0 = self.data@;
                    assert(fits(d0, i as int, need));
                    proof {
                        assert(d0[i as int] matches Some(b) ==> b.ptr + b.total_size <= u64::MAX);
                    }
                    self.data.set(i, None);
                    let ghost d1 = self.data@;
                    if block.total_size >= need + min_split {
                        let mut j: usize = 0;
                        while j < i && self.data[j].is_some()
                            invariant
                                j <= i < BIG_CACHE_SLOTS,
                                self.data@ == d1,
                                d1.len() == BIG_CACHE_SLOTS,
                                d1[i as int] is None,
                                forall|k: int| 0 <= k < j ==> #[trigger] d1[k] is Some,
                            decreases i - j,
                        {
                            j = j + 1;
                        }
                        assert(first_empty(d1, j as int));
                        let rest = BigFreeBlock { ptr: block.ptr + need, total_size: block.total_size - need };
                        self.data.set(j, Some(rest));
                        proof {
                            assert forall|k: int| 0 <= k < BIG_CACHE_SLOTS implies (#[trigger] self.data@[k] matches Some(b)
                                ==> b.ptr + b.total_size <= u64::MAX && b.total_size <= BIG_SIZE_LIMIT + 2 * HUGE_PAGE) by {
                                if k != j && k != i {
                                    assert(self.data@[k] == d0[k]);
                                }
                            }
                        }
                    } else {
                        proof {
                            assert forall|k: int| 0 <= k < BIG_CACHE_SLOTS implies (#[trigger] self.data@[k] matches Some(b)
                                ==> b.ptr + b.total_size <= u64::MAX && b.total_size <= BIG_SIZE_LIMIT + 2 * HUGE_PAGE) by {
                                if k != i {
                                    assert(self.data@[k] == d0[k]);
                                }
                            }
                        }
                    }
                    proof {
                        if need > 0 && cache_apart(old(self).data@) {
                            law_fit_keeps_blocks_apart(old(self).data@, self.data@, need, min_split, block.ptr);
                        }
                    }
                    return Some(block.ptr);
                }
            }
            i = i + 1;
        }
        None
    }
}

/// A request that claimed nothing leaves no block in use that was free.
proof fn lemma_nothing_claimed(m0: &VaBitmap, m1: &VaBitmap)
    requires
        m1.len() >= m0.len(),
        forall|j: int| 0 <= j < m0.len() ==> (#[trigger] m1.seg(j)).same_range(&m0.seg(j)),
        forall|j: int| 0 <= j < m1.len() ==> #[trigger] untouched(m0, m1, j),
    ensures
        forall|j: int, i: int| 0 <= j < m0.len() && 0 <= i < m0.seg(j).words().len() * 64
            && #[trigger] m1.seg(j).is_used(i) ==> m0.seg(j).is_used(i),
        forall|j: int, i: int| m0.len() <= j < m1.len() && 0 <= i < m1.seg(j).total() ==> !#[trigger] m1.seg(j).is_used(i),
{
    assert forall|j: int, i: int| 0 <= j < m0.len() && 0 <= i < m0.seg(j).words().len() * 64
        && #[trigger] m1.seg(j).is_used(i) implies m0.seg(j).is_used(i) by {
        assert(untouched(m0, m1, j));
    }
    assert forall|j: int, i: int| m0.len() <= j < m1.len() && 0 <= i < m1.seg(j).total() implies !#[trigger] m1.seg(j).is_used(i) by {
        assert(untouched(m0, m1, j));
    }
}

/// A claim of `total` bytes at `h` (a whole number of blocks) given back at
/// once leaves no block in use that was free before the claim.
proof fn lemma_claim_undone(m0: &VaBitmap, m1: &VaBitmap, m2: &VaBitmap, total: u64, h: u64)
    requires
        m0.wf(),
        m1.wf(),
        1 <= total,
        total % 4096 == 0,
        total + 4096 <= u64::MAX,
        claimed(m0, m1, total, h),
        VaBitmap::same_segments(m1, m2),
        forall|k: int| 0 <= k < m1.len() ==> if h != 0 && total != 0 && m1.seg(k).start() <= h < m1.seg(k).end() {
            Segment::free_effect(&m1.seg(k), &#[trigger] m2.seg(k), h, total)
        } else {
            m2.seg(k) == m1.seg(k)
        },
    ensures
        m2.len() >= m0.len(),
        forall|j: int, i: int| 0 <= j < m0.len() && 0 <= i < m0.seg(j).words().len() * 64
            && #[trigger] m2.seg(j).is_used(i) ==> m0.seg(j).is_used(i),
        forall|j: int, i: int| m0.len() <= j < m2.len() && 0 <= i < m2.seg(j).total() ==> !#[trigger] m2.seg(j).is_used(i),
{
    let (k, s0) = choose|k: int, s0: Segment| {
        &&& 0 <= k < m1.len()
        &&& #[trigger] claim_effect(&s0, &m1.seg(k), (total + 4095) / 4096, Some(h))
        &&& s0.wf()
        &&& m1.seg(k).same_range(&s0)
        &&& k < m0.len() ==> s0 == m0.seg(k)
        &&& k >= m0.len() ==> forall|i: int| 0 <= i < s0.total() ==> !#[trigger] s0.is_used(i)
        &&& forall|j: int| 0 <= j < m1.len() && j != k ==> untouched(m0, m1, j)
    };
    let count = (total + 4095) / 4096;
    assert(count * 4096 == total);
    m1.lemma_seg_wf(k);
    lemma_claim_inside(&s0, &m1.seg(k), count, h);
    assert(Segment::free_effect(&m1.seg(k), &m2.seg(k), h, total));
    law_claim_then_free(&s0, &m1.seg(k), &m2.seg(k), count, h);
    m2.seg(k).lemma_same_range_total(&s0);
    assert forall|j: int, i: int| 0 <= j < m0.len() && 0 <= i < m0.seg(j).words().len() * 64
        && #[trigger] m2.seg(j).is_used(i) implies m0.seg(j).is_used(i) by {
        if j != k {
            assert(untouched(m0, m1, j));
            assert(m1.seg(j).same_range(&m0.seg(j)));
        }
    }
    assert forall|j: int, i: int| m0.len() <= j < m2.len() && 0 <= i < m2.seg(j).total() implies !#[trigger] m2.seg(j).is_used(i) by {
        if j != k {
            assert(untouched(m0, m1, j));
            m1.lemma_seg_wf(j);
            m1.seg(j).lemma_blocks_fit_words();
            m2.seg(j).lemma_same_range_total(&m1.seg(j));
            assert(!m1.seg(j).is_used(i));
            if h != 0 && total != 0 && m1.seg(j).start() <= h < m1.seg(j).end() {
                assert(Segment::free_effect(&m1.seg(j), &m2.seg(j), h, total));
            } else {
                assert(m2.seg(j) == m1.seg(j));
            }
        } else {
            s0.lemma_blocks_fit_words();
            assert(!s0.is_used(i));
            assert(m2.seg(k).is_used(i) == s0.is_used(i));
        }
    }
}

/// Serves a big allocation of `size` bytes and returns the address of its
/// header (the payload follows it): a cached block that is large enough,
/// else fresh address space made accessible. The block is rounded up to
/// `big_total`, advised into huge pages when it is a whole number of them
/// (unless they are disabled), and its size is recorded. `Ok(None)` means
/// that no memory could be had; errors are fatal.
#[verifier::spinoff_prover]
pub fn big_malloc<K: Kernel>(
    cache: &mut BigFreeCache,
    map: &mut BigAllocMap,
    space: &mut AddressSpace,
    os: &mut K,
    size: u64,
    force_thp: bool,
    disable_thp: bool,
) -> (r: Result<Option<u64>, OxidallocError>)
    requires
        old(cache).wf(),
        old(map).wf(),
        old(space).wf(),
        size <= BIG_SIZE_LIMIT,
    ensures
        final(cache).wf(),
        final(map).wf(),
        final(space).wf(),
        forall|a: u64| old(space).map.owns(a) ==> #[trigger] final(space).map.owns(a),
        r matches Err(e) ==> e == OxidallocError::SecurityViolation || e == OxidallocError::VAIinitFailed,
        r matches Ok(Some(h)) ==> {
            &&& final(map).get_spec(h) == Some(size)
            &&& forall|k: u64| k != h ==> #[trigger] final(map).get_spec(k) == old(map).get_spec(k)
            &&& (exists|i: int| 0 <= i < BIG_CACHE_SLOTS && #[trigger] fits(old(cache).data@, i, big_total(size, force_thp))
                    && old(cache).data@[i].unwrap().ptr == h)
                || claimed(&old(space).map, &final(space).map, big_total(size, force_thp), h)
        },
        (exists|i: int| 0 <= i < BIG_CACHE_SLOTS && #[trigger] fits(old(cache).data@, i, big_total(size, force_thp)))
            ==> r is Ok && r.unwrap() is Some,
        (exists|i: int| 0 <= i < BIG_CACHE_SLOTS && #[trigger] fits(old(cache).data@, i, big_total(size, force_thp))) ==> {
            &&& fit_taken(old(cache).data@, final(cache).data@, big_total(size, force_thp), big_unit(force_thp), r->Ok_0->Some_0)
            &&& *final(space) == *old(space)
            &&& cache_apart(old(cache).data@) ==> {
                &&& cache_apart(final(cache).data@)
                &&& forall|k: int| 0 <= k < BIG_CACHE_SLOTS && #[trigger] final(cache).data@[k] is Some
                    ==> block_apart(final(cache).data@[k].unwrap(), r->Ok_0->Some_0 as int, r->Ok_0->Some_0 + big_total(size, force_thp))
            }
        },
        !(exists|i: int| 0 <= i < BIG_CACHE_SLOTS && #[trigger] fits(old(cache).data@, i, big_total(size, force_thp)))
            ==> final(cache).data@ == old(cache).data@,
        !(r matches Ok(Some(_))) ==> final(cache).data@ == old(cache).data@
            && forall|k: u64| #[trigger] final(map).get_spec(k) == old(map).get_spec(k),
        !(r matches Ok(Some(_))) ==> {
            &&& final(space).map.len() >= old(space).map.len()
            &&& forall|j: int, i: int| 0 <= j < old(space).map.len() && 0 <= i < old(space).map.seg(j).words().len() * 64
                && #[trigger] final(space).map.seg(j).is_used(i) ==> old(space).map.seg(j).is_used(i)
            &&& forall|j: int, i: int| old(space).map.len() <= j < final(space).map.len() && 0 <= i < final(space).map.seg(j).total()
                ==> !#[trigger] final(space).map.seg(j).is_used(i)
        },
{
    let unit: u64 = if force_thp { HUGE_PAGE } else { 4096 };
    let aligned_total = align_to(size + HEADER_SIZE as u64, unit);
    proof {
        crate::va::lemma_page_units_pow2();
    }
    cache.lock.lock();
    cache.lock.unlock();
    let fit = cache.take_fit(aligned_total, unit);
    proof {
        assert(aligned_total == big_total(size, force_thp));
        if !(exists|i: int| 0 <= i < BIG_CACHE_SLOTS && #[trigger] fits(old(cache).data@, i, big_total(size, force_thp))) {
            assert(fit is None);
            assert(cache.data@ == old(cache).data@);
        }
    }
    let actual = match fit {
        Some(p) => p,
        None => {
            let ghost m0 = space.map;
            let got = space.allocate(aligned_total, os);
            match got {
                Err(e) => {
                    proof { lemma_nothing_claimed(&m0, &space.map); }
                    return Err(e);
                },
                Ok(None) => {
                    proof { lemma_nothing_claimed(&m0, &space.map); }
                    return Ok(None);
                },
                Ok(Some(h)) => {
                    if !os.protect_read_write(h, aligned_total) {
                        let ghost m1 = space.map;
                        space.map.free(h, aligned_total);
                        proof { lemma_claim_undone(&m0, &m1, &space.map, aligned_total, h); }
                        return Ok(None);
                    }
                    h
                },
            }
        },
    };
    if aligned_total % HUGE_PAGE == 0 && !disable_thp {
        os.advise(actual, aligned_total, Advice(MADV_HUGEPAGE));
    }
    map.insert(actual, size);
    Ok(Some(actual))
}

/// `new` is the segment `old` holding the big allocation at `header` after
/// it grew in place from `payload` to `new_size` bytes: the blocks right
/// after it were free and are now in use, and no other block changed.
pub open spec fn grown_in_place(old: &Segment, new: &Segment, header: u64, payload: u64, new_size: u64, force_thp: bool) -> bool {
    let ob = (big_total(payload, force_thp) + 4095) / 4096;
    let nb = (big_total(new_size, force_thp) + 4095) / 4096;
    let sb = (header - old.start()) / 4096;
    &&& ob <= nb
    &&& range_clear(old.words(), sb + ob, nb - ob)
    &&& range_written(old.words(), new.words(), sb + ob, nb - ob, true)
}

/// The blocks right after the big allocation at `header` that growing it
/// from `payload` to `new_size` bytes needs are all free and inside the
/// segment that holds it.
pub open spec fn room_after(map: &VaBitmap, header: u64, payload: u64, new_size: u64, force_thp: bool) -> bool {
    let ob = (big_total(payload, force_thp) + 4095) / 4096;
    let nb = (big_total(new_size, force_thp) + 4095) / 4096;
    exists|k: int| 0 <= k < map.len() && #[trigger] map.seg(k).start() <= header < map.seg(k).end()
        && (header - map.seg(k).start()) / 4096 + nb <= map.seg(k).total()
        && range_clear(map.seg(k).words(), (header - map.seg(k).start()) / 4096 + ob, nb - ob)
}

/// Grows, where it lies, the big allocation whose header is at `header`
/// from `payload` to `new_size` bytes: the blocks right after it are
/// claimed when they are all free and inside its segment, and their pages
/// made readable and writable; when the new size needs no more blocks, only
/// the recorded size changes. When the kernel refuses those pages the
/// blocks are given back. Returns whether the allocation grew; its
/// recorded size is then `new_size`.
pub fn grow_in_place<K: Kernel>(
    space: &mut AddressSpace,
    map: &mut BigAllocMap,
    os: &mut K,
    header: u64,
    payload: u64,
    new_size: u64,
    force_thp: bool,
) -> (grown: bool)
    requires
        old(space).wf(),
        old(map).wf(),
        old(map).get_spec(header) == Some(payload),
        payload < new_size <= BIG_SIZE_LIMIT,
    ensures
        final(space).wf(),
        final(map).wf(),
        final(space).rng == old(space).rng,
        final(space).reserve == old(space).reserve,
        VaBitmap::same_segments(&old(space).map, &final(space).map),
        forall|a: u64| #[trigger] final(space).map.owns(a) == old(space).map.owns(a),
        grown ==> {
            &&& final(map).get_spec(header) == Some(new_size)
            &&& forall|k: u64| k != header ==> #[trigger] final(map).get_spec(k) == old(map).get_spec(k)
            &&& forall|j: int| 0 <= j < old(space).map.len() ==> if old(space).map.seg(j).start() <= header < old(space).map.seg(j).end() {
                grown_in_place(&old(space).map.seg(j), &#[trigger] final(space).map.seg(j), header, payload, new_size, force_thp)
            } else {
                final(space).map.seg(j) == old(space).map.seg(j)
            }
        },
        (big_total(payload, force_thp) + 4095) / 4096 <= (big_total(new_size, force_thp) + 4095) / 4096,
        (big_total(payload, force_thp) + 4095) / 4096 == (big_total(new_size, force_thp) + 4095) / 4096 ==> grown,
        grown && (big_total(payload, force_thp) + 4095) / 4096 != (big_total(new_size, force_thp) + 4095) / 4096
            ==> header + big_total(new_size, force_thp) <= u64::MAX
            && (big_total(payload, force_thp) + 4095) / 4096 < (big_total(new_size, force_thp) + 4095) / 4096
            && room_after(&old(space).map, header, payload, new_size, force_thp),
        !grown ==> {
            &&& *final(map) == *old(map)
            &&& forall|j: int, i: int| 0 <= j < old(space).map.len() && 0 <= i < old(space).map.seg(j).words().len() * 64
                ==> #[trigger] final(space).map.seg(j).is_used(i) == old(space).map.seg(j).is_used(i)
        },
{
    let unit: u64 = if force_thp { HUGE_PAGE } else { 4096 };
    proof {
        crate::va::lemma_page_units_pow2();
    }
    let old_total = align_to(payload + HEADER_SIZE as u64, unit);
    let new_total = align_to(new_size + HEADER_SIZE as u64, unit);
    assert(old_total == big_total(payload, force_thp));
    assert(new_total == big_total(new_size, force_thp));
    assert((old_total + 4095) / 4096 <= (new_total + 4095) / 4096) by (nonlinear_arith)
        requires
            old_total % unit == 0,
            new_total % unit == 0,
            unit > 0,
            payload + 16 <= old_total < payload + 16 + unit,
            new_size + 16 <= new_total,
            payload < new_size,
    {
        if old_total > new_total {
            assert(old_total / unit > new_total / unit);
            assert(old_total >= new_total + unit);
        }
    }
    if (new_total + 4095) / 4096 == (old_total + 4095) / 4096 {
        // The same blocks hold the new size.
        map.insert(header, new_size);
        return true;
    }
    if header > u64::MAX - new_total || (new_total + 4095) / 4096 < (old_total + 4095) / 4096 {
        return false;
    }
    let ghost m0 = space.map;
    proof {
        assert forall|k: int| 0 <= k < m0.len() && m0.seg(k).start() <= header < m0.seg(k).end()
            implies #[trigger] m0.seg(k).realloc_args(header, old_total, new_total) by {}
    }
    let got = space.map.realloc_inplace(header, old_total, new_total);
    if got.is_none() {
        proof {
            assert forall|j: int, i: int| 0 <= j < m0.len() && 0 <= i < m0.seg(j).words().len() * 64
                implies #[trigger] space.map.seg(j).is_used(i) == m0.seg(j).is_used(i) by {
                if m0.seg(j).start() <= header < m0.seg(j).end() {
                    assert(Segment::realloc_effect(&m0.seg(j), &space.map.seg(j), header, old_total, new_total, got));
                }
            }
        }
        return false;
    }
    let ghost m1 = space.map;
    if !os.protect_read_write(header + old_total, new_total - old_total) {
        proof {
            assert forall|k: int| 0 <= k < m1.len() && m1.seg(k).start() <= header < m1.seg(k).end()
                implies #[trigger] m1.seg(k).realloc_args(header, new_total, old_total) by {
                assert(m0.seg(k).start() <= header < m0.seg(k).end());
                assert(Segment::realloc_effect(&m0.seg(k), &m1.seg(k), header, old_total, new_total, got));
                m0.lemma_seg_wf(k);
                m0.seg(k).lemma_blocks_fit_words();
            }
        }
        let back = space.map.realloc_inplace(header, new_total, old_total);
        proof {
            assert forall|j: int, i: int| 0 <= j < m0.len() && 0 <= i < m0.seg(j).words().len() * 64
                implies #[trigger] space.map.seg(j).is_used(i) == m0.seg(j).is_used(i) by {
                if m0.seg(j).start() <= header < m0.seg(j).end() {
                    assert(Segment::realloc_effect(&m0.seg(j), &m1.seg(j), header, old_total, new_total, got));
                    assert(Segment::realloc_effect(&m1.seg(j), &space.map.seg(j), header, new_total, old_total, back));
                    assert(bit_of(space.map.seg(j).words(), i) == bit_of(m0.seg(j).words(), i));
                }
            }
        }
        return false;
    }
    map.insert(header, new_size);
    proof {
        let k = choose|k: int| 0 <= k < m0.len() && #[trigger] m0.seg(k).start() <= header < m0.seg(k).end();
        assert(Segment::realloc_effect(&m0.seg(k), &m1.seg(k), header, old_total, new_total, got));
        assert(room_after(&m0, header, payload, new_size, force_thp));
        assert forall|j: int| 0 <= j < m0.len() && m0.seg(j).start() <= header < m0.seg(j).end()
            implies grown_in_place(&m0.seg(j), &#[trigger] space.map.seg(j), header, payload, new_size, force_thp) by {
            assert(Segment::realloc_effect(&m0.seg(j), &space.map.seg(j), header, old_total, new_total, got));
        }
    }
    true
}

/// `new` is the segment `old` holding the big allocation at `header` after
/// it shrank in place from `payload` to `new_size` bytes: the blocks past
/// its new end are free, and no other block changed.
pub open spec fn shrunk_in_place(old: &Segment, new: &Segment, header: u64, payload: u64, new_size: u64, force_thp: bool) -> bool {
    let ob = (big_total(payload, force_thp) + 4095) / 4096;
    let nb = (big_total(new_size, force_thp) + 4095) / 4096;
    let sb = (header - old.start()) / 4096;
    &&& nb <= ob
    &&& range_written(old.words(), new.words(), sb + nb, ob - nb, false)
}

/// Growing a big allocation in place and shrinking it back to its first
/// size leaves every block of its segment as it was.
pub proof fn law_grow_then_shrink_restores(s0: &Segment, s1: &Segment, s2: &Segment, header: u64, payload: u64, new_size: u64, force_thp: bool)
    requires
        s1.same_range(s0),
        grown_in_place(s0, s1, header, payload, new_size, force_thp),
        shrunk_in_place(s1, s2, header, new_size, payload, force_thp),
    ensures
        forall|i: int| 0 <= i < s0.words().len() * 64 ==> #[trigger] s2.is_used(i) == s0.is_used(i),
{
    assert forall|i: int| 0 <= i < s0.words().len() * 64 implies #[trigger] s2.is_used(i) == s0.is_used(i) by {
        assert(bit_of(s2.words(), i) == bit_of(s0.words(), i));
    }
}

/// Shrinks, where it lies, the big allocation whose header is at `header`
/// from `payload` to `new_size` bytes: when the new size needs fewer
/// blocks, the blocks past its new end go back to its segment and their
/// pages to the kernel; when it needs as many, only the recorded size
/// changes. Returns whether the allocation shrank; its recorded size is
/// then `new_size`.
pub fn shrink_in_place<K: Kernel>(
    space: &mut AddressSpace,
    map: &mut BigAllocMap,
    os: &mut K,
    header: u64,
    payload: u64,
    new_size: u64,
    force_thp: bool,
) -> (shrunk: bool)
    requires
        old(space).wf(),
        old(map).wf(),
        old(map).get_spec(header) == Some(payload),
        new_size <= payload <= BIG_SIZE_LIMIT,
    ensures
        final(space).wf(),
        final(map).wf(),
        final(space).rng == old(space).rng,
        final(space).reserve == old(space).reserve,
        VaBitmap::same_segments(&old(space).map, &final(space).map),
        forall|a: u64| #[trigger] final(space).map.owns(a) == old(space).map.owns(a),
        shrunk ==> {
            &&& final(map).get_spec(header) == Some(new_size)
            &&& forall|k: u64| k != header ==> #[trigger] final(map).get_spec(k) == old(map).get_spec(k)
            &&& forall|j: int| 0 <= j < old(space).map.len() ==> if old(space).map.seg(j).start() <= header < old(space).map.seg(j).end() {
                shrunk_in_place(&old(space).map.seg(j), &#[trigger] final(space).map.seg(j), header, payload, new_size, force_thp)
            } else {
                final(space).map.seg(j) == old(space).map.seg(j)
            }
        },
        !shrunk ==> *final(map) == *old(map) && *final(space) == *old(space),
        header + big_total(payload, force_thp) <= u64::MAX
            && (big_total(new_size, force_thp) + 4095) / 4096 < (big_total(payload, force_thp) + 4095) / 4096
            && old(space).map.span_in_words(header, big_total(payload, force_thp))
            ==> shrunk,
        (big_total(new_size, force_thp) + 4095) / 4096 <= (big_total(payload, force_thp) + 4095) / 4096,
        (big_total(new_size, force_thp) + 4095) / 4096 == (big_total(payload, force_thp) + 4095) / 4096 ==> shrunk,
        shrunk ==> (big_total(new_size, force_thp) + 4095) / 4096 <= (big_total(payload, force_thp) + 4095) / 4096,
{
    let unit: u64 = if force_thp { HUGE_PAGE } else { 4096 };
    proof {
        crate::va::lemma_page_units_pow2();
    }
    let old_total = align_to(payload + HEADER_SIZE as u64, unit);
    let new_total = align_to(new_size + HEADER_SIZE as u64, unit);
    assert(old_total == big_total(payload, force_thp));
    assert(new_total == big_total(new_size, force_thp));
    assert((new_total + 4095) / 4096 <= (old_total + 4095) / 4096) by (nonlinear_arith)
        requires
            old_total % unit == 0,
            new_total % unit == 0,
            unit > 0,
            new_size + 16 <= new_total < new_size + 16 + unit,
            payload + 16 <= old_total,
            new_size <= payload,
    {
        if new_total > old_total {
            assert(new_total / unit > old_total / unit);
            assert(new_total >= old_total + unit);
        }
    }
    if (new_total + 4095) / 4096 == (old_total + 4095) / 4096 {
        // The same blocks hold the new size.
        map.insert(header, new_size);
        return true;
    }
    if header > u64::MAX - old_total || (new_total + 4095) / 4096 > (old_total + 4095) / 4096
        || !space.map.span_fits(header, old_total) {
        return false;
    }
    let ghost m0 = space.map;
    proof {
        assert forall|k: int| 0 <= k < m0.len() && m0.seg(k).start() <= header < m0.seg(k).end()
            implies #[trigger] m0.seg(k).realloc_args(header, old_total, new_total) by {}
    }
    let got = space.map.realloc_inplace(header, old_total, new_total);
    if got.is_none() {
        proof {
            if m0.owns(header) {
                let k = choose|k: int| 0 <= k < m0.len() && #[trigger] m0.seg(k).start() <= header < m0.seg(k).end();
                assert(Segment::realloc_effect(&m0.seg(k), &space.map.seg(k), header, old_total, new_total, got));
            }
        }
        return false;
    }
    os.advise(header + new_total, old_total - new_total, Advice(MADV_DONTNEED));
    map.insert(header, new_size);
    proof {
        assert forall|j: int| 0 <= j < m0.len() && m0.seg(j).start() <= header < m0.seg(j).end()
            implies shrunk_in_place(&m0.seg(j), &#[trigger] space.map.seg(j), header, payload, new_size, force_thp) by {
            assert(Segment::realloc_effect(&m0.seg(j), &space.map.seg(j), header, old_total, new_total, got));
        }
    }
    true
}

/// Releases the big allocation whose header is at `header`: its recorded
/// size must be there (else the pointer is not one of ours, a fatal
/// condition). Huge-page advice is withdrawn, and the block goes into the
/// first empty slot of the cache; with the cache full, the oldest cached
/// block is given back to the address space and the others move down.
#[verifier::loop_isolation(false)]
pub fn big_free<K: Kernel>(
    cache: &mut BigFreeCache,
    map: &mut BigAllocMap,
    space: &mut AddressSpace,
    os: &mut K,
    header: u64,
    force_thp: bool,
    disable_thp: bool,
) -> (r: Result<(), OxidallocError>)
    requires
        old(cache).wf(),
        old(map).wf(),
        old(space).wf(),
    ensures
        final(cache).wf(),
        final(map).wf(),
        final(space).wf(),
        forall|a: u64| #[trigger] final(space).map.owns(a) == old(space).map.owns(a),
        r is Err <==> old(map).get_spec(header) is None || header + big_total(old(map).get_spec(header).unwrap(), force_thp) > u64::MAX,
        r matches Err(e) ==> e == OxidallocError::AttackOrCorruption,
        r is Ok ==> {
            &&& final(map).get_spec(header) is None
            &&& forall|k: u64| k != header ==> #[trigger] final(map).get_spec(k) == old(map).get_spec(k)
            &&& exists|i: int| 0 <= i < BIG_CACHE_SLOTS && #[trigger] final(cache).data@[i]
                == Some(BigFreeBlock { ptr: header, total_size: big_total(old(map).get_spec(header).unwrap(), force_thp) })
            &&& ({
                let blk = Some(BigFreeBlock { ptr: header, total_size: big_total(old(map).get_spec(header).unwrap(), force_thp) });
                &&& forall|j: int| #[trigger] first_empty(old(cache).data@, j) ==> final(cache).data@ == old(cache).data@.update(j, blk)
                &&& (forall|i: int| 0 <= i < BIG_CACHE_SLOTS ==> #[trigger] old(cache).data@[i] is Some)
                    ==> final(cache).data@ == old(cache).data@.drop_first().push(blk)
            })
        },
        r is Err ==> final(cache).data@ == old(cache).data@ && final(map).get_spec(header) == old(map).get_spec(header),
        !(r is Ok && forall|i: int| 0 <= i < BIG_CACHE_SLOTS ==> #[trigger] old(cache).data@[i] is Some) ==> *final(space) == *old(space),
        r is Ok && (forall|i: int| 0 <= i < BIG_CACHE_SLOTS ==> #[trigger] old(cache).data@[i] is Some) ==> {
            let ev = old(cache).data@[0].unwrap();
            forall|k: int| 0 <= k < old(space).map.len() ==> if ev.ptr != 0 && ev.total_size != 0
                && old(space).map.seg(k).start() <= ev.ptr < old(space).map.seg(k).end() {
                Segment::free_effect(&old(space).map.seg(k), &#[trigger] final(space).map.seg(k), ev.ptr, ev.total_size)
            } else {
                final(space).map.seg(k) == old(space).map.seg(k)
            }
        },
{
    let unit: u64 = if force_thp { HUGE_PAGE } else { 4096 };
    proof {
        crate::va::lemma_page_units_pow2();
    }
    let payload = match map.get(header) {
        Some(s) => s,
        None => return Err(OxidallocError::AttackOrCorruption),
    };
    let total = align_to(payload + HEADER_SIZE as u64, unit);
    if header > u64::MAX - total {
        return Err(OxidallocError::AttackOrCorruption);
    }
    let removed = map.remove(header);
    if total % HUGE_PAGE == 0 && !disable_thp {
        os.advise(header, total, Advice(MADV_NORMAL));
    }
    let block = BigFreeBlock { ptr: header, total_size: total };
    cache.lock.lock();
    let mut i: usize = 0;
    while i < BIG_CACHE_SLOTS
        invariant
            cache.data@ == old(cache).data@,
            cache.lock.is_locked(),
            old(cache).wf(),
            i <= BIG_CACHE_SLOTS,
            forall|k: int| 0 <= k < i ==> #[trigger] cache.data@[k] is Some,
        decreases BIG_CACHE_SLOTS - i,
    {
        if cache.data[i].is_none() {
            cache.data.set(i, Some(block));
            cache.lock.unlock();
            proof {
                assert(cache.data@[i as int] == Some(block));
                assert(first_empty(old(cache).data@, i as int));
                assert forall|j: int| #[trigger] first_empty(old(cache).data@, j) implies j == i by {
                    if j < i {
                        assert(old(cache).data@[j] is Some);
                    }
                    if j > i {
                        assert(old(cache).data@[i as int] is Some);
                    }
                }
            }
            return Ok(());
        }
        i = i + 1;
    }
    if let Some(to_trim) = cache.data[0] {
        os.advise(to_trim.ptr, to_trim.total_size, Advice(MADV_DONTNEED));
        space.map.free(to_trim.ptr, to_trim.total_size);
    }
    let mut k: usize = 0;
    let ghost d0 = cache.data@;
    while k < BIG_CACHE_SLOTS - 1
        invariant
            k < BIG_CACHE_SLOTS,
            cache.data@.len() == BIG_CACHE_SLOTS,
            forall|t: int| 0 <= t < k ==> #[trigger] cache.data@[t] == d0[t + 1],
            forall|t: int| k <= t < BIG_CACHE_SLOTS ==> #[trigger] cache.data@[t] == d0[t],
        decreases BIG_CACHE_SLOTS - 1 - k,
    {
        let next = cache.data[k + 1];
        cache.data.set(k, next);
        k = k + 1;
    }
    cache.data.set(BIG_CACHE_SLOTS - 1, Some(block));
    cache.lock.unlock();
    proof {
        assert(cache.data@[BIG_CACHE_SLOTS - 1] == Some(block));
        assert(cache.data@ =~= old(cache).data@.drop_first().push(Some(block)));
        assert forall|j: int| #[trigger] first_empty(old(cache).data@, j) implies false by {
            assert(old(cache).data@[j] is Some);
        }
        assert forall|t: int| 0 <= t < BIG_CACHE_SLOTS implies (#[trigger] cache.data@[t] matches Some(b)
            ==> b.ptr + b.total_size <= u64::MAX && b.total_size <= BIG_SIZE_LIMIT + 2 * HUGE_PAGE) by {
            if t < BIG_CACHE_SLOTS - 1 {
                assert(cache.data@[t] == old(cache).data@[t + 1]);
            }
        }
    }
    Ok(())
}

/// Gives every cached big block back: its pages to the kernel, its address
/// range to the address space. Returns the bytes released (saturated).
pub fn trim_big_allocations<K: Kernel>(cache: &mut BigFreeCache, space: &mut AddressSpace, os: &mut K) -> (freed: u64)
    requires
        old(cache).wf(),
        old(space).wf(),
    ensures
        final(cache).wf(),
        final(space).wf(),
        forall|i: int| 0 <= i < BIG_CACHE_SLOTS ==> #[trigger] final(cache).data@[i] is None,
        forall|a: u64| #[trigger] final(space).map.owns(a) == old(space).map.owns(a),
        freed == cached_bytes(old(cache).data@, BIG_CACHE_SLOTS as int),
        VaBitmap::same_segments(&old(space).map, &final(space).map),
        forall|j: int, i: int| 0 <= j < old(space).map.len() && 0 <= i < old(space).map.seg(j).words().len() * 64
            ==> #[trigger] final(space).map.seg(j).is_used(i)
                == (old(space).map.seg(j).is_used(i) && !freed_by(old(cache).data@, BIG_CACHE_SLOTS as int, old(space).map.seg(j), i)),
{
    cache.lock.lock();
    let mut freed: u64 = 0;
    let mut i: usize = 0;
    while i < BIG_CACHE_SLOTS
        invariant
            i <= BIG_CACHE_SLOTS,
            cache.data@.len() == BIG_CACHE_SLOTS,
            cache.lock.is_locked(),
            space.wf(),
            forall|a: u64| #[trigger] space.map.owns(a) == old(space).map.owns(a),
            forall|k: int| 0 <= k < i ==> #[trigger] cache.data@[k] is None,
            forall|k: int| i <= k < BIG_CACHE_SLOTS ==> #[trigger] cache.data@[k] == old(cache).data@[k],
            old(cache).wf(),
            freed == cached_bytes(old(cache).data@, i as int),
            VaBitmap::same_segments(&old(space).map, &space.map),
            forall|j: int, b: int| 0 <= j < old(space).map.len() && 0 <= b < old(space).map.seg(j).words().len() * 64
                ==> #[trigger] space.map.seg(j).is_used(b)
                    == (old(space).map.seg(j).is_used(b) && !freed_by(old(cache).data@, i as int, old(space).map.seg(j), b)),
        decreases BIG_CACHE_SLOTS - i,
    {
        let ghost m_before = space.map;
        if let Some(block) = cache.data[i] {
            assert(old(cache).data@[i as int] == Some(block));
            os.advise(block.ptr, block.total_size, Advice(MADV_DONTNEED));
            space.map.free(block.ptr, block.total_size);
            freed = freed.saturating_add(block.total_size);
            cache.data.set(i, None);
            proof {
                assert forall|j: int, b: int| 0 <= j < old(space).map.len() && 0 <= b < old(space).map.seg(j).words().len() * 64
                    implies #[trigger] space.map.seg(j).is_used(b)
                        == (old(space).map.seg(j).is_used(b) && !freed_by(old(cache).data@, i + 1, old(space).map.seg(j), b)) by {
                    let s = old(space).map.seg(j);
                    let sb = m_before.seg(j);
                    let sa = space.map.seg(j);
                    assert(sb.same_range(&s));
                    sb.lemma_same_range_total(&s);
                    assert(sb.is_used(b) == (s.is_used(b) && !freed_by(old(cache).data@, i as int, s, b)));
                    if block.ptr != 0 && block.total_size != 0 && sb.start() <= block.ptr < sb.end() {
                        assert(Segment::free_effect(&sb, &sa, block.ptr, block.total_size));
                    } else {
                        assert(sa == sb);
                    }
                    assert(sa.is_used(b) == (sb.is_used(b) && !frees_bit(s, block, b)));
                    if freed_by(old(cache).data@, i as int, s, b) {
                        let t = choose|t: int| 0 <= t < i && #[trigger] old(cache).data@[t] is Some && frees_bit(s, old(cache).data@[t].unwrap(), b);
                        assert(0 <= t < i + 1 && old(cache).data@[t] is Some);
                    }
                    if frees_bit(s, block, b) {
                        assert(old(cache).data@[i as int] is Some);
                    }
                    if freed_by(old(cache).data@, i + 1, s, b) && !freed_by(old(cache).data@, i as int, s, b) {
                        let t = choose|t: int| 0 <= t < i + 1 && #[trigger] old(cache).data@[t] is Some && frees_bit(s, old(cache).data@[t].unwrap(), b);
                        assert(t == i);
                    }
                }
            }
        } else {
            proof {
                assert forall|j: int, b: int| 0 <= j < old(space).map.len() && 0 <= b < old(space).map.seg(j).words().len() * 64
                    implies #[trigger] space.map.seg(j).is_used(b)
                        == (old(space).map.seg(j).is_used(b) && !freed_by(old(cache).data@, i + 1, old(space).map.seg(j), b)) by {
                    let s = old(space).map.seg(j);
                    if freed_by(old(cache).data@, i + 1, s, b) {
                        let t = choose|t: int| 0 <= t < i + 1 && #[trigger] old(cache).data@[t] is Some && frees_bit(s, old(cache).data@[t].unwrap(), b);
                        assert(t != i);
                    }
                    if freed_by(old(cache).data@, i as int, s, b) {
                        let t = choose|t: int| 0 <= t < i && #[trigger] old(cache).data@[t] is Some && frees_bit(s, old(cache).data@[t].unwrap(), b);
                        assert(0 <= t < i + 1);
                    }
                }
            }
        }
        i = i + 1;
    }
    cache.lock.unlock();
    freed
}

/// Block `i` of segment `s` lies in the range given back for the cached
/// block `b`: from `b`'s first block on, as many as `b` spans, within `s`.
pub open spec fn frees_bit(s: Segment, b: BigFreeBlock, i: int) -> bool {
    let idx = (b.ptr - s.start()) / 4096;
    &&& b.ptr != 0
    &&& b.total_size != 0
    &&& s.start() <= b.ptr < s.end()
    &&& idx <= i < idx + (b.total_size + 4095) / 4096
    &&& i < s.total()
}

/// Block `i` of segment `s` is given back for one of the first `n` cached blocks of `d`.
pub open spec fn freed_by(d: Seq<Option<BigFreeBlock>>, n: int, s: Segment, i: int) -> bool {
    exists|t: int| 0 <= t < n && #[trigger] d[t] is Some && frees_bit(s, d[t].unwrap(), i)
}

/// The bytes of the first `n` cached blocks, saturated at `u64::MAX`.
pub open spec fn cached_bytes(d: Seq<Option<BigFreeBlock>>, n: int) -> u64
    decreases n,
{
    if n <= 0 {
        0
    } else {
        let prev = cached_bytes(d, n - 1);
        match d[n - 1] {
            Some(b) => if prev + b.total_size > u64::MAX { u64::MAX } else { (prev + b.total_size) as u64 },
            None => prev,
        }
    }
}

/// A block that `big_free` has just cached is large enough for the next
/// `big_malloc` of the same size, which is then served (from the cache).
pub proof fn law_freed_block_serves_same_size(d: Seq<Option<BigFreeBlock>>, h: u64, size: u64, force_thp: bool)
    requires
        d.len() == BIG_CACHE_SLOTS,
        exists|i: int| 0 <= i < BIG_CACHE_SLOTS
            && #[trigger] d[i] == Some(BigFreeBlock { ptr: h, total_size: big_total(size, force_thp) }),
    ensures
        exists|i: int| 0 <= i < BIG_CACHE_SLOTS && #[trigger] fits(d, i, big_total(size, force_thp)),
{
    let i = choose|i: int| 0 <= i < BIG_CACHE_SLOTS
        && #[trigger] d[i] == Some(BigFreeBlock { ptr: h, total_size: big_total(size, force_thp) });
    assert(fits(d, i, big_total(size, force_thp)));
}
} // verus!
