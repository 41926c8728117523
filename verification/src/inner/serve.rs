//! Serving an allocation of a slab class: the thread's stack first, then the
//! shared cache, then a larger free block split up, then fresh slab blocks.
use crate::slab::bulk_allocation::{bulk_fill, carve_batch};
use crate::slab::global::GlobalHandler;
use crate::slab::interconnect::{all_class, InterConnectCache};
use crate::slab::thread_local::ThreadLocalEngine;
use crate::slab::{block_size, block_size_of, get_size_4096_class, match_size_class, class_of, NUM_SIZE_CLASSES, SIZE_CLASSES, SIZE_LUT};
use crate::sys::Kernel;
use crate::va::space::AddressSpace;
use crate::{OxHeader, OxidallocError, HEADER_SIZE};
use vstd::multiset::Multiset;
use vstd::prelude::*;

verus! {

/// Fewest blocks fetched from the shared cache at once.
pub const BATCH_MIN: usize = 8;
/// Most blocks fetched from the shared cache at once.
pub const BATCH_MAX: usize = 32;
/// Largest request served at all: 3 GiB.
pub const MAX_REQUEST: usize = 3221225472;

/// `v` clamped to the batch bounds.
pub open spec fn clamp_batch(v: usize) -> usize {
    if v < BATCH_MIN { BATCH_MIN } else if v > BATCH_MAX { BATCH_MAX } else { v }
}

/// The batch hint after a fetch that filled the batch (`up`) or did not.
pub open spec fn next_hint(v: usize, up: bool) -> usize {
    let cur = clamp_batch(v);
    if up {
        if cur + 1 > BATCH_MAX { BATCH_MAX } else { (cur + 1) as usize }
    } else {
        let down = if cur >= 2 { (cur - 2) as usize } else { 0 };
        if down < BATCH_MIN { BATCH_MIN } else { down }
    }
}

/// Moves the batch hint of `class` up by one after a full fetch, down by two
/// otherwise, within the batch bounds.
pub fn bump_batch_hint(hints: &mut Vec<usize>, class: usize, up: bool)
    requires
        old(hints)@.len() == NUM_SIZE_CLASSES,
        class < NUM_SIZE_CLASSES,
    ensures
        final(hints)@ == old(hints)@.update(class as int, next_hint(old(hints)@[class as int], up)),
{
    let val = hints[class];
    let cur = if val < BATCH_MIN { BATCH_MIN } else if val > BATCH_MAX { BATCH_MAX } else { val };
    let next = if up {
        if cur + 1 > BATCH_MAX { BATCH_MAX } else { cur + 1 }
    } else {
        let down = cur.saturating_sub(2);
        if down < BATCH_MIN { BATCH_MIN } else { down }
    };
    hints.set(class, next);
}

/// Where an allocation of `size` bytes is served from.
#[derive(Clone, Copy, Debug, PartialEq, Eq, Structural)]
pub enum AllocRoute {
    /// A block of this slab class.
    Slab(usize),
    /// A mapping of its own.
    Big,
    /// Refused: more than 3 GiB.
    TooLarge,
}

/// The route of a request: the size table up to 4096 bytes, nothing over
/// 3 GiB, a slab class where one holds the size, else a mapping of its own
/// (zero bytes among them).
pub open spec fn route_of(size: usize) -> AllocRoute {
    if 0 < size && size <= 4096 {
        AllocRoute::Slab(class_of(size as int).unwrap())
    } else if size > MAX_REQUEST {
        AllocRoute::TooLarge
    } else if class_of(size as int) is Some {
        AllocRoute::Slab(class_of(size as int).unwrap())
    } else {
        AllocRoute::Big
    }
}

/// A request routed to a slab class fits that class's payload, and the class
/// below is too small; a request routed to a mapping of its own is empty or
/// larger than every class; only requests over the cap are refused.
pub proof fn law_route_holds_request(size: usize)
    ensures
        route_of(size) matches AllocRoute::Slab(c) ==> c < NUM_SIZE_CLASSES && size <= SIZE_CLASSES[c as int]
            && (c > 0 ==> SIZE_CLASSES[c - 1] < size),
        route_of(size) == AllocRoute::Big ==> size == 0 || SIZE_CLASSES[NUM_SIZE_CLASSES - 1] < size <= MAX_REQUEST,
        route_of(size) == AllocRoute::TooLarge <==> size > MAX_REQUEST,
{
    if size > 0 {
        crate::slab::law_class_fits(size as int);
    }
}

/// Chooses where a request of `size` bytes is served from.
pub fn alloc_route(size: usize) -> (r: AllocRoute)
    ensures
        r == route_of(size),
        r matches AllocRoute::Slab(c) ==> c < NUM_SIZE_CLASSES && size <= SIZE_CLASSES[c as int]
            && (c > 0 ==> SIZE_CLASSES[c - 1] < size),
        r == AllocRoute::Big ==> size == 0 || SIZE_CLASSES[NUM_SIZE_CLASSES - 1] < size <= MAX_REQUEST,
        r == AllocRoute::TooLarge ==> size > MAX_REQUEST,
{
    proof {
        law_route_holds_request(size);
    }
    if 0 < size && size <= 4096 {
        let c = match_size_class(size);
        return AllocRoute::Slab(c.unwrap());
    }
    if size > MAX_REQUEST {
        return AllocRoute::TooLarge;
    }
    match match_size_class(size) {
        Some(c) => AllocRoute::Slab(c),
        None => AllocRoute::Big,
    }
}

/// A block of `class` fits `donor`'s block a whole number of times, twice or more.
pub open spec fn splittable(class: int, donor: int) -> bool {
    let t = block_size(class);
    let d = block_size(donor);
    &&& d / t >= 2
    &&& d % t == 0
}

/// The pieces after the first of a block at `base` split into `count`
/// blocks of `target` bytes, listed from the last piece down (addresses
/// computed modulo 2^64).
pub open spec fn split_rest(base: u64, target: u64, count: int, class: u8, magic: u8, stamp: u32) -> Seq<OxHeader> {
    Seq::new((count - 1) as nat, |i: int| OxHeader {
        addr: vstd::wrapping::u64_specs::wrapping_add(base, ((count - 1 - i) * target) as u64),
        class,
        magic,
        life_time: stamp,
    })
}

/// Splits the block at `base` into `count` blocks of `target` bytes: the
/// first, and the others as a list with the last piece on top.
pub fn split_block(base: u64, target: u64, count: u64, class: u8, magic: u8, stamp: u32) -> (r: (OxHeader, Vec<OxHeader>))
    requires
        count >= 1,
        count * target <= u64::MAX,
    ensures
        r.0 == (OxHeader { addr: base, class, magic, life_time: stamp }),
        r.1@ == split_rest(base, target, count as int, class, magic, stamp),
{
    let first = OxHeader { addr: base, class, magic, life_time: stamp };
    let mut rest: Vec<OxHeader> = Vec::new();
    let mut i: u64 = count - 1;
    while i >= 1
        invariant
            0 <= i < count,
            count * target <= u64::MAX,
            rest@ == split_rest(base, target, count as int, class, magic, stamp).take(count - 1 - i),
        decreases i,
    {
        assert(i * target <= count * target) by (nonlinear_arith)
            requires
                i < count,
        ;
        rest.push(OxHeader { addr: base.wrapping_add(i * target), class, magic, life_time: stamp });
        i = i - 1;
        assert(rest@ =~= split_rest(base, target, count as int, class, magic, stamp).take(count - 1 - i));
    }
    assert(rest@ =~= split_rest(base, target, count as int, class, magic, stamp));
    (first, rest)
}


/// The split pieces all belong to their class.
pub proof fn lemma_split_class(base: u64, target: u64, count: int, class: int, magic: u8, stamp: u32)
    requires
        0 <= class < 256,
    ensures
        all_class(split_rest(base, target, count, class as u8, magic, stamp), class),
{
}

/// `b` is `a` after one block `donor` of class `d` was split into blocks of
/// `class`: the donor left class `d`, the pieces after the first joined
/// `class`, and no other class changed.
pub open spec fn split_effect(a: InterConnectCache, b: InterConnectCache, class: int, d: int, donor: OxHeader, magic: u8, stamp: u32) -> bool {
    let t = block_size(class);
    &&& class < d <= 8
    &&& splittable(class, d)
    &&& a.class_blocks(d) =~= b.class_blocks(d).insert(donor)
    &&& b.class_blocks(class) =~= a.class_blocks(class).add(
        split_rest(donor.addr, t as u64, block_size(d) / t, class as u8, magic, stamp).to_multiset())
    &&& forall|c: int| 0 <= c < NUM_SIZE_CLASSES && c != class && c != d ==> #[trigger] b.class_blocks(c) == a.class_blocks(c)
}

/// Some larger class below 4096 bytes whose blocks split into blocks of
/// `class` has blocks in the shared cache.
pub open spec fn split_donor(icc: &InterConnectCache, class: int) -> bool {
    &&& 0 <= class < 8
    &&& exists|d: int| class < d <= 8 && #[trigger] splittable(class, d) && icc.has_blocks(d, false)
}

/// A search that found nothing leaves every class's blocks where a pop
/// finds them.
proof fn lemma_donor_kept(a: &InterConnectCache, b: &InterConnectCache, class: int)
    requires
        a.wf(),
        a.ready(),
        InterConnectCache::same_shape(a, b),
        InterConnectCache::stacks_same_except(a, b, -1),
        b.cache.usage@ == a.cache.usage@,
        split_donor(a, class),
    ensures
        split_donor(b, class),
{
    let d = choose|d: int| class < d <= 8 && #[trigger] splittable(class, d) && a.has_blocks(d, false);
    let c = choose|c: int| 0 <= c < a.ncpu && #[trigger] a.source(d, c, false) >= 0;
    crate::slab::lemma_class_bounds(d);
    assert(0 <= crate::slab::interconnect::slot(c, d) < a.ncpu * NUM_SIZE_CLASSES) by (nonlinear_arith)
        requires
            0 <= c < a.ncpu,
            0 <= d < NUM_SIZE_CLASSES,
            crate::slab::interconnect::slot(c, d) == c * NUM_SIZE_CLASSES + d,
    ;
    assert(b.main_of(crate::slab::interconnect::slot(c, d)) == a.main_of(crate::slab::interconnect::slot(c, d)));
    assert(b.source(d, c, false) == a.source(d, c, false));
    assert(b.has_blocks(d, false));
}

/// Takes one free block of a larger class below 4096 bytes whose size is a
/// multiple (two or more) of a block of `class`, splits it, keeps the first
/// piece, and gives the others to the shared cache. Classes from 4096 bytes
/// up are not split. The first splittable larger class whose blocks some
/// CPU holds gives the donor.
pub fn try_split_from_icc(icc: &mut InterConnectCache, class: usize, current_stamp: u32, magic: u8) -> (r: Option<OxHeader>)
    requires
        old(icc).wf(),
        old(icc).ready(),
        class < NUM_SIZE_CLASSES,
    ensures
        final(icc).wf(),
        final(icc).ready(),
        final(icc).ncpu == old(icc).ncpu,
        old(icc).classes_ok() ==> final(icc).classes_ok(),
        class >= 8 ==> r is None && *final(icc) == *old(icc),
        r matches Some(h) ==> h.class == class && h.magic == magic && h.life_time == current_stamp
            && exists|d: int| class < d <= 8 && #[trigger] splittable(class as int, d),
        r matches Some(h) ==> exists|d: int, donor: OxHeader| #[trigger] split_effect(*old(icc), *final(icc), class as int, d, donor, magic, current_stamp)
            && h.addr == donor.addr,
        class < 8 && (exists|d: int| class < d <= 8 && #[trigger] splittable(class as int, d) && old(icc).has_blocks(d, false)) ==> r is Some,
        r is None ==> forall|c: int| 0 <= c < NUM_SIZE_CLASSES ==> #[trigger] final(icc).class_blocks(c) == old(icc).class_blocks(c),
{
    let class_4096 = get_size_4096_class();
    if class >= class_4096 {
        return None;
    }
    let target = block_size_of(class);
    let mut donor = class + 1;
    while donor <= class_4096
        invariant
            icc.wf(),
            icc.ready(),
            icc.ncpu == old(icc).ncpu,
            old(icc).classes_ok() ==> icc.classes_ok(),
            class < 8,
            class_4096 == 8,
            class < donor <= 9,
            target == block_size(class as int),
            icc.ncpu == old(icc).ncpu,
            forall|c: int| 0 <= c < NUM_SIZE_CLASSES ==> #[trigger] icc.class_blocks(c) == old(icc).class_blocks(c),
            forall|c: int| donor <= c < NUM_SIZE_CLASSES ==> #[trigger] InterConnectCache::class_same(old(icc), icc, c),
            forall|d: int| class < d < donor ==> !(#[trigger] splittable(class as int, d) && old(icc).has_blocks(d, false)),
        decreases 9 - donor,
    {
        proof {
            crate::slab::lemma_class_bounds(donor as int);
            crate::slab::lemma_class_bounds(class as int);
        }
        let donor_block = block_size_of(donor);
        let count = donor_block / target;
        if count < 2 || donor_block % target != 0 {
            donor = donor + 1;
            continue;
        }
        let ghost before = *icc;
        let got = GlobalHandler.pop_from_global(icc, donor, 1, false);
        proof {
            if before.classes_ok() {
                let cpu = choose|cpu: int| 0 <= cpu < before.ncpu
                    && #[trigger] InterConnectCache::pop_outcome(&before, icc, donor as int, 1, false, cpu, got);
                InterConnectCache::lemma_outcome_keeps_classes(&before, icc, donor as int, 1, false, cpu, got);
            }
            let cpu = choose|cpu: int| 0 <= cpu < before.ncpu
                && #[trigger] InterConnectCache::pop_outcome(&before, icc, donor as int, 1, false, cpu, got);
            crate::slab::census::lemma_outcome_blocks(&before, icc, donor as int, 1, false, cpu, got);
            InterConnectCache::lemma_outcome_len(&before, icc, donor as int, 1, false, cpu, got);
            assert forall|c: int| 0 <= c < NUM_SIZE_CLASSES && c != donor implies #[trigger] icc.class_blocks(c) == before.class_blocks(c) by {
                InterConnectCache::lemma_outcome_frame(&before, icc, donor as int, 1, false, cpu, got, c);
                crate::slab::census::lemma_class_same_blocks(&before, icc, c);
            }
            assert forall|c: int| donor < c < NUM_SIZE_CLASSES implies #[trigger] InterConnectCache::class_same(old(icc), icc, c) by {
                InterConnectCache::lemma_outcome_frame(&before, icc, donor as int, 1, false, cpu, got, c);
                assert(InterConnectCache::class_same(old(icc), &before, c));
            }
            if old(icc).has_blocks(donor as int, false) {
                let q = choose|q: int| 0 <= q < old(icc).ncpu && #[trigger] old(icc).source(donor as int, q, false) >= 0;
                assert(InterConnectCache::class_same(old(icc), &before, donor as int));
                assert(before.source(donor as int, q, false) >= 0);
                before.lemma_found_when_some(cpu, donor as int, false);
                assert(got is Some);
            }
        }
        match got {
            None => {
                donor = donor + 1;
            },
            Some(v) => {
                if v.len() == 0 {
                    donor = donor + 1;
                    continue;
                }
                let base = v[0].addr;
                assert(count * target <= donor_block) by (nonlinear_arith)
                    requires
                        count == donor_block / target,
                        target > 0,
                ;
                let (first, rest) = split_block(base, target, count, class as u8, magic, current_stamp);
                let ghost rv = rest@;
                let ghost mid = *icc;
                proof {
                    lemma_split_class(base, target, count as int, class as int, magic, current_stamp);
                    assert(splittable(class as int, donor as int));
                }
                GlobalHandler.push_to_global(icc, class, rest, false, false);
                proof {
                    let cpu = choose|cpu: int| 0 <= cpu < mid.ncpu
                        && #[trigger] InterConnectCache::push_effect(&mid, icc, class as int, cpu, rv, false, false);
                    if old(icc).classes_ok() {
                        InterConnectCache::lemma_push_keeps_classes(&mid, icc, class as int, cpu, rv, false, false);
                    }
                    crate::slab::census::lemma_push_blocks(&mid, icc, class as int, cpu, rv, false, false);
                    assert forall|c: int| 0 <= c < NUM_SIZE_CLASSES && c != class implies #[trigger] icc.class_blocks(c) == mid.class_blocks(c) by {
                        InterConnectCache::lemma_push_frame(&mid, icc, class as int, cpu, rv, false, false, c);
                        crate::slab::census::lemma_class_same_blocks(&mid, icc, c);
                    }
                    let dv = v@[0];
                    assert(v@ =~= Seq::<OxHeader>::empty().push(dv));
                    crate::slab::census::lemma_no_blocks(Seq::<OxHeader>::empty());
                    broadcast use vstd::seq_lib::to_multiset_build;
                    assert(before.class_blocks(donor as int) =~= mid.class_blocks(donor as int).insert(dv));
                    assert(split_effect(*old(icc), *icc, class as int, donor as int, dv, magic, current_stamp));
                }
                return Some(first);
            },
        }
    }
    None
}

/// The blocks of `class` that the shared cache and the thread's stack hold.
pub open spec fn held_blocks(icc: InterConnectCache, thread: ThreadLocalEngine, class: int) -> Multiset<OxHeader> {
    icc.class_blocks(class).add(thread.bin(class).to_multiset())
}

/// The free blocks of the first `n` classes that the shared cache and the
/// thread's stack hold.
pub open spec fn pool_upto(icc: InterConnectCache, thread: ThreadLocalEngine, n: int) -> Multiset<OxHeader>
    decreases n,
{
    if n <= 0 { Multiset::empty() } else { pool_upto(icc, thread, n - 1).add(held_blocks(icc, thread, n - 1)) }
}

/// The free blocks of every class that the shared cache and the thread's
/// stack hold.
pub open spec fn pool(icc: InterConnectCache, thread: ThreadLocalEngine) -> Multiset<OxHeader> {
    pool_upto(icc, thread, NUM_SIZE_CLASSES as int)
}

/// Taking `h` out of class `k` alone takes it out of the pool.
pub proof fn lemma_pool_take(
    ai: InterConnectCache,
    at: ThreadLocalEngine,
    bi: InterConnectCache,
    bt: ThreadLocalEngine,
    k: int,
    h: OxHeader,
    n: int,
)
    requires
        0 <= k < NUM_SIZE_CLASSES,
        0 <= n <= NUM_SIZE_CLASSES,
        forall|c: int| 0 <= c < NUM_SIZE_CLASSES && c != k ==> #[trigger] held_blocks(ai, at, c) == held_blocks(bi, bt, c),
        held_blocks(ai, at, k) =~= held_blocks(bi, bt, k).insert(h),
    ensures
        n > k ==> pool_upto(ai, at, n) =~= pool_upto(bi, bt, n).insert(h),
        n <= k ==> pool_upto(ai, at, n) =~= pool_upto(bi, bt, n),
    decreases n,
{
    broadcast use vstd::multiset::group_multiset_axioms;
    if n > 0 {
        lemma_pool_take(ai, at, bi, bt, k, h, n - 1);
        if n - 1 != k {
            assert(held_blocks(ai, at, n - 1) == held_blocks(bi, bt, n - 1));
        }
    }
}

/// The block `h` spans `[h.addr, h.addr + block_size(h.class))`; `x` and
/// `y` share no byte.
pub open spec fn apart(x: OxHeader, y: OxHeader) -> bool {
    x.addr + block_size(x.class as int) <= y.addr || y.addr + block_size(y.class as int) <= x.addr
}

/// The blocks of `m` occur once each and share no byte.
pub open spec fn blocks_apart(m: Multiset<OxHeader>) -> bool {
    forall|x: OxHeader, y: OxHeader| #[trigger] m.count(x) > 0 && #[trigger] m.count(y) > 0
        ==> (x == y ==> m.count(x) == 1) && (x != y ==> apart(x, y))
}

/// Two allocations in a row handed out of a pool of free blocks that occur
/// once each and share no byte get blocks that share no byte, and what
/// stays free still shares no byte.
pub proof fn law_served_blocks_apart(m0: Multiset<OxHeader>, m1: Multiset<OxHeader>, m2: Multiset<OxHeader>, h1: OxHeader, h2: OxHeader)
    requires
        blocks_apart(m0),
        m0 =~= m1.insert(h1),
        m1 =~= m2.insert(h2),
    ensures
        apart(h1, h2),
        blocks_apart(m2),
{
    broadcast use vstd::multiset::group_multiset_axioms;
    assert(m0.count(h1) > 0);
    assert(m0.count(h2) > 0);
    if h1 == h2 {
        assert(m0.count(h1) >= 2);
    }
    assert forall|x: OxHeader, y: OxHeader| #[trigger] m2.count(x) > 0 && #[trigger] m2.count(y) > 0
        implies (x == y ==> m2.count(x) == 1) && (x != y ==> apart(x, y)) by {
        assert(m0.count(x) > 0 && m0.count(y) > 0);
    }
}

/// A block handed out of a pool of free blocks that occur once each and
/// share no byte shares no byte with any block that stays free, and what
/// stays free still shares no byte.
pub proof fn law_served_apart_from_pool(m0: Multiset<OxHeader>, m1: Multiset<OxHeader>, h: OxHeader)
    requires
        blocks_apart(m0),
        m0 =~= m1.insert(h),
    ensures
        forall|y: OxHeader| #[trigger] m1.count(y) > 0 ==> apart(h, y),
        blocks_apart(m1),
{
    broadcast use vstd::multiset::group_multiset_axioms;
    assert(m0.count(h) > 0);
    assert forall|y: OxHeader| #[trigger] m1.count(y) > 0 implies apart(h, y) by {
        assert(m0.count(y) > 0);
        if y == h {
            assert(m0.count(h) >= 2);
        }
    }
    assert forall|x: OxHeader, y: OxHeader| #[trigger] m1.count(x) > 0 && #[trigger] m1.count(y) > 0
        implies (x == y ==> m1.count(x) == 1) && (x != y ==> apart(x, y)) by {
        assert(m0.count(x) > 0 && m0.count(y) > 0);
    }
}

/// Releasing a block that shares no byte with any free block into a pool
/// whose blocks occur once each and share no byte keeps the pool so.
pub proof fn law_release_keeps_pool_apart(m0: Multiset<OxHeader>, m1: Multiset<OxHeader>, h: OxHeader)
    requires
        blocks_apart(m0),
        forall|y: OxHeader| #[trigger] m0.count(y) > 0 ==> apart(h, y),
        m1 =~= m0.insert(h),
    ensures
        blocks_apart(m1),
{
    broadcast use vstd::multiset::group_multiset_axioms;
    if m0.count(h) > 0 {
        // A block is never apart from itself unless it spans no byte.
        assert(apart(h, h));
    }
    assert forall|x: OxHeader, y: OxHeader| #[trigger] m1.count(x) > 0 && #[trigger] m1.count(y) > 0
        implies (x == y ==> m1.count(x) == 1) && (x != y ==> apart(x, y)) by {
        if x != h && y != h {
            assert(m0.count(x) > 0 && m0.count(y) > 0);
        } else if x == h && y != h {
            assert(m0.count(y) > 0);
        } else if x != h && y == h {
            assert(m0.count(x) > 0);
        }
    }
}

/// Refills the thread's stack of `class` when it ran dry and takes its top
/// block: a batch from the shared cache (its size learnt from earlier
/// fetches), else a split larger block, else up to three attempts at
/// carving fresh blocks. `Ok(None)` means that memory could not be mapped;
/// errors are fatal.
pub fn try_fill<K: Kernel>(
    thread: &mut ThreadLocalEngine,
    icc: &mut InterConnectCache,
    space: &mut AddressSpace,
    os: &mut K,
    hints: &mut Vec<usize>,
    class: usize,
    current_stamp: u32,
    magic: u8,
    disable_thp: bool,
) -> (r: Result<Option<OxHeader>, OxidallocError>)
    requires
        old(thread).wf(),
        old(icc).wf(),
        old(icc).ready(),
        old(space).wf(),
        old(hints)@.len() == NUM_SIZE_CLASSES,
        class < NUM_SIZE_CLASSES,
        old(thread).bin(class as int).len() + 48 <= usize::MAX,
    ensures
        final(thread).wf(),
        final(icc).wf(),
        final(icc).ready(),
        final(space).wf(),
        final(hints)@.len() == NUM_SIZE_CLASSES,
        forall|c: int| 0 <= c < NUM_SIZE_CLASSES && c != class ==> #[trigger] final(thread).bin(c) == old(thread).bin(c),
        forall|a: u64| old(space).map.owns(a) ==> #[trigger] final(space).map.owns(a),
        old(thread).classes_ok() && old(icc).classes_ok() ==> {
            &&& final(thread).classes_ok()
            &&& final(icc).classes_ok()
            &&& r matches Ok(Some(h)) ==> h.class == class
        },
        r matches Err(e) ==> e != OxidallocError::OutOfMemory,
        old(icc).has_blocks(class as int, false) ==> r matches Ok(Some(_)),
        !old(icc).has_blocks(class as int, false) && split_donor(old(icc), class as int) ==> (r matches Ok(Some(h))
            && h.class == class && h.magic == magic && h.life_time == current_stamp
            && final(thread).bin(class as int) == old(thread).bin(class as int)),
        old(icc).has_blocks(class as int, false) ==> (r matches Ok(Some(h)) ==> {
            &&& held_blocks(*old(icc), *old(thread), class as int) =~= held_blocks(*final(icc), *final(thread), class as int).insert(h)
            &&& forall|c: int| 0 <= c < NUM_SIZE_CLASSES && c != class ==> #[trigger] final(icc).class_blocks(c) == old(icc).class_blocks(c)
            &&& *final(space) == *old(space)
        }),
{
    let val = hints[class];
    let batch = if val < BATCH_MIN { BATCH_MIN } else if val > BATCH_MAX { BATCH_MAX } else { val };
    let ghost icc0 = *icc;
    let got = GlobalHandler.pop_from_global(icc, class, batch, false);
    proof {
        let cpu = choose|cpu: int| 0 <= cpu < icc0.ncpu
            && #[trigger] InterConnectCache::pop_outcome(&icc0, icc, class as int, batch as int, false, cpu, got);
        if icc0.classes_ok() {
            InterConnectCache::lemma_outcome_keeps_classes(&icc0, icc, class as int, batch as int, false, cpu, got);
        }
        if icc0.has_blocks(class as int, false) {
            icc0.lemma_found_when_some(cpu, class as int, false);
            assert(got is Some);
        }
    }
    if let Some(list) = got {
        let fetched: usize = list.len();
        proof {
            let cpu = choose|cpu: int| 0 <= cpu < icc0.ncpu
                && #[trigger] InterConnectCache::pop_outcome(&icc0, icc, class as int, batch as int, false, cpu, got);
            InterConnectCache::lemma_outcome_len(&icc0, icc, class as int, batch as int, false, cpu, got);
        }
        let ghost lv = list@;
        thread.push_to_thread_tailed(class, list);
        let ghost mid = *thread;
        bump_batch_hint(hints, class, fetched == batch);
        let out = thread.pop_from_thread(class);
        proof {
            if old(thread).classes_ok() && old(icc).classes_ok() {
                crate::slab::bulk_allocation::lemma_concat_class(lv, old(thread).bin(class as int), class as int);
                assert(all_class(mid.bin(class as int), class as int));
                assert forall|c: int| 0 <= c < NUM_SIZE_CLASSES implies all_class(#[trigger] thread.bin(c), c) by {
                    if c == class {
                        assert forall|i: int| 0 <= i < thread.bin(c).len() implies #[trigger] thread.bin(c)[i].class == c by {
                            assert(thread.bin(c)[i] == mid.bin(c)[i + 1]);
                        }
                    } else {
                        assert(all_class(old(thread).bin(c), c));
                    }
                }
                if let Some(h) = out {
                    assert(h == mid.bin(class as int)[0]);
                }
            }
            let cpu = choose|cpu: int| 0 <= cpu < icc0.ncpu
                && #[trigger] InterConnectCache::pop_outcome(&icc0, icc, class as int, batch as int, false, cpu, got);
            crate::slab::census::lemma_outcome_blocks(&icc0, icc, class as int, batch as int, false, cpu, got);
            assert forall|c: int| 0 <= c < NUM_SIZE_CLASSES && c != class implies #[trigger] icc.class_blocks(c) == icc0.class_blocks(c) by {
                InterConnectCache::lemma_outcome_frame(&icc0, icc, class as int, batch as int, false, cpu, got, c);
                crate::slab::census::lemma_class_same_blocks(&icc0, icc, c);
            }
            if let Some(h) = out {
                vstd::seq_lib::lemma_multiset_commutative(lv, old(thread).bin(class as int));
                crate::slab::census::lemma_top_and_rest(mid.bin(class as int));
                broadcast use vstd::multiset::group_multiset_axioms;
                let ob = old(thread).bin(class as int);
                let mb = mid.bin(class as int);
                assert(mb == lv + ob);
                assert(h == mb[0]);
                assert(thread.bin(class as int) == mb.drop_first());
                assert(icc0.class_blocks(class as int) =~= icc.class_blocks(class as int).add(lv.to_multiset()));
                assert forall|x: OxHeader| #[trigger] held_blocks(*old(icc), *old(thread), class as int).count(x)
                    == held_blocks(*icc, *thread, class as int).insert(h).count(x) by {
                    assert(mb.to_multiset().count(x) == lv.to_multiset().count(x) + ob.to_multiset().count(x));
                    assert(mb.to_multiset().count(x) == thread.bin(class as int).to_multiset().insert(h).count(x));
                }
            }
        }
        return Ok(out);
    }
    proof {
        if !icc0.has_blocks(class as int, false) && split_donor(&icc0, class as int) {
            let cpu = choose|cpu: int| 0 <= cpu < icc0.ncpu
                && #[trigger] InterConnectCache::pop_outcome(&icc0, icc, class as int, batch as int, false, cpu, got);
            lemma_donor_kept(&icc0, icc, class as int);
        }
    }
    bump_batch_hint(hints, class, false);
    let split = try_split_from_icc(icc, class, current_stamp, magic);
    if split.is_some() {
        return Ok(split);
    }
    let mut i: usize = 0;
    while i < 3
        invariant
            thread.wf(),
            icc.wf(),
            icc.ready(),
            space.wf(),
            hints@.len() == NUM_SIZE_CLASSES,
            class < NUM_SIZE_CLASSES,
            thread.bin(class as int) == old(thread).bin(class as int),
            forall|c: int| 0 <= c < NUM_SIZE_CLASSES && c != class ==> #[trigger] thread.bin(c) == old(thread).bin(c),
            old(thread).bin(class as int).len() + 48 <= usize::MAX,
            forall|a: u64| old(space).map.owns(a) ==> #[trigger] space.map.owns(a),
            old(thread).classes_ok() && old(icc).classes_ok() ==> thread.classes_ok() && icc.classes_ok(),
            !old(icc).has_blocks(class as int, false),
            !split_donor(old(icc), class as int),
        decreases 3 - i,
    {
        let ghost th0 = *thread;
        match bulk_fill(thread, icc, space, os, class, current_stamp, magic, disable_thp) {
            Ok(()) => {
                let ghost mid = *thread;
                let out = thread.pop_from_thread(class);
                bump_batch_hint(hints, class, true);
                proof {
                    if old(thread).classes_ok() && old(icc).classes_ok() {
                        assert(all_class(mid.bin(class as int), class as int));
                        assert forall|c: int| 0 <= c < NUM_SIZE_CLASSES implies all_class(#[trigger] thread.bin(c), c) by {
                            if c == class {
                                assert forall|k: int| 0 <= k < thread.bin(c).len() implies #[trigger] thread.bin(c)[k].class == c by {
                                    assert(thread.bin(c)[k] == mid.bin(c)[k + 1]);
                                }
                            } else {
                                assert(all_class(mid.bin(c), c));
                            }
                        }
                        if let Some(h) = out {
                            assert(h == mid.bin(class as int)[0]);
                        }
                    }
                    assert forall|c: int| 0 <= c < NUM_SIZE_CLASSES && c != class implies #[trigger] thread.bin(c) == old(thread).bin(c) by {
                        assert(mid.bin(c) == th0.bin(c));
                    }
                }
                return Ok(out);
            },
            Err(OxidallocError::OutOfMemory) => {
                i = i + 1;
            },
            Err(e) => {
                return Err(e);
            },
        }
    }
    Ok(None)
}

/// Takes a block of `class` for an allocation: the top of the thread's
/// stack, refilled by `try_fill` when empty. The block is marked in use with
/// `in_use_magic`. `Ok(None)` means that no memory could be had.
pub fn allocate_hot<K: Kernel>(
    thread: &mut ThreadLocalEngine,
    icc: &mut InterConnectCache,
    space: &mut AddressSpace,
    os: &mut K,
    hints: &mut Vec<usize>,
    class: usize,
    current_stamp: u32,
    in_use_magic: u8,
    freed_magic: u8,
    disable_thp: bool,
) -> (r: Result<Option<OxHeader>, OxidallocError>)
    requires
        old(thread).wf(),
        old(icc).wf(),
        old(icc).ready(),
        old(space).wf(),
        old(hints)@.len() == NUM_SIZE_CLASSES,
        class < NUM_SIZE_CLASSES,
    ensures
        final(thread).wf(),
        final(icc).wf(),
        final(icc).ready(),
        final(space).wf(),
        final(hints)@.len() == NUM_SIZE_CLASSES,
        forall|c: int| 0 <= c < NUM_SIZE_CLASSES && c != class ==> #[trigger] final(thread).bin(c) == old(thread).bin(c),
        old(thread).bin(class as int).len() > 0 ==> {
            &&& r == Ok::<Option<OxHeader>, OxidallocError>(Some(OxHeader { magic: in_use_magic, ..old(thread).bin(class as int)[0] }))
            &&& final(thread).bin(class as int) == old(thread).bin(class as int).drop_first()
            &&& *final(icc) == *old(icc)
            &&& *final(space) == *old(space)
        },
        old(thread).classes_ok() && old(icc).classes_ok() ==> {
            &&& final(thread).classes_ok()
            &&& final(icc).classes_ok()
            &&& r matches Ok(Some(h)) ==> h.class == class && h.magic == in_use_magic
        },
        r matches Err(e) ==> e != OxidallocError::OutOfMemory,
        old(icc).has_blocks(class as int, false) ==> r matches Ok(Some(_)),
        split_donor(old(icc), class as int) ==> r matches Ok(Some(_)),
        old(thread).bin(class as int).len() > 0 || old(icc).has_blocks(class as int, false) ==> exists|h: OxHeader| {
            &&& r == Ok::<Option<OxHeader>, OxidallocError>(Some(OxHeader { magic: in_use_magic, ..h }))
            &&& held_blocks(*old(icc), *old(thread), class as int) =~= #[trigger] held_blocks(*final(icc), *final(thread), class as int).insert(h)
            &&& forall|c: int| 0 <= c < NUM_SIZE_CLASSES && c != class ==> #[trigger] final(icc).class_blocks(c) == old(icc).class_blocks(c)
            &&& *final(space) == *old(space)
        },
{
    let ghost th0 = *thread;
    let popped = thread.pop_from_thread(class);
    let ghost th1 = *thread;
    let cache = match popped {
        Some(h) => {
            proof {
                if old(thread).classes_ok() {
                    assert(all_class(old(thread).bin(class as int), class as int));
                    assert forall|c: int| 0 <= c < NUM_SIZE_CLASSES implies all_class(#[trigger] thread.bin(c), c) by {
                        if c == class {
                            assert forall|k: int| 0 <= k < thread.bin(c).len() implies #[trigger] thread.bin(c)[k].class == c by {
                                assert(thread.bin(c)[k] == old(thread).bin(c)[k + 1]);
                            }
                        } else {
                            assert(all_class(old(thread).bin(c), c));
                        }
                    }
                }
            }
            h
        },
        None => {
            let filled = try_fill(thread, icc, space, os, hints, class, current_stamp, freed_magic, disable_thp);
            proof {
                assert forall|c: int| 0 <= c < NUM_SIZE_CLASSES && c != class implies #[trigger] thread.bin(c) == old(thread).bin(c) by {
                    assert(th1.bin(c) == old(thread).bin(c));
                }
            }
            match filled {
                Err(e) => return Err(e),
                Ok(None) => return Ok(None),
                Ok(Some(h)) => {
                    proof {
                        assert(held_blocks(*old(icc), th1, class as int) == held_blocks(*old(icc), *old(thread), class as int));
                    }
                    h
                },
            }
        },
    };
    proof {
        if old(thread).bin(class as int).len() > 0 {
            crate::slab::census::lemma_top_and_rest(old(thread).bin(class as int));
            broadcast use vstd::multiset::group_multiset_axioms;
            assert(held_blocks(*old(icc), *old(thread), class as int) =~= held_blocks(*icc, *thread, class as int).insert(cache));
        }
    }
    Ok(Some(OxHeader { magic: in_use_magic, ..cache }))
}

/// The start-up state shared by all threads: how many allocations were
/// served before the trimming thread starts, and whether it started.
pub struct BootState {
    pub total_malloc_free: usize,
    pub thread_spawned: bool,
    pub hot_ready: bool,
}

/// Allocations served before the trimming thread starts.
pub const WARMUP_ALLOCATIONS: usize = 1024;

impl BootState {
    /// Nothing served yet.
    pub fn new() -> (b: Self)
        ensures
            b.total_malloc_free == 0,
            !b.thread_spawned,
            !b.hot_ready,
    {
        BootState { total_malloc_free: 0, thread_spawned: false, hot_ready: false }
    }

    /// `new` and `spawn` are what a start-up step from `old` gives.
    pub open spec fn boot_effect(old: Self, new: Self, trim_enabled: bool, spawn: bool) -> bool {
        &&& old.total_malloc_free < WARMUP_ALLOCATIONS ==> {
            &&& new.total_malloc_free == old.total_malloc_free + 1
            &&& new.thread_spawned == old.thread_spawned
            &&& new.hot_ready == old.hot_ready
            &&& !spawn
        }
        &&& old.total_malloc_free >= WARMUP_ALLOCATIONS ==> {
            &&& new.total_malloc_free == old.total_malloc_free
            &&& new.thread_spawned
            &&& new.hot_ready == (old.hot_ready || !old.thread_spawned)
            &&& spawn == (!old.thread_spawned && trim_enabled)
        }
    }

    /// Counts an allocation served while starting up. After the first 1024,
    /// the first caller marks start-up done and returns whether it must
    /// start the trimming thread (only when trimming is enabled).
    pub fn boot_step(&mut self, trim_enabled: bool) -> (spawn: bool)
        ensures
            Self::boot_effect(*old(self), *final(self), trim_enabled, spawn),
    {
        if self.total_malloc_free < WARMUP_ALLOCATIONS {
            self.total_malloc_free = self.total_malloc_free + 1;
            return false;
        }
        if !self.thread_spawned {
            self.thread_spawned = true;
            self.hot_ready = true;
            return trim_enabled;
        }
        false
    }

    /// In a child process after `fork`: the trimming thread is gone, so
    /// start-up is done again (after the warm-up count).
    pub fn reset_fork_thread_state(&mut self)
        ensures
            final(self).total_malloc_free == WARMUP_ALLOCATIONS,
            !final(self).thread_spawned,
            !final(self).hot_ready,
    {
        self.thread_spawned = false;
        self.total_malloc_free = WARMUP_ALLOCATIONS;
        self.hot_ready = false;
    }
}

/// Once start-up has marked the thread as started, later steps keep it so.
proof fn lemma_spawned_stays(states: Seq<BootState>, trims: Seq<bool>, spawns: Seq<bool>, i: int, j: int)
    requires
        states.len() == spawns.len() + 1,
        trims.len() == spawns.len(),
        forall|k: int| 0 <= k < spawns.len() ==> #[trigger] BootState::boot_effect(states[k], states[k + 1], trims[k], spawns[k]),
        0 <= i <= j <= spawns.len(),
        states[i].thread_spawned,
    ensures
        states[j].thread_spawned,
    decreases j - i,
{
    if i < j {
        assert(BootState::boot_effect(states[i], states[i + 1], trims[i], spawns[i]));
        lemma_spawned_stays(states, trims, spawns, i + 1, j);
    }
}

/// In any run of start-up steps (with no fork reset in between), at most
/// one step asks for the trimming thread to be started.
pub proof fn law_spawn_once(states: Seq<BootState>, trims: Seq<bool>, spawns: Seq<bool>)
    requires
        states.len() == spawns.len() + 1,
        trims.len() == spawns.len(),
        forall|k: int| 0 <= k < spawns.len() ==> #[trigger] BootState::boot_effect(states[k], states[k + 1], trims[k], spawns[k]),
    ensures
        forall|i: int, j: int| 0 <= i < j < spawns.len() && #[trigger] spawns[i] ==> !#[trigger] spawns[j],
{
    assert forall|i: int, j: int| 0 <= i < j < spawns.len() && #[trigger] spawns[i] implies !#[trigger] spawns[j] by {
        assert(BootState::boot_effect(states[i], states[i + 1], trims[i], spawns[i]));
        lemma_spawned_stays(states, trims, spawns, i + 1, j);
        assert(BootState::boot_effect(states[j], states[j + 1], trims[j], spawns[j]));
    }
}
} // verus!
