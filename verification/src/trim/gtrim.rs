//! The shared trimmer: gives back the pages of blocks that sat long in the
//! shared cache, for the classes from 4096 bytes up.
use crate::slab::census::{lemma_class_same_blocks, lemma_no_blocks, lemma_outcome_blocks, lemma_push_blocks};
use vstd::multiset::Multiset;
use crate::big_allocation::{cached_bytes, freed_by, trim_big_allocations, BigFreeCache, BIG_CACHE_SLOTS};
use crate::va::bitmap::VaBitmap;
use crate::slab::interconnect::{all_class, class_usage, slot, InterConnectCache};
use crate::slab::{get_size_4096_class, NUM_SIZE_CLASSES, SIZE_CLASSES};
use crate::sys::{Advice, Kernel, MADV_DONTNEED};
use crate::trim::{release_range, TimeDecay, TrimState, PAGE_SIZE};
use crate::va::space::AddressSpace;
use crate::{OxHeader, OxidallocError, HEADER_SIZE};
use vstd::prelude::*;

verus! {

/// Blocks taken from the shared cache per step.
pub const GTRIM_BATCH: usize = 16;

/// `b` follows from `a` by pops and pushes of `class` alone.
pub open spec fn steps_ok(a: &InterConnectCache, b: &InterConnectCache, class: int) -> bool {
    &&& b.wf()
    &&& b.ready()
    &&& b.ncpu == a.ncpu
    &&& forall|c: int| 0 <= c < NUM_SIZE_CLASSES && c != class ==> #[trigger] InterConnectCache::class_same(a, b, c)
}

/// Steps of one class, one after the other.
pub proof fn lemma_steps_trans(a: &InterConnectCache, b: &InterConnectCache, d: &InterConnectCache, class: int)
    requires
        steps_ok(a, b, class),
        steps_ok(b, d, class),
    ensures
        steps_ok(a, d, class),
{
    assert forall|c: int| 0 <= c < NUM_SIZE_CLASSES && c != class implies #[trigger] InterConnectCache::class_same(a, d, c) by {
        assert(InterConnectCache::class_same(a, b, c));
        assert(InterConnectCache::class_same(b, d, c));
    }
}

/// A push of headers of `class`.
pub proof fn lemma_push_step(a: &InterConnectCache, b: &InterConnectCache, class: int, batch: Seq<OxHeader>, need: bool, trimmed: bool)
    requires
        a.wf(),
        a.ready(),
        0 <= class < NUM_SIZE_CLASSES,
        exists|cpu: int| 0 <= cpu < a.ncpu && #[trigger] InterConnectCache::push_effect(a, b, class, cpu, batch, need, trimmed),
    ensures
        steps_ok(a, b, class),
        a.classes_ok() && all_class(batch, class) ==> b.classes_ok(),
{
    let cpu = choose|cpu: int| 0 <= cpu < a.ncpu && #[trigger] InterConnectCache::push_effect(a, b, class, cpu, batch, need, trimmed);
    if a.classes_ok() && all_class(batch, class) {
        InterConnectCache::lemma_push_keeps_classes(a, b, class, cpu, batch, need, trimmed);
    }
    assert forall|c: int| 0 <= c < NUM_SIZE_CLASSES && c != class implies #[trigger] InterConnectCache::class_same(a, b, c) by {
        InterConnectCache::lemma_push_frame(a, b, class, cpu, batch, need, trimmed, c);
    }
}

/// A pop of `class`.
pub proof fn lemma_pop_step(a: &InterConnectCache, b: &InterConnectCache, class: int, batch: int, need: bool, r: Option<Vec<OxHeader>>)
    requires
        a.wf(),
        a.ready(),
        0 <= class < NUM_SIZE_CLASSES,
        batch >= 1,
        InterConnectCache::same_shape(a, b),
        exists|cpu: int| 0 <= cpu < a.ncpu && #[trigger] InterConnectCache::pop_outcome(a, b, class, batch, need, cpu, r),
    ensures
        steps_ok(a, b, class),
        a.classes_ok() ==> b.classes_ok(),
        r matches Some(v) ==> 1 <= v@.len() <= batch && (a.classes_ok() ==> all_class(v@, class)),
{
    let cpu = choose|cpu: int| 0 <= cpu < a.ncpu && #[trigger] InterConnectCache::pop_outcome(a, b, class, batch, need, cpu, r);
    if a.classes_ok() {
        InterConnectCache::lemma_outcome_keeps_classes(a, b, class, batch, need, cpu, r);
    }
    InterConnectCache::lemma_outcome_len(a, b, class, batch, need, cpu, r);
    assert forall|c: int| 0 <= c < NUM_SIZE_CLASSES && c != class implies #[trigger] InterConnectCache::class_same(a, b, c) by {
        InterConnectCache::lemma_outcome_frame(a, b, class, batch, need, cpu, r, c);
    }
}

/// Classes under 4096 bytes stay as they were across steps of a larger class.
pub proof fn lemma_small_classes(a: &InterConnectCache, b: &InterConnectCache, d: &InterConnectCache, class: int)
    requires
        8 <= class < NUM_SIZE_CLASSES,
        b.ncpu == a.ncpu,
        forall|c: int| 0 <= c < 8 ==> #[trigger] InterConnectCache::class_same(a, b, c),
        steps_ok(b, d, class),
    ensures
        forall|c: int| 0 <= c < 8 ==> #[trigger] InterConnectCache::class_same(a, d, c),
{
    assert forall|c: int| 0 <= c < 8 implies #[trigger] InterConnectCache::class_same(a, d, c) by {
        assert(InterConnectCache::class_same(a, b, c));
        assert(InterConnectCache::class_same(b, d, c));
    }
}

/// Nothing changed.
pub proof fn lemma_no_step(a: &InterConnectCache, class: int)
    requires
        a.wf(),
        a.ready(),
    ensures
        steps_ok(a, a, class),
{
}

/// `h` has been idle for longer than `timing` at `stamp`.
pub open spec fn idle_for(h: OxHeader, stamp: u32, timing: u32) -> bool {
    (if stamp >= h.life_time { stamp - h.life_time } else { 0 }) > timing
}

/// The payload bytes of the blocks of `s`, by their classes.
pub open spec fn payload_bytes(s: Seq<OxHeader>) -> int
    decreases s.len(),
{
    if s.len() == 0 { 0 } else { payload_bytes(s.drop_last()) + SIZE_CLASSES[s.last().class as int] }
}

/// `x`, saturated at `u64::MAX`.
pub open spec fn saturated(x: int) -> int {
    if x > u64::MAX { u64::MAX as int } else { x }
}

/// Some block of `s` is of class `c`.
pub open spec fn has_class(s: Seq<OxHeader>, c: int) -> bool {
    exists|i: int| 0 <= i < s.len() && s[i].class == c
}

/// Class `c` of `icc` counts at least one full step of blocks, some CPU's
/// first stack holds some, and every block of it has been idle for longer
/// than `timing`.
pub open spec fn gtrim_due(icc: InterConnectCache, c: int, stamp: u32, timing: u32) -> bool {
    &&& class_usage(icc.cache.usage@, c, icc.ncpu as int) >= GTRIM_BATCH
    &&& icc.has_blocks(c, false)
    &&& forall|h: OxHeader| #[trigger] icc.class_blocks(c).count(h) > 0 ==> idle_for(h, stamp, timing)
}

/// A class whose stacks and counts are the same counts the same.
pub proof fn lemma_same_usage(a: &InterConnectCache, b: &InterConnectCache, c: int, n: int)
    requires
        0 <= n <= a.ncpu,
        InterConnectCache::class_same(a, b, c),
    ensures
        class_usage(a.cache.usage@, c, n) == class_usage(b.cache.usage@, c, n),
    decreases n,
{
    if n > 0 {
        lemma_same_usage(a, b, c, n - 1);
        assert(b.usage_of(slot(n - 1, c)) == a.usage_of(slot(n - 1, c)));
    }
}

/// What a round of the shared trimmer did with the shared cache that was
/// `old_icc`: `popped` are the blocks it took out (all of classes from 4096
/// bytes up, all put back); of those, the ones idle for longer than
/// `timing` were released, except `kept`, which were set apart only once
/// more than `pad` bytes were freed with `pressure` at 90 percent or less; and
/// `freed` counts the `cached` bytes of big blocks and the payload of each
/// released block, saturated. Unless `pad` bytes were reached, every class
/// due for trimming had a block released.
pub open spec fn gtrim_outcome(
    old_icc: InterConnectCache,
    popped: Seq<OxHeader>,
    released: Seq<OxHeader>,
    kept: Seq<OxHeader>,
    stamp: u32,
    timing: u32,
    pad: u64,
    pressure: usize,
    cached: int,
    freed: u64,
) -> bool {
    &&& forall|i: int| 0 <= i < popped.len() ==> 8 <= #[trigger] popped[i].class < NUM_SIZE_CLASSES
        && old_icc.class_blocks(popped[i].class as int).count(popped[i]) > 0
    &&& forall|h: OxHeader| idle_for(h, stamp, timing) ==> #[trigger] popped.to_multiset().count(h)
        == released.to_multiset().count(h) + kept.to_multiset().count(h)
    &&& forall|h: OxHeader| !idle_for(h, stamp, timing) ==> #[trigger] released.to_multiset().count(h) == 0
    &&& forall|h: OxHeader| !idle_for(h, stamp, timing) ==> #[trigger] kept.to_multiset().count(h) == 0
    &&& kept.len() > 0 ==> pad != 0 && pressure <= 90 && freed > pad
    &&& freed == saturated(cached + payload_bytes(released))
    &&& (pad == 0 || freed < pad) ==> forall|c: int| 8 <= c < NUM_SIZE_CLASSES && #[trigger] gtrim_due(old_icc, c, stamp, timing)
        ==> has_class(released, c)
}

/// The shared trimmer.
pub struct GTrim;

impl GTrim {
    /// Takes up to 16 blocks of `class` from the shared cache. A block that
    /// is not marked free (other than the last) means memory corruption.
    #[verifier::loop_isolation(false)]
    pub fn pop_from_global(&self, icc: &mut InterConnectCache, class: usize, need_pushed: bool, freed_magic: u8) -> (r: Result<Vec<OxHeader>, OxidallocError>)
        requires
            old(icc).wf(),
            old(icc).ready(),
            class < NUM_SIZE_CLASSES,
        ensures
            steps_ok(old(icc), final(icc), class as int),
            old(icc).classes_ok() ==> final(icc).classes_ok(),
            r matches Ok(v) ==> v@.len() <= GTRIM_BATCH && (old(icc).classes_ok() ==> all_class(v@, class as int)),
            r matches Err(e) ==> e == OxidallocError::MemoryCorruption,
            r matches Ok(v) ==> old(icc).class_blocks(class as int) =~= final(icc).class_blocks(class as int).add(v@.to_multiset()),
            r is Err ==> exists|h: OxHeader| #[trigger] old(icc).class_blocks(class as int).count(h) > 0 && h.magic != freed_magic,
            old(icc).has_blocks(class as int, need_pushed) ==> (r matches Ok(v) ==> v@.len() > 0),
    {
        let ghost before = *icc;
        let got = icc.try_pop(class, GTRIM_BATCH, need_pushed);
        proof {
            lemma_pop_step(&before, icc, class as int, GTRIM_BATCH as int, need_pushed, got);
            let cpu = choose|cpu: int| 0 <= cpu < before.ncpu
                && #[trigger] InterConnectCache::pop_outcome(&before, icc, class as int, GTRIM_BATCH as int, need_pushed, cpu, got);
            lemma_outcome_blocks(&before, icc, class as int, GTRIM_BATCH as int, need_pushed, cpu, got);
            if before.has_blocks(class as int, need_pushed) {
                before.lemma_found_when_some(cpu, class as int, need_pushed);
            }
        }
        match got {
            None => {
                let e: Vec<OxHeader> = Vec::new();
                proof {
                    broadcast use vstd::multiset::group_multiset_axioms;
                    lemma_no_blocks(e@);
                    assert(icc.class_blocks(class as int).add(e@.to_multiset()) =~= icc.class_blocks(class as int));
                }
                Ok(e)
            },
            Some(v) => {
                let mut i: usize = 0;
                while v.len() > 0 && i < v.len() - 1
                    invariant
                        i <= v@.len(),
                        before.class_blocks(class as int) =~= icc.class_blocks(class as int).add(v@.to_multiset()),
                    decreases v@.len() - i,
                {
                    if v[i].magic != freed_magic {
                        proof {
                            broadcast use vstd::seq_lib::to_multiset_contains;
                            broadcast use vstd::multiset::group_multiset_axioms;
                            assert(v@.contains(v@[i as int]));
                            assert(before.class_blocks(class as int).count(v@[i as int]) > 0);
                        }
                        return Err(OxidallocError::MemoryCorruption);
                    }
                    i = i + 1;
                }
                Ok(v)
            },
        }
    }

    /// One round of the shared trimmer, returning 1 and the bytes released
    /// when at least `pad` bytes were released (0 and the bytes otherwise).
    /// The cached big blocks go first. Then, per class from 4096 bytes up,
    /// the shared cache is searched in steps of 16 blocks: blocks idle for
    /// longer than the average idle time are set apart, the others go back
    /// (on the trimmer's stacks). The set-apart blocks go back too, on the
    /// released stacks once their pages were given back: while fewer than
    /// `pad` bytes were released (any number when `pad` is zero), or under
    /// more than 90 percent memory pressure. The average idle time is then
    /// learnt anew. Classes under 4096 bytes are left alone.
    #[verifier::loop_isolation(false)]
    #[verifier::spinoff_prover]
    #[verifier::rlimit(100)]
    pub fn trim<K: Kernel>(
        &self,
        state: &mut TrimState,
        icc: &mut InterConnectCache,
        cache: &mut BigFreeCache,
        space: &mut AddressSpace,
        os: &mut K,
        pad: u64,
        freed_magic: u8,
    ) -> (r: Result<(i32, u64), OxidallocError>)
        requires
            old(icc).wf(),
            old(icc).ready(),
            old(cache).wf(),
            old(space).wf(),
        ensures
            final(icc).wf(),
            final(icc).ready(),
            final(cache).wf(),
            final(space).wf(),
            old(icc).classes_ok() ==> final(icc).classes_ok(),
            forall|c: int| 0 <= c < 8 ==> #[trigger] InterConnectCache::class_same(old(icc), final(icc), c),
            r matches Ok((done, freed)) ==> (done == 1 <==> freed >= pad) && (done == 0 || done == 1),
            r matches Err(e) ==> e == OxidallocError::MemoryCorruption,
            final(state).current_stamp == old(state).current_stamp,
            1 <= final(state).average_block_times_global <= 10 || final(state).average_block_times_global == old(state).average_block_times_global,
            forall|i: int| 0 <= i < BIG_CACHE_SLOTS ==> #[trigger] final(cache).data@[i] is None,
            VaBitmap::same_segments(&old(space).map, &final(space).map),
            forall|j: int, i: int| 0 <= j < old(space).map.len() && 0 <= i < old(space).map.seg(j).words().len() * 64
                ==> #[trigger] final(space).map.seg(j).is_used(i)
                    == (old(space).map.seg(j).is_used(i) && !freed_by(old(cache).data@, BIG_CACHE_SLOTS as int, old(space).map.seg(j), i)),
            r is Ok ==> forall|c: int| 0 <= c < NUM_SIZE_CLASSES ==> #[trigger] final(icc).class_blocks(c) == old(icc).class_blocks(c),
            r matches Ok((_, freed)) ==> freed >= cached_bytes(old(cache).data@, BIG_CACHE_SLOTS as int),
            pad != 0 && cached_bytes(old(cache).data@, BIG_CACHE_SLOTS as int) >= pad ==> {
                &&& r == Ok::<(i32, u64), OxidallocError>((1i32, cached_bytes(old(cache).data@, BIG_CACHE_SLOTS as int)))
                &&& *final(icc) == *old(icc)
            },
            r is Err ==> exists|c: int, h: OxHeader| 8 <= c < NUM_SIZE_CLASSES
                && #[trigger] old(icc).class_blocks(c).count(h) > 0 && h.magic != freed_magic,
            old(icc).classes_ok() && r is Ok ==> exists|popped: Seq<OxHeader>, released: Seq<OxHeader>, kept: Seq<OxHeader>|
                #[trigger] gtrim_outcome(*old(icc), popped, released, kept, old(state).current_stamp,
                    old(state).average_block_times_global as u32, pad, old(state).last_pressure_check,
                    cached_bytes(old(cache).data@, BIG_CACHE_SLOTS as int) as int, r->Ok_0.1),
    {
        let force_trim = state.last_pressure_check > 90;
        let mut avg: u32 = 0;
        let mut total: u32 = 0;
        let mut total_freed: u64 = trim_big_allocations(cache, space, os);
        let ghost freed0 = total_freed;
        let timing = state.average_block_times_global as u32;
        let stamp = state.current_stamp;
        let class_4096 = get_size_4096_class();
        let mut class = class_4096;
        let ghost classes0 = old(icc).classes_ok();
        let ghost mut popped: Seq<OxHeader> = Seq::empty();
        let ghost mut rel: Seq<OxHeader> = Seq::empty();
        let ghost mut kept: Seq<OxHeader> = Seq::empty();
        proof {
            lemma_no_step(old(icc), 8);
            broadcast use vstd::multiset::group_multiset_axioms;
            lemma_no_blocks(popped);
            assert forall|h: OxHeader| #[trigger] popped.to_multiset().count(h) == 0 by {}
            assert forall|h: OxHeader| #[trigger] rel.to_multiset().count(h) == 0 && kept.to_multiset().count(h) == 0 by {}
        }
        while class < NUM_SIZE_CLASSES
            invariant
                8 <= class <= NUM_SIZE_CLASSES,
                icc.wf(),
                icc.ready(),
                icc.ncpu == old(icc).ncpu,
                old(icc).classes_ok() ==> icc.classes_ok(),
                forall|c: int| 0 <= c < 8 ==> #[trigger] InterConnectCache::class_same(old(icc), icc, c),
                state.current_stamp == stamp,
                state.average_block_times_global == old(state).average_block_times_global,
                total_freed >= freed0,
                class == 8 ==> *icc == *old(icc) && total_freed == freed0,
                pad != 0 && freed0 >= pad ==> class == 8,
                freed0 == cached_bytes(old(cache).data@, BIG_CACHE_SLOTS as int),
                forall|c: int| 0 <= c < NUM_SIZE_CLASSES ==> #[trigger] icc.class_blocks(c) == old(icc).class_blocks(c),
                classes0 == old(icc).classes_ok(),
                stamp == old(state).current_stamp,
                timing == old(state).average_block_times_global as u32,
                force_trim == (old(state).last_pressure_check > 90),
                classes0 ==> forall|i: int| 0 <= i < popped.len() ==> 8 <= #[trigger] popped[i].class < class
                    && old(icc).class_blocks(popped[i].class as int).count(popped[i]) > 0,
                forall|h: OxHeader| idle_for(h, stamp, timing) ==> #[trigger] popped.to_multiset().count(h)
                    == rel.to_multiset().count(h) + kept.to_multiset().count(h),
                forall|h: OxHeader| !idle_for(h, stamp, timing) ==> #[trigger] rel.to_multiset().count(h) == 0,
                forall|h: OxHeader| !idle_for(h, stamp, timing) ==> #[trigger] kept.to_multiset().count(h) == 0,
                kept.len() > 0 ==> pad != 0 && !force_trim && total_freed > pad,
                classes0 ==> total_freed == saturated(freed0 + payload_bytes(rel)),
                forall|c: int| class <= c < NUM_SIZE_CLASSES ==> #[trigger] InterConnectCache::class_same(old(icc), icc, c),
                classes0 && (pad == 0 || total_freed < pad) ==> forall|c: int| 8 <= c < class && #[trigger] gtrim_due(*old(icc), c, stamp, timing)
                    ==> has_class(rel, c),
            decreases NUM_SIZE_CLASSES - class,
        {
            if total_freed >= pad && pad != 0 {
                let res: Result<(i32, u64), OxidallocError> = Ok((1, total_freed));
                proof {
                    if classes0 {
                        assert(gtrim_outcome(*old(icc), popped, rel, kept, old(state).current_stamp,
                            old(state).average_block_times_global as u32, pad, old(state).last_pressure_check,
                            cached_bytes(old(cache).data@, BIG_CACHE_SLOTS as int) as int, res->Ok_0.1));
                    }
                }
                return res;
            }
            let ghost icc_c = *icc;
            let class_usage = icc.get_size(class);
            let rounds = class_usage / GTRIM_BATCH;
            let mut to_trim: Vec<OxHeader> = Vec::new();
            let mut total_loop: usize = 0;
            let mut need_pushed = false;
            let mut step: usize = 0;
            let mut exhausted = false;
            let ghost due = classes0 && gtrim_due(*old(icc), class as int, stamp, timing);
            proof {
                if due {
                    lemma_same_usage(old(icc), icc, class as int, old(icc).ncpu as int);
                    let q = choose|q: int| 0 <= q < old(icc).ncpu && #[trigger] old(icc).source(class as int, q, false) >= 0;
                    assert(InterConnectCache::class_same(old(icc), icc, class as int));
                    assert(icc.usage_of(slot(q, class as int)) == old(icc).usage_of(slot(q, class as int)));
                    assert(icc.main_of(slot(q, class as int)) == old(icc).main_of(slot(q, class as int)));
                    assert(icc.source(class as int, q, false) >= 0);
                    assert(icc.has_blocks(class as int, false));
                    assert(rounds >= 1);
                }
                lemma_no_step(icc, class as int);
                broadcast use vstd::multiset::group_multiset_axioms;
                lemma_no_blocks(to_trim@);
                assert(icc.class_blocks(class as int).add(to_trim@.to_multiset()) =~= icc.class_blocks(class as int));
                assert forall|h: OxHeader| #[trigger] to_trim@.to_multiset().count(h) == 0 by {}
            }
            while step < rounds && !exhausted
                invariant
                    8 <= class < NUM_SIZE_CLASSES,
                    icc.wf(),
                    icc.ready(),
                    steps_ok(&icc_c, icc, class as int),
                    icc_c.classes_ok() ==> icc.classes_ok(),
                    total_loop <= step,
                    step <= rounds,
                    icc_c.classes_ok() ==> all_class(to_trim@, class as int),
                    icc_c.class_blocks(class as int) =~= icc.class_blocks(class as int).add(to_trim@.to_multiset()),
                    icc_c.class_blocks(class as int) == old(icc).class_blocks(class as int),
                    classes0 ==> icc_c.classes_ok(),
                    classes0 ==> forall|i: int| 0 <= i < popped.len() ==> 8 <= #[trigger] popped[i].class <= class
                        && old(icc).class_blocks(popped[i].class as int).count(popped[i]) > 0,
                    forall|h: OxHeader| idle_for(h, stamp, timing) ==> #[trigger] popped.to_multiset().count(h)
                        == rel.to_multiset().count(h) + kept.to_multiset().count(h) + to_trim@.to_multiset().count(h),
                    forall|h: OxHeader| !idle_for(h, stamp, timing) ==> #[trigger] rel.to_multiset().count(h) == 0,
                    forall|h: OxHeader| !idle_for(h, stamp, timing) ==> #[trigger] kept.to_multiset().count(h) == 0,
                    forall|h: OxHeader| !idle_for(h, stamp, timing) ==> #[trigger] to_trim@.to_multiset().count(h) == 0,
                    kept.len() > 0 ==> pad != 0 && !force_trim && total_freed > pad,
                    classes0 ==> total_freed == saturated(freed0 + payload_bytes(rel)),
                    exhausted ==> step >= 1,
                    step == 0 ==> *icc == icc_c && !need_pushed,
                    due ==> icc_c.has_blocks(class as int, false),
                    due && step >= 1 ==> to_trim@.len() > 0,
                decreases rounds - step,
            {
                step = step + 1;
                let ghost icc_s = *icc;
                let popped_now = self.pop_from_global(icc, class, need_pushed, freed_magic);
                proof {
                    lemma_steps_trans(&icc_c, &icc_s, icc, class as int);
                    assert(icc_s.classes_ok() ==> icc.classes_ok());
                    assert(icc_c.classes_ok() ==> icc.classes_ok());
                }
                let batch = match popped_now {
                    Err(e) => {
                        proof {
                            lemma_small_classes(old(icc), &icc_c, icc, class as int);
                            broadcast use vstd::multiset::group_multiset_axioms;
                            let h = choose|h: OxHeader| #[trigger] icc_s.class_blocks(class as int).count(h) > 0 && h.magic != freed_magic;
                            assert(icc_c.class_blocks(class as int).count(h) > 0);
                            assert(old(icc).class_blocks(class as int).count(h) > 0);
                        }
                        return Err(e);
                    },
                    Ok(b) => b,
                };
                let ghost icc_q = *icc;
                let ghost t_start = to_trim@;
                proof {
                    broadcast use vstd::multiset::group_multiset_axioms;
                    assert forall|x: OxHeader| #[trigger] icc_c.class_blocks(class as int).count(x)
                        == icc.class_blocks(class as int).count(x) + batch@.to_multiset().count(x) + to_trim@.to_multiset().count(x) by {
                        assert(icc_s.class_blocks(class as int).count(x) == icc.class_blocks(class as int).count(x) + batch@.to_multiset().count(x));
                    }
                }
                if batch.len() == 0 {
                    proof {
                        broadcast use vstd::multiset::group_multiset_axioms;
                        lemma_no_blocks(batch@);
                    }
                    if total_loop < rounds && !need_pushed {
                        need_pushed = true;
                    } else {
                        exhausted = true;
                    }
                    continue;
                }
                let mut to_push: Vec<OxHeader> = Vec::new();
                let mut k: usize = 0;
                proof {
                    broadcast use vstd::multiset::group_multiset_axioms;
                    lemma_no_blocks(to_push@);
                    lemma_no_blocks(batch@.take(0));
                    assert(to_trim@.to_multiset().add(to_push@.to_multiset()) =~= t_start.to_multiset().add(batch@.take(0).to_multiset()));
                }
                while k < batch.len()
                    invariant
                        k <= batch@.len(),
                        icc_c.classes_ok() ==> all_class(batch@, class as int),
                        icc_c.classes_ok() ==> all_class(to_push@, class as int),
                        icc_c.classes_ok() ==> all_class(to_trim@, class as int),
                        to_trim@.to_multiset().add(to_push@.to_multiset()) =~= t_start.to_multiset().add(batch@.take(k as int).to_multiset()),
                        forall|h: OxHeader| idle_for(h, stamp, timing) ==> #[trigger] to_push@.to_multiset().count(h) == 0,
                        forall|h: OxHeader| !idle_for(h, stamp, timing) ==> #[trigger] to_trim@.to_multiset().count(h) == t_start.to_multiset().count(h),
                    decreases batch@.len() - k,
                {
                    let block = batch[k];
                    let life_time = stamp.saturating_sub(block.life_time);
                    if life_time != 0 {
                        avg = avg.saturating_add(life_time);
                        total = total.saturating_add(1);
                    }
                    let ghost tt0 = to_trim@;
                    let ghost tp0 = to_push@;
                    if life_time > timing {
                        to_trim.insert(0, block);
                    } else {
                        to_push.insert(0, block);
                    }
                    proof {
                        broadcast use vstd::multiset::group_multiset_axioms;
                        broadcast use vstd::seq_lib::to_multiset_insert;
                        broadcast use vstd::seq_lib::to_multiset_build;
                        assert(batch@.take(k + 1) =~= batch@.take(k as int).push(block));
                        assert(tt0.insert(0, block).to_multiset() == tt0.to_multiset().insert(block));
                        assert(tp0.insert(0, block).to_multiset() == tp0.to_multiset().insert(block));
                        assert(batch@.take(k as int).push(block).to_multiset() == batch@.take(k as int).to_multiset().insert(block));
                        assert forall|x: OxHeader| #[trigger] to_trim@.to_multiset().add(to_push@.to_multiset()).count(x)
                            == t_start.to_multiset().add(batch@.take(k + 1).to_multiset()).count(x) by {
                            assert(tt0.to_multiset().add(tp0.to_multiset()).count(x)
                                == t_start.to_multiset().add(batch@.take(k as int).to_multiset()).count(x));
                        }
                        assert(idle_for(block, stamp, timing) == (life_time > timing));
                        if icc_c.classes_ok() {
                            assert(batch@[k as int].class == class);
                            assert forall|t: int| 0 <= t < to_trim@.len() implies #[trigger] to_trim@[t].class == class by {
                                if life_time > timing && t > 0 {
                                    assert(to_trim@[t] == tt0[t - 1]);
                                }
                            }
                            assert forall|t: int| 0 <= t < to_push@.len() implies #[trigger] to_push@[t].class == class by {
                                if life_time <= timing && t > 0 {
                                    assert(to_push@[t] == tp0[t - 1]);
                                }
                            }
                        }
                    }
                    k = k + 1;
                }
                proof {
                    assert(batch@.take(batch@.len() as int) =~= batch@);
                    broadcast use vstd::multiset::group_multiset_axioms;
                    broadcast use vstd::seq_lib::to_multiset_contains;
                    vstd::seq_lib::lemma_multiset_commutative(popped, batch@);
                    if classes0 {
                        assert forall|j: int| 0 <= j < batch@.len() implies
                            old(icc).class_blocks(#[trigger] batch@[j].class as int).count(batch@[j]) > 0 by {
                            assert(batch@.contains(batch@[j]));
                            assert(batch@.to_multiset().count(batch@[j]) > 0);
                            assert(icc_s.class_blocks(class as int).count(batch@[j]) > 0);
                            assert(batch@[j].class == class);
                        }
                        let np = popped + batch@;
                        assert forall|i: int| 0 <= i < np.len() implies 8 <= #[trigger] np[i].class <= class
                            && old(icc).class_blocks(np[i].class as int).count(np[i]) > 0 by {
                            if i >= popped.len() {
                                assert(np[i] == batch@[i - popped.len()]);
                            } else {
                                assert(np[i] == popped[i]);
                            }
                        }
                    }
                    assert forall|h: OxHeader| idle_for(h, stamp, timing) implies #[trigger] (popped + batch@).to_multiset().count(h)
                        == rel.to_multiset().count(h) + kept.to_multiset().count(h) + to_trim@.to_multiset().count(h) by {
                        assert(to_trim@.to_multiset().add(to_push@.to_multiset()).count(h) == t_start.to_multiset().add(batch@.to_multiset()).count(h));
                    }
                    popped = popped + batch@;
                    if due && batch@.len() > 0 {
                        let b0 = batch@[0];
                        assert(batch@.contains(b0));
                        assert(batch@.to_multiset().count(b0) > 0);
                        assert(icc_s.class_blocks(class as int).count(b0) > 0);
                        assert(old(icc).class_blocks(class as int).count(b0) > 0);
                        assert(idle_for(b0, stamp, timing));
                        assert(to_trim@.to_multiset().add(to_push@.to_multiset()).count(b0) == t_start.to_multiset().add(batch@.to_multiset()).count(b0));
                        assert(to_trim@.to_multiset().count(b0) > 0);
                        assert(to_trim@.len() > 0) by {
                            broadcast use vstd::seq_lib::to_multiset_len;
                        }
                    }
                }
                if to_push.len() == 0 {
                    proof {
                        broadcast use vstd::multiset::group_multiset_axioms;
                        lemma_no_blocks(to_push@);
                        assert forall|x: OxHeader| #[trigger] icc_c.class_blocks(class as int).count(x)
                            == icc.class_blocks(class as int).add(to_trim@.to_multiset()).count(x) by {
                            assert(to_trim@.to_multiset().add(to_push@.to_multiset()).count(x)
                                == t_start.to_multiset().add(batch@.to_multiset()).count(x));
                        }
                    }
                    continue;
                }
                let ghost icc_p = *icc;
                let ghost pv = to_push@;
                icc.try_push(class, to_push, true, false);
                proof {
                    broadcast use vstd::multiset::group_multiset_axioms;
                    lemma_push_step(&icc_p, icc, class as int, pv, true, false);
                    lemma_steps_trans(&icc_c, &icc_p, icc, class as int);
                    assert(icc_c.classes_ok() ==> icc.classes_ok());
                    let cpu = choose|cpu: int| 0 <= cpu < icc_p.ncpu
                        && #[trigger] InterConnectCache::push_effect(&icc_p, icc, class as int, cpu, pv, true, false);
                    lemma_push_blocks(&icc_p, icc, class as int, cpu, pv, true, false);
                    assert forall|x: OxHeader| #[trigger] icc_c.class_blocks(class as int).count(x)
                        == icc.class_blocks(class as int).add(to_trim@.to_multiset()).count(x) by {
                        assert(to_trim@.to_multiset().add(pv.to_multiset()).count(x)
                            == t_start.to_multiset().add(batch@.to_multiset()).count(x));
                    }
                }
                total_loop = total_loop + 1;
            }
            while to_trim.len() > 0
                invariant
                    8 <= class < NUM_SIZE_CLASSES,
                    icc.wf(),
                    icc.ready(),
                    steps_ok(&icc_c, icc, class as int),
                    icc_c.classes_ok() ==> icc.classes_ok(),
                    icc_c.classes_ok() ==> all_class(to_trim@, class as int),
                    total_freed >= freed0,
                    icc_c.class_blocks(class as int) =~= icc.class_blocks(class as int).add(to_trim@.to_multiset()),
                    forall|h: OxHeader| idle_for(h, stamp, timing) ==> #[trigger] popped.to_multiset().count(h)
                        == rel.to_multiset().count(h) + kept.to_multiset().count(h) + to_trim@.to_multiset().count(h),
                    forall|h: OxHeader| !idle_for(h, stamp, timing) ==> #[trigger] rel.to_multiset().count(h) == 0,
                    forall|h: OxHeader| !idle_for(h, stamp, timing) ==> #[trigger] kept.to_multiset().count(h) == 0,
                    forall|h: OxHeader| !idle_for(h, stamp, timing) ==> #[trigger] to_trim@.to_multiset().count(h) == 0,
                    kept.len() > 0 ==> pad != 0 && !force_trim && total_freed > pad,
                    classes0 ==> total_freed == saturated(freed0 + payload_bytes(rel)),
                    due && (pad == 0 || total_freed < pad) ==> to_trim@.len() > 0 || has_class(rel, class as int),
                    classes0 && (pad == 0 || total_freed < pad) ==> forall|c: int| 8 <= c < class && #[trigger] gtrim_due(*old(icc), c, stamp, timing)
                        ==> has_class(rel, c),
                decreases to_trim@.len(),
            {
                let ghost tt = to_trim@;
                let block = to_trim.remove(0);
                proof {
                    broadcast use vstd::seq_lib::to_multiset_remove;
                    broadcast use vstd::seq_lib::to_multiset_contains;
                    broadcast use vstd::multiset::group_multiset_axioms;
                    assert(tt.remove(0).to_multiset() == tt.to_multiset().remove(tt[0]));
                    assert(tt.contains(tt[0]));
                    assert(tt.to_multiset().count(block) > 0);
                }
                proof {
                    broadcast use vstd::multiset::group_multiset_axioms;
                    assert(idle_for(block, stamp, timing));
                    if classes0 {
                        assert(block.class == class);
                    }
                }
                let mut trimmed = false;
                if (total_freed <= pad || pad == 0) || force_trim {
                    let size = SIZE_CLASSES[class] as u64;
                    if block.addr <= u64::MAX - (HEADER_SIZE as u64 + size + PAGE_SIZE) {
                        if let Some((start, len)) = release_range(block.addr, size) {
                            os.advise(start, len, Advice(MADV_DONTNEED));
                        }
                    }
                    total_freed = total_freed.saturating_add(size);
                    trimmed = true;
                    proof {
                        broadcast use vstd::multiset::group_multiset_axioms;
                        broadcast use vstd::seq_lib::to_multiset_build;
                        assert(rel.push(block).drop_last() =~= rel);
                        let r0 = rel;
                        rel = rel.push(block);
                        assert forall|c: int| has_class(r0, c) implies #[trigger] has_class(rel, c) by {
                            let i = choose|i: int| 0 <= i < r0.len() && r0[i].class == c;
                            assert(rel[i] == r0[i]);
                        }
                        if classes0 {
                            assert(rel[rel.len() - 1].class == class);
                            assert(has_class(rel, class as int));
                        }
                    }
                } else {
                    proof {
                        broadcast use vstd::multiset::group_multiset_axioms;
                        broadcast use vstd::seq_lib::to_multiset_build;
                        kept = kept.push(block);
                    }
                }
                let ghost icc_p = *icc;
                let mut one: Vec<OxHeader> = Vec::new();
                one.push(block);
                let ghost ov = one@;
                proof {
                    if icc_c.classes_ok() {
                        assert(ov[0] == block);
                        assert(all_class(ov, class as int));
                    }
                }
                icc.try_push(class, one, true, trimmed);
                proof {
                    broadcast use vstd::multiset::group_multiset_axioms;
                    broadcast use vstd::seq_lib::to_multiset_build;
                    lemma_push_step(&icc_p, icc, class as int, ov, true, trimmed);
                    lemma_steps_trans(&icc_c, &icc_p, icc, class as int);
                    assert(icc_c.classes_ok() ==> icc.classes_ok());
                    let cpu = choose|cpu: int| 0 <= cpu < icc_p.ncpu
                        && #[trigger] InterConnectCache::push_effect(&icc_p, icc, class as int, cpu, ov, true, trimmed);
                    lemma_push_blocks(&icc_p, icc, class as int, cpu, ov, true, trimmed);
                    assert(ov =~= Seq::<OxHeader>::empty().push(block));
                    assert(ov.to_multiset() =~= Multiset::<OxHeader>::empty().insert(block));
                    assert forall|x: OxHeader| #[trigger] icc_c.class_blocks(class as int).count(x)
                        == icc.class_blocks(class as int).add(to_trim@.to_multiset()).count(x) by {
                        assert(tt.to_multiset().count(x) == to_trim@.to_multiset().count(x) + ov.to_multiset().count(x));
                    }
                }
            }
            proof {
                assert forall|c: int| class < c < NUM_SIZE_CLASSES implies #[trigger] InterConnectCache::class_same(old(icc), icc, c) by {
                    assert(InterConnectCache::class_same(old(icc), &icc_c, c));
                    assert(InterConnectCache::class_same(&icc_c, icc, c));
                }
                lemma_small_classes(old(icc), &icc_c, icc, class as int);
                broadcast use vstd::multiset::group_multiset_axioms;
                lemma_no_blocks(to_trim@);
                assert(icc.class_blocks(class as int) =~= icc_c.class_blocks(class as int));
                assert forall|c: int| 0 <= c < NUM_SIZE_CLASSES implies #[trigger] icc.class_blocks(c) == old(icc).class_blocks(c) by {
                    if c != class {
                        assert(InterConnectCache::class_same(&icc_c, icc, c));
                        lemma_class_same_blocks(&icc_c, icc, c);
                    }
                }
            }
            class = class + 1;
        }
        if total > 0 {
            let mean = avg / total;
            let clamped = if mean < 1 { 1 } else if mean > 10 { 10 } else { mean };
            state.average_block_times_global = clamped as usize;
            state.global_decay = TimeDecay::decide_on(clamped as usize).to_u8();
        }
        let res: Result<(i32, u64), OxidallocError> = if total_freed >= pad {
            Ok((1, total_freed))
        } else {
            Ok((0, total_freed))
        };
        proof {
            if classes0 {
                assert(gtrim_outcome(*old(icc), popped, rel, kept, old(state).current_stamp,
                    old(state).average_block_times_global as u32, pad, old(state).last_pressure_check,
                    cached_bytes(old(cache).data@, BIG_CACHE_SLOTS as int) as int, res->Ok_0.1));
            }
        }
        res
    }
}

} // verus!
