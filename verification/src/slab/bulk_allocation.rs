//! Carving fresh slab segments into blocks.
use crate::slab::global::GlobalHandler;
use crate::slab::interconnect::{all_class, InterConnectCache};
use crate::slab::thread_local::ThreadLocalEngine;
use crate::slab::{block_size, block_size_of, ITERATIONS, NUM_SIZE_CLASSES, SIZE_CLASSES, TLS_MAX_BLOCKS};
use crate::sys::{Advice, Kernel, MADV_HUGEPAGE};
use crate::va::space::{claimed, AddressSpace};
use crate::{MetaData, OxHeader, OxidallocError, HEADER_SIZE, METADATA_SIZE};
use vstd::arithmetic::div_mod::{lemma_fundamental_div_mod, lemma_mod_pos_bound};
use vstd::arithmetic::mul::lemma_mul_inequality;
use vstd::prelude::*;

verus! {

/// Whole blocks of `block_size` bytes left between `next` and `end`.
pub open spec fn remaining(m: MetaData, block_size: u64) -> int {
    (if m.end > m.next { m.end - m.next } else { 0 }) / (block_size as int)
}

/// `count` fresh headers of `class`, `block_size` bytes apart from `base` on,
/// the lowest first.
pub open spec fn carved(base: u64, block_size: u64, count: int, class: u8, magic: u8, stamp: u32) -> Seq<OxHeader> {
    Seq::new(count as nat, |i: int| OxHeader { addr: (base + i * block_size) as u64, class, magic, life_time: stamp })
}

/// The smaller of `rem` and `batch`.
pub open spec fn carve_count(rem: int, batch: int) -> int {
    if rem < batch { rem } else { batch }
}

/// How many blocks one carving takes: up to 48, as many as fit in 4096 bytes.
pub open spec fn carve_batch(block_size: int) -> int {
    let per_page = 4096int / block_size;
    if per_page >= 48 { 48 } else if per_page >= 1 { per_page } else { 1 }
}

/// Carved headers all belong to their class.
pub proof fn lemma_carved_class(base: u64, bs: u64, count: int, class: int, magic: u8, stamp: u32)
    requires
        0 <= class < 256,
    ensures
        all_class(carved(base, bs, count, class as u8, magic, stamp), class),
{
}

/// Two lists of headers of one class, one after the other.
pub proof fn lemma_concat_class(a: Seq<OxHeader>, b: Seq<OxHeader>, class: int)
    requires
        all_class(a, class),
        all_class(b, class),
    ensures
        all_class(a + b, class),
{
    assert forall|i: int| 0 <= i < (a + b).len() implies #[trigger] (a + b)[i].class == class by {
        if i < a.len() {
            assert((a + b)[i] == a[i]);
        } else {
            assert((a + b)[i] == b[i - a.len()]);
        }
    }
}

proof fn lemma_carve_fits(next: u64, end: u64, bs: u64, count: int)
    requires
        bs > 0,
        next <= end,
        0 <= count <= (end - next) / (bs as int),
    ensures
        next + count * bs <= end,
        forall|i: int| 0 <= i < count ==> next + #[trigger] (i * bs) + bs <= end,
{
    let x = end - next;
    lemma_fundamental_div_mod(x, bs as int);
    lemma_mod_pos_bound(x, bs as int);
    lemma_mul_inequality(count, x / (bs as int), bs as int);
    assert(count * bs <= x) by (nonlinear_arith)
        requires
            count * bs <= (x / (bs as int)) * bs,
            x == bs * (x / (bs as int)) + x % (bs as int),
            x % (bs as int) >= 0,
    ;
    assert forall|i: int| 0 <= i < count implies next + #[trigger] (i * bs) + bs <= end by {
        lemma_mul_inequality(i + 1, count, bs as int);
        assert((i + 1) * bs == i * bs + bs) by (nonlinear_arith);
    }
}

/// The whole blocks left in the segment that `metadata` describes.
pub fn remaining_blocks(metadata: &MetaData, block_size: u64) -> (r: u64)
    requires
        block_size > 0,
    ensures
        r == remaining(*metadata, block_size),
{
    let remaining_bytes = metadata.end.saturating_sub(metadata.next);
    remaining_bytes / block_size
}

/// Carves up to `max_blocks` blocks from the segment that `metadata`
/// describes, stamping each header with `class`, `magic` and
/// `current_stamp`, and moves `next` past them.
pub fn init_blocks(class: u8, metadata: &mut MetaData, block_size: u64, max_blocks: u64, current_stamp: u32, magic: u8) -> (r: Vec<OxHeader>)
    requires
        block_size > 0,
    ensures
        ({
            let rem = remaining(*old(metadata), block_size);
            let count = carve_count(rem, max_blocks as int);
            &&& r@ == carved(old(metadata).next, block_size, count, class, magic, current_stamp)
            &&& final(metadata).start == old(metadata).start
            &&& final(metadata).end == old(metadata).end
            &&& final(metadata).next == old(metadata).next + count * block_size
        }),
{
    let remaining = remaining_blocks(metadata, block_size);
    let count = if remaining < max_blocks { remaining } else { max_blocks };
    let base = metadata.next;
    let mut out: Vec<OxHeader> = Vec::new();
    if count == 0 {
        assert(out@ =~= carved(base, block_size, 0, class, magic, current_stamp));
        return out;
    }
    proof {
        lemma_carve_fits(base, metadata.end, block_size, count as int);
    }
    let mut i: u64 = 0;
    while i < count
        invariant
            i <= count,
            block_size > 0,
            base + count * block_size <= u64::MAX,
            forall|j: int| 0 <= j < count ==> base + #[trigger] (j * block_size) + block_size <= u64::MAX,
            out@ == carved(base, block_size, i as int, class, magic, current_stamp),
        decreases count - i,
    {
        assert(base + i * block_size + block_size <= u64::MAX);
        let addr = base + i * block_size;
        out.push(OxHeader { addr, class, magic, life_time: current_stamp });
        i = i + 1;
        assert(out@ =~= carved(base, block_size, i as int, class, magic, current_stamp));
    }
    metadata.next = base + count * block_size;
    out
}


/// Bytes of a fresh slab segment of `class`: the bookkeeping, then its blocks.
pub open spec fn segment_bytes(class: int) -> u64 {
    (METADATA_SIZE + block_size(class) * ITERATIONS[class]) as u64
}

/// `new` is `old` with the slab segment of `class` dropped.
pub open spec fn pending_cleared(old: &ThreadLocalEngine, new: &ThreadLocalEngine, class: int) -> bool {
    &&& new.wf()
    &&& new.pending@ == old.pending@.update(class, None)
    &&& forall|c: int| 0 <= c < NUM_SIZE_CLASSES ==> #[trigger] new.bin(c) == old.bin(c)
}

/// Hands every block still uncarved in the thread's slab segment of `class`
/// to the shared cache, and forgets the segment.
pub fn drain_pending(thread: &mut ThreadLocalEngine, icc: &mut InterConnectCache, class: usize, current_stamp: u32, magic: u8)
    requires
        old(thread).wf(),
        old(icc).wf(),
        old(icc).ready(),
        class < NUM_SIZE_CLASSES,
    ensures
        pending_cleared(old(thread), final(thread), class as int),
        final(icc).wf(),
        final(icc).ready(),
        old(icc).classes_ok() ==> final(icc).classes_ok(),
        ({
            let bs = block_size(class as int) as u64;
            let p = old(thread).pending@[class as int];
            if p is Some && remaining(p.unwrap(), bs) > 0 {
                let md = p.unwrap();
                exists|cpu: int| 0 <= cpu < old(icc).ncpu
                    && #[trigger] InterConnectCache::push_effect(old(icc), final(icc), class as int, cpu,
                        carved(md.next, bs, remaining(md, bs), class as u8, magic, current_stamp), false, false)
            } else {
                *final(icc) == *old(icc)
            }
        }),
{
    proof {
        assert(old(thread).tls@[class as int].wf());
    }
    let pending = thread.pending[class];
    match pending {
        None => {
            thread.pending.set(class, None);
            assert(thread.pending@ =~= old(thread).pending@.update(class as int, None));
        },
        Some(md0) => {
            let bs = block_size_of(class);
            let mut md = md0;
            let remaining = remaining_blocks(&md, bs);
            if remaining > 0 {
                let blocks = init_blocks(class as u8, &mut md, bs, remaining, current_stamp, magic);
                let ghost bv = blocks@;
                proof {
                    lemma_carved_class(md0.next, bs, carve_count(remaining as int, remaining as int), class as int, magic, current_stamp);
                }
                if blocks.len() > 0 {
                    GlobalHandler.push_to_global(icc, class, blocks, false, false);
                    proof {
                        if old(icc).classes_ok() {
                            let cpu = choose|cpu: int| 0 <= cpu < old(icc).ncpu
                                && #[trigger] InterConnectCache::push_effect(old(icc), icc, class as int, cpu, bv, false, false);
                            InterConnectCache::lemma_push_keeps_classes(old(icc), icc, class as int, cpu, bv, false, false);
                        }
                    }
                }
            }
            thread.pending.set(class, None);
        },
    }
}

/// The thread's slab segment of `class` may be kept: it still has room.
pub open spec fn kept(md: MetaData, bs: u64) -> Option<MetaData> {
    if remaining(md, bs) > 0 { Some(md) } else { None }
}

/// Gives the thread's stack of `class` fresh blocks: carved from the
/// thread's current slab segment of the class while it has room, else from
/// a new segment of `ITERATIONS[class]` blocks that is claimed in the
/// address space and mapped. When the thread already holds
/// `TLS_MAX_BLOCKS[class]` blocks of the class, a new segment's first
/// blocks go to the shared cache instead. `OutOfMemory` reports a mapping
/// that failed; the other errors are fatal.
pub fn bulk_fill<K: Kernel>(
    thread: &mut ThreadLocalEngine,
    icc: &mut InterConnectCache,
    space: &mut AddressSpace,
    os: &mut K,
    class: usize,
    current_stamp: u32,
    magic: u8,
    disable_thp: bool,
) -> (r: Result<(), OxidallocError>)
    requires
        old(thread).wf(),
        old(icc).wf(),
        old(icc).ready(),
        old(space).wf(),
        class < NUM_SIZE_CLASSES,
        old(thread).bin(class as int).len() + 48 <= usize::MAX,
    ensures
        final(thread).wf(),
        final(icc).wf(),
        final(icc).ready(),
        final(space).wf(),
        forall|c: int| 0 <= c < NUM_SIZE_CLASSES && c != class ==> #[trigger] final(thread).bin(c) == old(thread).bin(c),
        forall|c: int| 0 <= c < NUM_SIZE_CLASSES && c != class ==> #[trigger] final(thread).pending@[c] == old(thread).pending@[c],
        forall|a: u64| old(space).map.owns(a) ==> #[trigger] final(space).map.owns(a),
        old(thread).classes_ok() ==> final(thread).classes_ok(),
        old(icc).classes_ok() ==> final(icc).classes_ok(),
        r is Err ==> final(thread).bin(class as int) == old(thread).bin(class as int) && *final(icc) == *old(icc),
        ({
            let bs = block_size(class as int) as u64;
            let batch = carve_batch(bs as int);
            let p = old(thread).pending@[class as int];
            if p is Some && remaining(p.unwrap(), bs) > 0 {
                    let md = p.unwrap();
                    let count = carve_count(remaining(md, bs), batch);
                    let next = MetaData { start: md.start, end: md.end, next: (md.next + count * bs) as u64 };
                    &&& r is Ok
                    &&& final(thread).bin(class as int) == carved(md.next, bs, count, class as u8, magic, current_stamp) + old(thread).bin(class as int)
                    &&& final(thread).pending@[class as int] == kept(next, bs)
                    &&& *final(icc) == *old(icc)
                    &&& *final(space) == *old(space)
            } else {
                r is Ok ==> exists|base: u64| {
                    let total = segment_bytes(class as int);
                    let md = MetaData { start: base, end: (base + total) as u64, next: (base + METADATA_SIZE) as u64 };
                    let count = carve_count(remaining(md, bs), batch);
                    let blocks = carved(md.next, bs, count, class as u8, magic, current_stamp);
                    let next = MetaData { start: base, end: (base + total) as u64, next: (md.next + count * bs) as u64 };
                    &&& #[trigger] claimed(&old(space).map, &final(space).map, segment_bytes(class as int), base)
                    &&& count > 0
                    &&& final(thread).pending@[class as int] == kept(next, bs)
                    &&& if old(thread).bin(class as int).len() >= TLS_MAX_BLOCKS[class as int] {
                        &&& final(thread).bin(class as int) == old(thread).bin(class as int)
                        &&& exists|cpu: int| 0 <= cpu < old(icc).ncpu
                            && #[trigger] InterConnectCache::push_effect(old(icc), final(icc), class as int, cpu, blocks, false, false)
                    } else {
                        &&& final(thread).bin(class as int) == blocks + old(thread).bin(class as int)
                        &&& *final(icc) == *old(icc)
                    }
                }
            }
        }),
{
    proof {
        assert(old(thread).tls@[class as int].wf());
        crate::slab::lemma_class_bounds(class as int);
    }
    let payload = SIZE_CLASSES[class] as u64;
    let bs = block_size_of(class);
    let num_blocks = ITERATIONS[class] as u64;
    let per_page = 4096 / bs;
    let max_init = if per_page >= 48 {
        48
    } else if per_page >= 1 {
        per_page
    } else {
        1
    };
    if let Some(md0) = thread.pending[class] {
        let mut md = md0;
        let blocks = init_blocks(class as u8, &mut md, bs, max_init, current_stamp, magic);
        proof {
            lemma_carved_class(md0.next, bs, carve_count(remaining(md0, bs), max_init as int), class as int, magic, current_stamp);
        }
        if blocks.len() > 0 {
            let ghost bv = blocks@;
            thread.push_to_thread_tailed(class, blocks);
            let ghost mid = *thread;
            let keep = if remaining_blocks(&md, bs) == 0 { None } else { Some(md) };
            thread.pending.set(class, keep);
            proof {
                assert forall|c: int| 0 <= c < NUM_SIZE_CLASSES && c != class implies #[trigger] thread.bin(c) == old(thread).bin(c) by {
                    assert(mid.bin(c) == old(thread).bin(c));
                }
                assert forall|c: int| 0 <= c < NUM_SIZE_CLASSES implies #[trigger] thread.tls@[c].wf() by {
                    assert(mid.tls@[c].wf());
                }
                if old(thread).classes_ok() {
                    assert(all_class(old(thread).bin(class as int), class as int));
                    lemma_concat_class(bv, old(thread).bin(class as int), class as int);
                    assert forall|c: int| 0 <= c < NUM_SIZE_CLASSES implies all_class(#[trigger] thread.bin(c), c) by {
                        if c != class {
                            assert(all_class(old(thread).bin(c), c));
                        }
                    }
                }
            }
            return Ok(());
        }
        thread.pending.set(class, None);
    }
    let ghost th1 = *thread;
    proof {
        assert forall|c: int| 0 <= c < NUM_SIZE_CLASSES implies #[trigger] th1.bin(c) == old(thread).bin(c) by {}
    }
    assert(bs * num_blocks <= 2097168 * 2048) by (nonlinear_arith)
        requires
            bs <= 2097168,
            num_blocks <= 2048,
    ;
    let total = METADATA_SIZE + bs * num_blocks;
    let ghost sp0 = *space;
    let hint = match space.allocate(total, os) {
        Ok(Some(h)) => h,
        Ok(None) => return Err(OxidallocError::VaBitmapExhausted),
        Err(e) => return Err(e),
    };
    if hint > u64::MAX - total || !os.map_fixed(hint, total) {
        space.map.free(hint, total);
        return Err(OxidallocError::OutOfMemory);
    }
    let mut md = MetaData { start: hint, end: hint + total, next: hint + METADATA_SIZE };
    let ghost md_fresh = md;
    proof {
        assert(sp0 == *old(space));
        assert(total == segment_bytes(class as int));
        assert(claimed(&old(space).map, &space.map, segment_bytes(class as int), hint));
        assert(max_init == carve_batch(bs as int));
    }
    if class == NUM_SIZE_CLASSES - 1 && !disable_thp {
        os.advise(hint + HEADER_SIZE as u64, payload, Advice(MADV_HUGEPAGE));
    }
    let blocks = init_blocks(class as u8, &mut md, bs, max_init, current_stamp, magic);
    let ghost bv = blocks@;
    proof {
        lemma_carved_class(md_fresh.next, bs, carve_count(remaining(md_fresh, bs), max_init as int), class as int, magic, current_stamp);
    }
    if blocks.len() == 0 {
        return Err(OxidallocError::OutOfMemory);
    }
    let keep = if remaining_blocks(&md, bs) == 0 { None } else { Some(md) };
    proof {
        assert(th1.tls@[class as int].wf());
        assert(th1.bin(class as int) == old(thread).bin(class as int));
    }
    if thread.tls[class].usage >= TLS_MAX_BLOCKS[class] {
        GlobalHandler.push_to_global(icc, class, blocks, false, false);
        thread.pending.set(class, keep);
        proof {
            assert forall|c: int| 0 <= c < NUM_SIZE_CLASSES implies #[trigger] thread.bin(c) == old(thread).bin(c) by {
                assert(th1.bin(c) == old(thread).bin(c));
            }
            assert forall|c: int| 0 <= c < NUM_SIZE_CLASSES implies #[trigger] thread.tls@[c].wf() by {
                assert(th1.tls@[c].wf());
            }
            if old(thread).classes_ok() {
                assert forall|c: int| 0 <= c < NUM_SIZE_CLASSES implies all_class(#[trigger] thread.bin(c), c) by {
                    assert(all_class(old(thread).bin(c), c));
                }
            }
            if old(icc).classes_ok() {
                let cpu = choose|cpu: int| 0 <= cpu < old(icc).ncpu
                    && #[trigger] InterConnectCache::push_effect(old(icc), icc, class as int, cpu, bv, false, false);
                InterConnectCache::lemma_push_keeps_classes(old(icc), icc, class as int, cpu, bv, false, false);
            }
        }
        return Ok(());
    }
    thread.push_to_thread_tailed(class, blocks);
    let ghost mid = *thread;
    thread.pending.set(class, keep);
    proof {
        assert forall|c: int| 0 <= c < NUM_SIZE_CLASSES && c != class implies #[trigger] thread.bin(c) == old(thread).bin(c) by {
            assert(mid.bin(c) == th1.bin(c));
            assert(th1.bin(c) == old(thread).bin(c));
        }
        assert forall|c: int| 0 <= c < NUM_SIZE_CLASSES implies #[trigger] thread.tls@[c].wf() by {
            assert(mid.tls@[c].wf());
        }
        if old(thread).classes_ok() {
            assert(all_class(old(thread).bin(class as int), class as int));
            lemma_concat_class(bv, old(thread).bin(class as int), class as int);
            assert forall|c: int| 0 <= c < NUM_SIZE_CLASSES implies all_class(#[trigger] thread.bin(c), c) by {
                if c != class {
                    assert(all_class(old(thread).bin(c), c));
                }
            }
        }
    }
    Ok(())
}

/// At a thread's exit: every stack of its cache that holds blocks goes to
/// the shared cache (each block restamped to zero), and then what is left
/// uncarved in the class's slab segment. Classes whose stack is empty are
/// skipped, their segment included.
pub fn cleanup_thread_cache(thread: &mut ThreadLocalEngine, icc: &mut InterConnectCache, current_stamp: u32, magic: u8)
    requires
        old(thread).wf(),
        old(icc).wf(),
        old(icc).ready(),
    ensures
        final(thread).wf(),
        final(icc).wf(),
        final(icc).ready(),
        final(icc).ncpu == old(icc).ncpu,
        forall|c: int| 0 <= c < NUM_SIZE_CLASSES ==> #[trigger] final(thread).bin(c).len() == 0,
        forall|c: int| 0 <= c < NUM_SIZE_CLASSES ==> #[trigger] final(thread).pending@[c]
            == if old(thread).bin(c).len() == 0 { old(thread).pending@[c] } else { None },
        old(thread).classes_ok() && old(icc).classes_ok() ==> final(icc).classes_ok(),
{
    let mut class: usize = 0;
    while class < NUM_SIZE_CLASSES
        invariant
            class <= NUM_SIZE_CLASSES,
            thread.wf(),
            icc.wf(),
            icc.ready(),
            icc.ncpu == old(icc).ncpu,
            forall|c: int| 0 <= c < class ==> #[trigger] thread.bin(c).len() == 0,
            forall|c: int| class <= c < NUM_SIZE_CLASSES ==> #[trigger] thread.bin(c) == old(thread).bin(c),
            forall|c: int| 0 <= c < class ==> #[trigger] thread.pending@[c]
                == if old(thread).bin(c).len() == 0 { old(thread).pending@[c] } else { None },
            forall|c: int| class <= c < NUM_SIZE_CLASSES ==> #[trigger] thread.pending@[c] == old(thread).pending@[c],
            old(thread).classes_ok() && old(icc).classes_ok() ==> icc.classes_ok(),
            old(thread).classes_ok() ==> thread.classes_ok(),
        decreases NUM_SIZE_CLASSES - class,
    {
        proof {
            assert(thread.tls@[class as int].wf());
        }
        if thread.tls[class].usage == 0 {
            proof {
                assert(thread.bin(class as int) == old(thread).bin(class as int));
                assert(old(thread).bin(class as int).len() == 0);
                assert(thread.pending@[class as int] == old(thread).pending@[class as int]);
            }
            class = class + 1;
            continue;
        }
        let ghost th0 = *thread;
        let list = thread.pop_batch(class, usize::MAX);
        let ghost th1 = *thread;
        let mut out: Vec<OxHeader> = Vec::new();
        let mut i: usize = 0;
        while i < list.len()
            invariant
                i <= list@.len(),
                out@.len() == i,
                forall|k: int| 0 <= k < i ==> #[trigger] out@[k] == (OxHeader { life_time: 0, ..list@[k] }),
            decreases list@.len() - i,
        {
            out.push(OxHeader { life_time: 0, ..list[i] });
            i = i + 1;
        }
        proof {
            assert(list@ =~= th0.bin(class as int));
            assert(th1.bin(class as int).len() == 0);
            if old(thread).classes_ok() {
                assert(all_class(th0.bin(class as int), class as int));
                assert forall|k: int| 0 <= k < out@.len() implies #[trigger] out@[k].class == class by {
                    assert(out@[k].class == list@[k].class);
                }
            }
        }
        let ghost ov = out@;
        let ghost ic0 = *icc;
        GlobalHandler.push_to_global(icc, class, out, false, false);
        proof {
            crate::trim::gtrim::lemma_push_step(&ic0, icc, class as int, ov, false, false);
        }
        drain_pending(thread, icc, class, current_stamp, magic);
        proof {
            assert forall|c: int| 0 <= c < NUM_SIZE_CLASSES implies #[trigger] thread.tls@[c].wf() by {}
            assert forall|c: int| 0 <= c < NUM_SIZE_CLASSES && c != class implies #[trigger] thread.bin(c) == th0.bin(c) by {
                assert(th1.bin(c) == th0.bin(c));
            }
            if old(thread).classes_ok() {
                assert forall|c: int| 0 <= c < NUM_SIZE_CLASSES implies all_class(#[trigger] thread.bin(c), c) by {
                    if c != class {
                        assert(all_class(th0.bin(c), c));
                    }
                }
            }
        }
        class = class + 1;
    }
}
} // verus!
