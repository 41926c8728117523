//! The per-thread trimmer: moves blocks that sat long in threads' caches
//! to the shared cache, giving back the pages of the larger ones.
use crate::slab::global::GlobalHandler;
use crate::slab::interconnect::{all_class, InterConnectCache};
use crate::slab::thread_local::ThreadLocalEngine;
use crate::slab::{get_size_4096_class, NUM_SIZE_CLASSES, SIZE_CLASSES};
use crate::sys::{Advice, Kernel, MADV_DONTNEED};
use crate::trim::gtrim::{lemma_push_step, lemma_steps_trans, payload_bytes, saturated, steps_ok};
use crate::trim::{release_range, TimeDecay, TrimState, PAGE_SIZE};
use crate::{OxHeader, HEADER_SIZE};
use crate::slab::census::{lemma_class_same_blocks, lemma_no_blocks, lemma_push_blocks};
use vstd::multiset::Multiset;
use vstd::prelude::*;

verus! {

/// Every engine of `v` is well formed.
pub open spec fn engines_ok(v: Seq<ThreadLocalEngine>) -> bool {
    forall|e: int| 0 <= e < v.len() ==> (#[trigger] v[e]).wf()
}

/// Every engine of `v` holds headers of the right classes only.
pub open spec fn engines_classes_ok(v: Seq<ThreadLocalEngine>) -> bool {
    forall|e: int| 0 <= e < v.len() ==> (#[trigger] v[e]).classes_ok()
}

/// The blocks of `class` in the caches of the first `n` engines of `v`.
pub open spec fn engines_blocks(v: Seq<ThreadLocalEngine>, class: int, n: int) -> Multiset<OxHeader>
    decreases n,
{
    if n <= 0 {
        Multiset::empty()
    } else {
        engines_blocks(v, class, n - 1).add(v[n - 1].bin(class).to_multiset())
    }
}

/// `s` with every block stamped `stamp`.
pub open spec fn restamped(s: Seq<OxHeader>, stamp: u32) -> Seq<OxHeader> {
    s.map_values(|h: OxHeader| OxHeader { life_time: stamp, ..h })
}

/// No block in the caches of `eng` is marked in use.
pub open spec fn free_bins(eng: ThreadLocalEngine, in_use_magic: u8) -> bool {
    forall|c: int, i: int| 0 <= c < NUM_SIZE_CLASSES && 0 <= i < eng.bin(c).len() ==> #[trigger] eng.bin(c)[i].magic != in_use_magic
}

/// No block in the caches of the engines of `v` is marked in use.
pub open spec fn no_block_in_use(v: Seq<ThreadLocalEngine>, in_use_magic: u8) -> bool {
    forall|e: int| 0 <= e < v.len() ==> free_bins(#[trigger] v[e], in_use_magic)
}

/// Class `c` holds the same blocks as at the start of a round: those of the
/// engines of `e_old` are now in the engines of `v` or, restamped, in the
/// shared cache on top of what it held.
pub open spec fn kept_at(
    e_old: Seq<ThreadLocalEngine>,
    icc_old: InterConnectCache,
    v: Seq<ThreadLocalEngine>,
    icc: InterConnectCache,
    moved: Seq<Seq<OxHeader>>,
    stamp: u32,
    c: int,
) -> bool {
    let n = e_old.len() as int;
    &&& engines_blocks(e_old, c, n) =~= engines_blocks(v, c, n).add(moved[c].to_multiset())
    &&& icc.class_blocks(c) =~= icc_old.class_blocks(c).add(restamped(moved[c], stamp).to_multiset())
}

/// Replacing one engine changes the blocks of a class by that engine's change.
proof fn lemma_engines_update(v: Seq<ThreadLocalEngine>, w: Seq<ThreadLocalEngine>, class: int, e: int, n: int)
    requires
        0 <= n,
        forall|t: int| 0 <= t < n && t != e ==> #[trigger] w[t].bin(class) == v[t].bin(class),
    ensures
        0 <= e < n ==> engines_blocks(w, class, n).add(v[e].bin(class).to_multiset())
            =~= engines_blocks(v, class, n).add(w[e].bin(class).to_multiset()),
        !(0 <= e < n) ==> engines_blocks(w, class, n) =~= engines_blocks(v, class, n),
    decreases n,
{
    broadcast use vstd::multiset::group_multiset_axioms;
    if n > 0 {
        lemma_engines_update(v, w, class, e, n - 1);
        let wp = engines_blocks(w, class, n - 1);
        let vp = engines_blocks(v, class, n - 1);
        let wl = w[n - 1].bin(class).to_multiset();
        let vl = v[n - 1].bin(class).to_multiset();
        if n - 1 != e {
            assert(w[n - 1].bin(class) == v[n - 1].bin(class));
        }
        if 0 <= e < n - 1 {
            assert forall|x: OxHeader| #[trigger] wp.add(wl).add(v[e].bin(class).to_multiset()).count(x)
                == vp.add(vl).add(w[e].bin(class).to_multiset()).count(x) by {
                assert(wp.add(v[e].bin(class).to_multiset()).count(x) == vp.add(w[e].bin(class).to_multiset()).count(x));
            }
        } else if e == n - 1 {
            assert forall|x: OxHeader| #[trigger] wp.add(wl).add(v[e].bin(class).to_multiset()).count(x)
                == vp.add(vl).add(w[e].bin(class).to_multiset()).count(x) by {
                assert(wp.count(x) == vp.count(x));
            }
        } else {
            assert forall|x: OxHeader| #[trigger] wp.add(wl).count(x) == vp.add(vl).count(x) by {
                assert(wp.count(x) == vp.count(x));
            }
        }
    }
}

/// A block put in front of a sequence adds one to its count.
proof fn lemma_cons(x: OxHeader, s: Seq<OxHeader>)
    ensures
        (seq![x] + s).to_multiset() =~= s.to_multiset().insert(x),
{
    broadcast use vstd::multiset::group_multiset_axioms;
    broadcast use vstd::seq_lib::lemma_multiset_commutative;
    broadcast use vstd::seq_lib::to_multiset_build;
    assert(seq![x] =~= Seq::<OxHeader>::empty().push(x));
    lemma_no_blocks(Seq::<OxHeader>::empty());
    assert((seq![x] + s).to_multiset() =~= seq![x].to_multiset().add(s.to_multiset()));
}

/// Stamping one more block.
proof fn lemma_restamp_push(s: Seq<OxHeader>, x: OxHeader, stamp: u32)
    ensures
        restamped(s.push(x), stamp).to_multiset() =~= restamped(s, stamp).to_multiset().insert(OxHeader { life_time: stamp, ..x }),
{
    broadcast use vstd::seq_lib::to_multiset_build;
    assert(restamped(s.push(x), stamp) =~= restamped(s, stamp).push(OxHeader { life_time: stamp, ..x }));
}

/// Class `c` holds the same blocks as at the start of a round: those of the
/// engines of `e_old` are now in the engines of `v`, in `eng` (an engine
/// taken out of `v`), in `extra` (when `c` is `class`), or, restamped, in the
/// shared cache on top of what it held.
pub open spec fn conserved_at(
    e_old: Seq<ThreadLocalEngine>,
    icc_old: InterConnectCache,
    v: Seq<ThreadLocalEngine>,
    icc: InterConnectCache,
    eng: ThreadLocalEngine,
    class: int,
    extra: Seq<OxHeader>,
    moved: Seq<Seq<OxHeader>>,
    stamp: u32,
    c: int,
) -> bool {
    let n = e_old.len() as int;
    &&& engines_blocks(e_old, c, n) =~= engines_blocks(v, c, n).add(eng.bin(c).to_multiset())
        .add(if c == class { extra.to_multiset() } else { Multiset::empty() }).add(moved[c].to_multiset())
    &&& icc.class_blocks(c) =~= icc_old.class_blocks(c).add(restamped(moved[c], stamp).to_multiset())
}

/// A step that changes only class `class` keeps every class's blocks, when
/// the blocks of that class moved between the engine, `extra`, and the
/// shared cache (restamped) without any being lost or made up.
proof fn lemma_step(
    e_old: Seq<ThreadLocalEngine>,
    icc_old: InterConnectCache,
    v: Seq<ThreadLocalEngine>,
    icc0: InterConnectCache,
    icc1: InterConnectCache,
    eng0: ThreadLocalEngine,
    eng1: ThreadLocalEngine,
    class: int,
    extra0: Seq<OxHeader>,
    extra1: Seq<OxHeader>,
    moved0: Seq<Seq<OxHeader>>,
    moved1: Seq<Seq<OxHeader>>,
    stamp: u32,
)
    requires
        0 <= class < NUM_SIZE_CLASSES,
        forall|c: int| 0 <= c < NUM_SIZE_CLASSES ==> #[trigger] conserved_at(e_old, icc_old, v, icc0, eng0, class, extra0, moved0, stamp, c),
        forall|c: int| 0 <= c < NUM_SIZE_CLASSES && c != class ==> #[trigger] eng1.bin(c) == eng0.bin(c),
        forall|c: int| 0 <= c < NUM_SIZE_CLASSES && c != class ==> #[trigger] icc1.class_blocks(c) == icc0.class_blocks(c),
        forall|c: int| 0 <= c < NUM_SIZE_CLASSES && c != class ==> #[trigger] moved1[c] == moved0[c],
        eng1.bin(class).to_multiset().add(extra1.to_multiset()).add(moved1[class].to_multiset())
            =~= eng0.bin(class).to_multiset().add(extra0.to_multiset()).add(moved0[class].to_multiset()),
        icc1.class_blocks(class).add(restamped(moved0[class], stamp).to_multiset())
            =~= icc0.class_blocks(class).add(restamped(moved1[class], stamp).to_multiset()),
    ensures
        forall|c: int| 0 <= c < NUM_SIZE_CLASSES ==> #[trigger] conserved_at(e_old, icc_old, v, icc1, eng1, class, extra1, moved1, stamp, c),
{
    broadcast use vstd::multiset::group_multiset_axioms;
    assert forall|c: int| 0 <= c < NUM_SIZE_CLASSES implies #[trigger] conserved_at(e_old, icc_old, v, icc1, eng1, class, extra1, moved1, stamp, c) by {
        assert(conserved_at(e_old, icc_old, v, icc0, eng0, class, extra0, moved0, stamp, c));
        let n = e_old.len() as int;
        if c == class {
            let eb = engines_blocks(v, c, n);
            assert forall|x: OxHeader| #[trigger] engines_blocks(e_old, c, n).count(x)
                == eb.add(eng1.bin(c).to_multiset()).add(extra1.to_multiset()).add(moved1[c].to_multiset()).count(x) by {
                assert(eng1.bin(class).to_multiset().add(extra1.to_multiset()).add(moved1[class].to_multiset()).count(x)
                    == eng0.bin(class).to_multiset().add(extra0.to_multiset()).add(moved0[class].to_multiset()).count(x));
            }
            assert forall|x: OxHeader| #[trigger] icc1.class_blocks(c).count(x)
                == icc_old.class_blocks(c).add(restamped(moved1[c], stamp).to_multiset()).count(x) by {
                assert(icc1.class_blocks(class).add(restamped(moved0[class], stamp).to_multiset()).count(x)
                    == icc0.class_blocks(class).add(restamped(moved1[class], stamp).to_multiset()).count(x));
            }
        }
    }
}

/// With nothing set apart, the class given to `conserved_at` does not matter.
proof fn lemma_any_class(
    e_old: Seq<ThreadLocalEngine>,
    icc_old: InterConnectCache,
    v: Seq<ThreadLocalEngine>,
    icc: InterConnectCache,
    eng: ThreadLocalEngine,
    k0: int,
    k1: int,
    extra: Seq<OxHeader>,
    moved: Seq<Seq<OxHeader>>,
    stamp: u32,
)
    requires
        extra.len() == 0,
        forall|c: int| 0 <= c < NUM_SIZE_CLASSES ==> #[trigger] conserved_at(e_old, icc_old, v, icc, eng, k0, extra, moved, stamp, c),
    ensures
        forall|c: int| 0 <= c < NUM_SIZE_CLASSES ==> #[trigger] conserved_at(e_old, icc_old, v, icc, eng, k1, extra, moved, stamp, c),
{
    lemma_no_blocks(extra);
    assert forall|c: int| 0 <= c < NUM_SIZE_CLASSES implies #[trigger] conserved_at(e_old, icc_old, v, icc, eng, k1, extra, moved, stamp, c) by {
        assert(conserved_at(e_old, icc_old, v, icc, eng, k0, extra, moved, stamp, c));
    }
}

/// Taking engine `e` out of `v` (leaving one with empty caches) moves its
/// blocks into `eng`.
proof fn lemma_take_out(
    e_old: Seq<ThreadLocalEngine>,
    icc_old: InterConnectCache,
    v: Seq<ThreadLocalEngine>,
    w: Seq<ThreadLocalEngine>,
    icc: InterConnectCache,
    eng: ThreadLocalEngine,
    e: int,
    moved: Seq<Seq<OxHeader>>,
    stamp: u32,
)
    requires
        v.len() == e_old.len(),
        0 <= e < v.len(),
        eng == v[e],
        w == v.update(e, w[e]),
        forall|c: int| 0 <= c < NUM_SIZE_CLASSES ==> (#[trigger] w[e].bin(c)).len() == 0,
        forall|c: int| 0 <= c < NUM_SIZE_CLASSES ==> #[trigger] kept_at(e_old, icc_old, v, icc, moved, stamp, c),
    ensures
        forall|c: int| 0 <= c < NUM_SIZE_CLASSES ==> #[trigger] conserved_at(e_old, icc_old, w, icc, eng, 0, Seq::empty(), moved, stamp, c),
{
    broadcast use vstd::multiset::group_multiset_axioms;
    let n = e_old.len() as int;
    lemma_no_blocks(Seq::<OxHeader>::empty());
    assert forall|c: int| 0 <= c < NUM_SIZE_CLASSES implies #[trigger] conserved_at(e_old, icc_old, w, icc, eng, 0, Seq::empty(), moved, stamp, c) by {
        assert(kept_at(e_old, icc_old, v, icc, moved, stamp, c));
        lemma_engines_update(v, w, c, e, n);
        lemma_no_blocks(w[e].bin(c));
        assert forall|x: OxHeader| #[trigger] engines_blocks(e_old, c, n).count(x)
            == engines_blocks(w, c, n).add(eng.bin(c).to_multiset()).add(Seq::<OxHeader>::empty().to_multiset()).add(moved[c].to_multiset()).count(x) by {
            assert(engines_blocks(w, c, n).add(v[e].bin(c).to_multiset()).count(x) == engines_blocks(v, c, n).add(w[e].bin(c).to_multiset()).count(x));
        }
    }
}

/// Putting `eng` back in place of the empty engine `e` of `w`.
proof fn lemma_put_back(
    e_old: Seq<ThreadLocalEngine>,
    icc_old: InterConnectCache,
    w: Seq<ThreadLocalEngine>,
    icc: InterConnectCache,
    eng: ThreadLocalEngine,
    e: int,
    k: int,
    extra: Seq<OxHeader>,
    moved: Seq<Seq<OxHeader>>,
    stamp: u32,
)
    requires
        w.len() == e_old.len(),
        0 <= e < w.len(),
        extra.len() == 0,
        forall|c: int| 0 <= c < NUM_SIZE_CLASSES ==> (#[trigger] w[e].bin(c)).len() == 0,
        forall|c: int| 0 <= c < NUM_SIZE_CLASSES ==> #[trigger] conserved_at(e_old, icc_old, w, icc, eng, k, extra, moved, stamp, c),
    ensures
        forall|c: int| 0 <= c < NUM_SIZE_CLASSES ==> #[trigger] kept_at(e_old, icc_old, w.update(e, eng), icc, moved, stamp, c),
{
    broadcast use vstd::multiset::group_multiset_axioms;
    let n = e_old.len() as int;
    let u = w.update(e, eng);
    lemma_no_blocks(extra);
    assert forall|c: int| 0 <= c < NUM_SIZE_CLASSES implies #[trigger] kept_at(e_old, icc_old, u, icc, moved, stamp, c) by {
        assert(conserved_at(e_old, icc_old, w, icc, eng, k, extra, moved, stamp, c));
        lemma_engines_update(w, u, c, e, n);
        lemma_no_blocks(w[e].bin(c));
        assert forall|x: OxHeader| #[trigger] engines_blocks(e_old, c, n).count(x)
            == engines_blocks(u, c, n).add(moved[c].to_multiset()).count(x) by {
            assert(engines_blocks(u, c, n).add(w[e].bin(c).to_multiset()).count(x) == engines_blocks(w, c, n).add(u[e].bin(c).to_multiset()).count(x));
        }
    }
}

/// The blocks of class `c` that left the engines of `e_old` (leaving those
/// of `v`) are `moved`, and they were added, restamped, to the shared cache.
pub open spec fn moved_out(
    e_old: Seq<ThreadLocalEngine>,
    icc_old: InterConnectCache,
    v: Seq<ThreadLocalEngine>,
    icc: InterConnectCache,
    moved: Seq<OxHeader>,
    stamp: u32,
    c: int,
) -> bool {
    &&& engines_blocks(e_old, c, e_old.len() as int) =~= engines_blocks(v, c, e_old.len() as int).add(moved.to_multiset())
    &&& icc.class_blocks(c) =~= icc_old.class_blocks(c).add(restamped(moved, stamp).to_multiset())
}

/// What the blocks kept so far say at the end of a round.
proof fn lemma_kept_final(
    e_old: Seq<ThreadLocalEngine>,
    icc_old: InterConnectCache,
    v: Seq<ThreadLocalEngine>,
    icc: InterConnectCache,
    moved: Seq<Seq<OxHeader>>,
    stamp: u32,
)
    requires
        moved.len() == NUM_SIZE_CLASSES,
        forall|c: int| 0 <= c < NUM_SIZE_CLASSES ==> #[trigger] kept_at(e_old, icc_old, v, icc, moved, stamp, c),
    ensures
        exists|ms: Seq<Seq<OxHeader>>| ms.len() == NUM_SIZE_CLASSES
            && forall|c: int| 0 <= c < NUM_SIZE_CLASSES ==> #[trigger] moved_out(e_old, icc_old, v, icc, ms[c], stamp, c),
{
    assert forall|c: int| 0 <= c < NUM_SIZE_CLASSES implies #[trigger] moved_out(e_old, icc_old, v, icc, moved[c], stamp, c) by {
        assert(kept_at(e_old, icc_old, v, icc, moved, stamp, c));
    }
    assert(moved.len() == NUM_SIZE_CLASSES && forall|c: int| 0 <= c < NUM_SIZE_CLASSES ==> #[trigger] moved_out(e_old, icc_old, v, icc, moved[c], stamp, c));
}

/// Nothing moved: every class is kept as it is.
proof fn lemma_nothing_moved(v: Seq<ThreadLocalEngine>, icc: InterConnectCache, stamp: u32) -> (moved: Seq<Seq<OxHeader>>)
    ensures
        moved.len() == NUM_SIZE_CLASSES,
        forall|c: int| 0 <= c < NUM_SIZE_CLASSES ==> #[trigger] kept_at(v, icc, v, icc, moved, stamp, c),
{
    broadcast use vstd::multiset::group_multiset_axioms;
    let moved = Seq::new(NUM_SIZE_CLASSES as nat, |i: int| Seq::<OxHeader>::empty());
    assert forall|c: int| 0 <= c < NUM_SIZE_CLASSES implies #[trigger] kept_at(v, icc, v, icc, moved, stamp, c) by {
        lemma_no_blocks(moved[c]);
        assert(restamped(moved[c], stamp) =~= Seq::<OxHeader>::empty());
        lemma_no_blocks(restamped(moved[c], stamp));
    }
    moved
}

/// Pushing one restamped block on the shared cache adds it to its class
/// and leaves the other classes as they were.
proof fn lemma_push_fresh(ic0: &InterConnectCache, ic1: &InterConnectCache, class: int, fresh: OxHeader, ov: Seq<OxHeader>)
    requires
        ic0.wf(),
        ic0.ready(),
        0 <= class < NUM_SIZE_CLASSES,
        ov == seq![fresh],
        exists|cpu: int| 0 <= cpu < ic0.ncpu && #[trigger] InterConnectCache::push_effect(ic0, ic1, class, cpu, ov, false, false),
    ensures
        ic1.class_blocks(class) =~= ic0.class_blocks(class).insert(fresh),
        forall|c: int| 0 <= c < NUM_SIZE_CLASSES && c != class ==> #[trigger] ic1.class_blocks(c) == ic0.class_blocks(c),
{
    broadcast use vstd::multiset::group_multiset_axioms;
    let cpu = choose|cpu: int| 0 <= cpu < ic0.ncpu && #[trigger] InterConnectCache::push_effect(ic0, ic1, class, cpu, ov, false, false);
    lemma_push_blocks(ic0, ic1, class, cpu, ov, false, false);
    lemma_cons(fresh, Seq::<OxHeader>::empty());
    assert(ov =~= seq![fresh] + Seq::<OxHeader>::empty());
    lemma_no_blocks(Seq::<OxHeader>::empty());
    assert forall|c: int| 0 <= c < NUM_SIZE_CLASSES && c != class implies #[trigger] ic1.class_blocks(c) == ic0.class_blocks(c) by {
        InterConnectCache::lemma_push_frame(ic0, ic1, class, cpu, ov, false, false, c);
        lemma_class_same_blocks(ic0, ic1, c);
    }
}

/// The per-thread trimmer.
pub struct PTrim;

/// The shared cache after a push of one header of `class`.
pub proof fn lemma_push_one(a: &InterConnectCache, b: &InterConnectCache, class: int, h: OxHeader, v: Seq<OxHeader>)
    requires
        a.wf(),
        a.ready(),
        0 <= class < NUM_SIZE_CLASSES,
        v == seq![h],
        exists|cpu: int| 0 <= cpu < a.ncpu && #[trigger] InterConnectCache::push_effect(a, b, class, cpu, v, false, false),
    ensures
        steps_ok(a, b, class),
        a.classes_ok() && h.class == class ==> b.classes_ok(),
{
    lemma_push_step(a, b, class, v, false, false);
}

/// `h` has been idle for longer than `timing` at `stamp`.
pub open spec fn older_than(h: OxHeader, stamp: u32, timing: u64) -> bool {
    (if stamp >= h.life_time { stamp - h.life_time } else { 0 }) > timing
}

/// The top block of `class` in the cache of engine `e` of `v` is free and
/// idle for longer than `timing`.
pub open spec fn trims_top(v: Seq<ThreadLocalEngine>, e: int, class: int, stamp: u32, timing: u64, in_use_magic: u8) -> bool {
    &&& v[e].bin(class).len() > 0
    &&& v[e].bin(class)[0].magic != in_use_magic
    &&& older_than(v[e].bin(class)[0], stamp, timing)
}

/// What a round of the per-thread trimmer over the engines `v` released:
/// blocks idle for longer than `timing`, of classes from 4096 bytes up,
/// `freed` being their payload bytes (saturated) where all caches hold
/// blocks of their classes (`engines_ok`, `icc_ok`); when `pad` is zero or
/// more than `freed`, the
/// top block of every such class of every engine, where it is free and
/// idle that long, is among them.
pub open spec fn ptrim_outcome(v: Seq<ThreadLocalEngine>, released: Seq<OxHeader>, stamp: u32, timing: u64, in_use_magic: u8, pad: u64, engines_ok: bool, icc_ok: bool, freed: u64) -> bool {
    &&& forall|i: int| 0 <= i < released.len() ==> older_than(#[trigger] released[i], stamp, timing)
    &&& engines_ok && icc_ok ==> forall|i: int| 0 <= i < released.len() ==> 8 <= #[trigger] released[i].class < NUM_SIZE_CLASSES
    &&& engines_ok && icc_ok ==> freed == saturated(payload_bytes(released))
    &&& (pad == 0 || freed < pad) ==> forall|e: int, c: int| 0 <= e < v.len() && 8 <= c < NUM_SIZE_CLASSES
        && #[trigger] trims_top(v, e, c, stamp, timing, in_use_magic) ==> released.contains(v[e].bin(c)[0])
}

impl PTrim {
    /// Pops the top block of `class` from `engine`. A block marked in use is
    /// dropped from the stack and not returned.
    pub fn pop_from_thread(&self, engine: &mut ThreadLocalEngine, class: usize, in_use_magic: u8) -> (r: Option<OxHeader>)
        requires
            old(engine).wf(),
            class < NUM_SIZE_CLASSES,
        ensures
            ThreadLocalEngine::only_bin_changed(old(engine), final(engine), class as int),
            old(engine).bin(class as int).len() == 0 ==> r is None && final(engine).bin(class as int) == old(engine).bin(class as int),
            old(engine).bin(class as int).len() > 0 ==> {
                &&& final(engine).bin(class as int) == old(engine).bin(class as int).drop_first()
                &&& r == if old(engine).bin(class as int)[0].magic == in_use_magic {
                    None
                } else {
                    Some(old(engine).bin(class as int)[0])
                }
            },
    {
        match engine.pop_from_thread(class) {
            None => None,
            Some(h) => {
                if h.magic == in_use_magic {
                    None
                } else {
                    Some(h)
                }
            },
        }
    }

    /// One round of the per-thread trimmer over the caches of all threads,
    /// returning 1 and the bytes released when at least `pad` bytes were
    /// released (0 and the bytes otherwise; nothing at shutdown or without
    /// threads). For the classes under 4096 bytes, blocks popped from a
    /// thread idle for more than half the average idle time go to the shared
    /// cache, restamped; for the others, blocks idle for longer than the
    /// average have their pages given back (while fewer than `pad` bytes were
    /// released, or under more than 85 percent memory pressure) and go to the
    /// shared cache, and those idle for more than half of it go there too; every
    /// block that goes to the shared cache is restamped. Younger blocks go back
    /// on top of their thread's stack. The average idle time is then learnt
    /// anew, between 100 and 10000. When no cached block is marked in use, no
    /// block is lost or made up: what left the threads' caches of a class is
    /// what the shared cache gained, restamped.
    #[verifier::loop_isolation(false)]
    pub fn trim<K: Kernel>(
        &self,
        state: &mut TrimState,
        engines: &mut Vec<ThreadLocalEngine>,
        icc: &mut InterConnectCache,
        os: &mut K,
        pad: u64,
        shutdown: bool,
        in_use_magic: u8,
    ) -> (r: (i32, u64))
        requires
            engines_ok(old(engines)@),
            old(icc).wf(),
            old(icc).ready(),
        ensures
            engines_ok(final(engines)@),
            final(engines)@.len() == old(engines)@.len(),
            final(icc).wf(),
            final(icc).ready(),
            engines_classes_ok(old(engines)@) && old(icc).classes_ok() ==> engines_classes_ok(final(engines)@) && final(icc).classes_ok(),
            shutdown || old(engines)@.len() == 0 ==> {
                &&& r == (0i32, 0u64)
                &&& final(engines)@ == old(engines)@
                &&& *final(icc) == *old(icc)
                &&& *final(state) == *old(state)
            },
            !shutdown && old(engines)@.len() > 0 ==> (r.0 == 1 <==> r.1 >= pad) && (r.0 == 0 || r.0 == 1),
            final(state).current_stamp == old(state).current_stamp,
            !shutdown && old(engines)@.len() > 0 ==> exists|released: Seq<OxHeader>| #[trigger] ptrim_outcome(old(engines)@, released,
                old(state).current_stamp, old(state).average_block_times_pthread as u64, in_use_magic, pad,
                engines_classes_ok(old(engines)@), old(icc).classes_ok(), r.1),
            no_block_in_use(old(engines)@, in_use_magic) ==> exists|ms: Seq<Seq<OxHeader>>| ms.len() == NUM_SIZE_CLASSES
                && forall|c: int| 0 <= c < NUM_SIZE_CLASSES
                    ==> #[trigger] moved_out(old(engines)@, *old(icc), final(engines)@, *final(icc), ms[c], old(state).current_stamp, c),
    {
        if shutdown || engines.len() == 0 {
            proof {
                let m = lemma_nothing_moved(engines@, *icc, state.current_stamp);
                lemma_kept_final(engines@, *icc, engines@, *icc, m, state.current_stamp);
            }
            return (0, 0);
        }
        let force_trim = state.last_pressure_check > 85;
        let mut avg: u64 = 0;
        let mut total: u64 = 0;
        let mut total_freed: u64 = 0;
        let timing = state.average_block_times_pthread as u64;
        let half_timing: u64 = if timing / 2 == 0 { 1 } else { timing / 2 };
        let stamp = state.current_stamp;
        let class_4096 = get_size_4096_class();
        let ghost classes0 = engines_classes_ok(old(engines)@) && old(icc).classes_ok();
        let ghost nb = no_block_in_use(old(engines)@, in_use_magic);
        let ghost mut moved: Seq<Seq<OxHeader>> = Seq::empty();
        let ghost mut rel: Seq<OxHeader> = Seq::empty();
        proof {
            moved = lemma_nothing_moved(old(engines)@, *old(icc), stamp);
        }
        let mut e: usize = 0;
        while e < engines.len()
            invariant
                engines_ok(engines@),
                engines@.len() == old(engines)@.len(),
                icc.wf(),
                icc.ready(),
                classes0 ==> engines_classes_ok(engines@) && icc.classes_ok(),
                class_4096 == 8,
                state.current_stamp == stamp,
                moved.len() == NUM_SIZE_CLASSES,
                nb ==> no_block_in_use(engines@, in_use_magic),
                nb ==> forall|c: int| 0 <= c < NUM_SIZE_CLASSES ==> #[trigger] kept_at(old(engines)@, *old(icc), engines@, *icc, moved, stamp, c),
                timing == old(state).average_block_times_pthread as u64,
                stamp == old(state).current_stamp,
                forall|i: int| 0 <= i < rel.len() ==> older_than(#[trigger] rel[i], stamp, timing),
                classes0 ==> forall|i: int| 0 <= i < rel.len() ==> 8 <= #[trigger] rel[i].class < NUM_SIZE_CLASSES,
                classes0 ==> total_freed == saturated(payload_bytes(rel)),
                forall|t: int| e <= t < engines@.len() ==> #[trigger] engines@[t] == old(engines)@[t],
                (pad == 0 || total_freed < pad) ==> forall|t: int, c: int| 0 <= t < e && 8 <= c < NUM_SIZE_CLASSES
                    && #[trigger] trims_top(old(engines)@, t, c, stamp, timing, in_use_magic) ==> rel.contains(old(engines)@[t].bin(c)[0]),
            decreases engines@.len() - e,
        {
            let mut engine = ThreadLocalEngine::new();
            proof {
                assert(engine.classes_ok());
            }
            let ghost v_before = engines@;
            engines.set_and_swap(e, &mut engine);
            let ghost eng_mid = engines@;
            proof {
                if nb {
                    assert(free_bins(v_before[e as int], in_use_magic));
                    lemma_take_out(old(engines)@, *old(icc), v_before, engines@, *icc, engine, e as int, moved, stamp);
                    assert forall|t: int| 0 <= t < engines@.len() implies free_bins(#[trigger] engines@[t], in_use_magic) by {
                        if t != e {
                            assert(free_bins(v_before[t], in_use_magic));
                        }
                    }
                }
            }
            proof {
                assert forall|t: int| 0 <= t < engines@.len() implies (#[trigger] engines@[t]).wf() by {}
                if classes0 {
                    assert forall|t: int| 0 <= t < engines@.len() implies (#[trigger] engines@[t]).classes_ok() by {}
                }
            }
            let mut class: usize = 0;
            while class < NUM_SIZE_CLASSES
                invariant
                    engine.wf(),
                    icc.wf(),
                    icc.ready(),
                    classes0 ==> engine.classes_ok() && icc.classes_ok(),
                    engines@ == eng_mid,
                    e < engines@.len(),
                    engines_ok(engines@),
                    classes0 ==> engines_classes_ok(engines@),
                    class <= NUM_SIZE_CLASSES,
                    moved.len() == NUM_SIZE_CLASSES,
                    forall|c: int| 0 <= c < NUM_SIZE_CLASSES ==> (#[trigger] eng_mid[e as int].bin(c)).len() == 0,
                    nb ==> free_bins(engine, in_use_magic),
                    nb ==> no_block_in_use(engines@, in_use_magic),
                    nb ==> forall|c: int| 0 <= c < NUM_SIZE_CLASSES ==> #[trigger] conserved_at(old(engines)@, *old(icc), engines@, *icc, engine, class as int, Seq::empty(), moved, stamp, c),
                    forall|i: int| 0 <= i < rel.len() ==> older_than(#[trigger] rel[i], stamp, timing),
                classes0 ==> forall|i: int| 0 <= i < rel.len() ==> 8 <= #[trigger] rel[i].class < NUM_SIZE_CLASSES,
                classes0 ==> total_freed == saturated(payload_bytes(rel)),
                    forall|t: int| e < t < engines@.len() ==> #[trigger] engines@[t] == old(engines)@[t],
                    forall|c: int| class <= c < NUM_SIZE_CLASSES ==> #[trigger] engine.bin(c) == old(engines)@[e as int].bin(c),
                    (pad == 0 || total_freed < pad) ==> forall|t: int, c: int| 0 <= t < e && 8 <= c < NUM_SIZE_CLASSES
                        && #[trigger] trims_top(old(engines)@, t, c, stamp, timing, in_use_magic) ==> rel.contains(old(engines)@[t].bin(c)[0]),
                    (pad == 0 || total_freed < pad) ==> forall|c: int| 8 <= c < class
                        && #[trigger] trims_top(old(engines)@, e as int, c, stamp, timing, in_use_magic) ==> rel.contains(old(engines)@[e as int].bin(c)[0]),
                decreases NUM_SIZE_CLASSES - class,
            {
                if total_freed >= pad && pad != 0 {
                    let ghost w = engines@;
                    let ghost eng_now = engine;
                    engines.set_and_swap(e, &mut engine);
                    proof {
                        if nb {
                            lemma_put_back(old(engines)@, *old(icc), w, *icc, eng_now, e as int, class as int, Seq::empty(), moved, stamp);
                            lemma_kept_final(old(engines)@, *old(icc), engines@, *icc, moved, stamp);
                        }
                        assert forall|t: int| 0 <= t < engines@.len() implies (#[trigger] engines@[t]).wf() by {}
                    }
                    let res = (1i32, total_freed);
                    proof {
                        assert(ptrim_outcome(old(engines)@, rel, old(state).current_stamp, old(state).average_block_times_pthread as u64,
                            in_use_magic, pad, engines_classes_ok(old(engines)@), old(icc).classes_ok(), res.1));
                    }
                    return res;
                }
                proof {
                    assert(engine.tls@[class as int].wf());
                }
                let usage = engine.tls[class].usage;
                let ghost len0 = engine.bin(class as int).len();
                let ghost bin0 = engine.bin(class as int);
                let ghost top_due = class >= 8 && trims_top(old(engines)@, e as int, class as int, stamp, timing, in_use_magic);
                let rounds = if class < class_4096 { usage / 2 } else { usage };
                let mut to_trim: Vec<OxHeader> = Vec::new();
                let mut k: usize = 0;
                while k < rounds
                    invariant
                        engine.wf(),
                        icc.wf(),
                        icc.ready(),
                        classes0 ==> engine.classes_ok() && icc.classes_ok(),
                        engines@ == eng_mid,
                        e < engines@.len(),
                        engines_ok(engines@),
                        classes0 ==> engines_classes_ok(engines@),
                        classes0 ==> all_class(to_trim@, class as int),
                        class < NUM_SIZE_CLASSES,
                        engine.bin(class as int).len() <= len0,
                        len0 == usage,
                        moved.len() == NUM_SIZE_CLASSES,
                        nb ==> free_bins(engine, in_use_magic),
                        nb ==> forall|c: int| 0 <= c < NUM_SIZE_CLASSES ==> #[trigger] conserved_at(old(engines)@, *old(icc), engines@, *icc, engine, class as int, to_trim@, moved, stamp, c),
                        forall|c: int| class < c < NUM_SIZE_CLASSES ==> #[trigger] engine.bin(c) == old(engines)@[e as int].bin(c),
                        k == 0 ==> engine.bin(class as int) == bin0,
                        bin0 == old(engines)@[e as int].bin(class as int),
                        forall|i: int| 0 <= i < to_trim@.len() ==> older_than(#[trigger] to_trim@[i], stamp, timing),
                        top_due && k >= 1 ==> to_trim@.contains(bin0[0]),
                        to_trim@.len() > 0 ==> class >= 8,
                    decreases rounds - k,
                {
                    k = k + 1;
                    let ghost e0 = engine;
                    let ghost tt0 = to_trim@;
                    let popped = self.pop_from_thread(&mut engine, class, in_use_magic);
                    proof {
                        if nb && e0.bin(class as int).len() > 0 {
                            assert(e0.bin(class as int)[0].magic != in_use_magic);
                        }
                    }
                    let cache = match popped {
                        None => {
                            proof {
                                if nb {
                                    lemma_step(old(engines)@, *old(icc), engines@, *icc, *icc, e0, engine, class as int, tt0, tt0, moved, moved, stamp);
                                }
                            }
                            break;
                        },
                        Some(h) => h,
                    };
                    proof {
                        assert(e0.bin(class as int) =~= seq![cache] + engine.bin(class as int));
                        lemma_cons(cache, engine.bin(class as int));
                        if nb {
                            assert forall|c: int, i: int| 0 <= c < NUM_SIZE_CLASSES && 0 <= i < engine.bin(c).len()
                                implies #[trigger] engine.bin(c)[i].magic != in_use_magic by {
                                if c == class {
                                    assert(engine.bin(c)[i] == e0.bin(c)[i + 1]);
                                } else {
                                    assert(engine.bin(c) == e0.bin(c));
                                }
                            }
                        }
                        if classes0 {
                            assert(all_class(e0.bin(class as int), class as int));
                            assert(cache == e0.bin(class as int)[0]);
                        }
                    }
                    let life_time = (stamp as u64).saturating_sub(cache.life_time as u64);
                    proof {
                        assert(cache == e0.bin(class as int)[0]);
                        assert(life_time > timing <==> older_than(cache, stamp, timing));
                        if top_due && k == 1 {
                            assert(e0.bin(class as int) == bin0);
                            assert(life_time > timing);
                        }
                    }
                    if class >= class_4096 && life_time != 0 {
                        avg = avg.saturating_add(life_time);
                        total = total.saturating_add(1);
                    }
                    if class >= class_4096 && life_time > timing {
                        to_trim.insert(0, cache);
                        proof {
                            assert(to_trim@[0] == cache);
                            if top_due && k >= 2 {
                                let j = choose|j: int| 0 <= j < tt0.len() && tt0[j] == bin0[0];
                                assert(to_trim@[j + 1] == bin0[0]);
                            }
                            assert forall|i: int| 0 <= i < to_trim@.len() implies older_than(#[trigger] to_trim@[i], stamp, timing) by {
                                if i > 0 {
                                    assert(to_trim@[i] == tt0[i - 1]);
                                }
                            }
                            if nb {
                                broadcast use vstd::multiset::group_multiset_axioms;
                                broadcast use vstd::seq_lib::to_multiset_insert;
                                assert(to_trim@.to_multiset() == tt0.to_multiset().insert(cache));
                                lemma_step(old(engines)@, *old(icc), engines@, *icc, *icc, e0, engine, class as int, tt0, to_trim@, moved, moved, stamp);
                            }
                        }
                        continue;
                    }
                    if life_time > half_timing {
                        let fresh = OxHeader { life_time: stamp, ..cache };
                        let mut one: Vec<OxHeader> = Vec::new();
                        one.push(fresh);
                        let ghost ov = one@;
                        let ghost ic0 = *icc;
                        GlobalHandler.push_to_global(icc, class, one, false, false);
                        proof {
                            lemma_push_one(&ic0, icc, class as int, fresh, ov);
                            if nb {
                                broadcast use vstd::multiset::group_multiset_axioms;
                                broadcast use vstd::seq_lib::to_multiset_build;
                                lemma_push_fresh(&ic0, icc, class as int, fresh, ov);
                                let m0 = moved;
                                moved = moved.update(class as int, moved[class as int].push(cache));
                                lemma_restamp_push(m0[class as int], cache, stamp);
                                lemma_step(old(engines)@, *old(icc), engines@, ic0, *icc, e0, engine, class as int, tt0, tt0, m0, moved, stamp);
                            }
                        }
                        continue;
                    }
                    let ghost e1 = engine;
                    engine.push_to_thread(class, cache);
                    proof {
                        assert(engine.bin(class as int) =~= e0.bin(class as int));
                        if nb {
                            lemma_step(old(engines)@, *old(icc), engines@, *icc, *icc, e0, engine, class as int, tt0, tt0, moved, moved, stamp);
                            assert forall|c: int, i: int| 0 <= c < NUM_SIZE_CLASSES && 0 <= i < engine.bin(c).len()
                                implies #[trigger] engine.bin(c)[i].magic != in_use_magic by {
                                if c != class {
                                    assert(engine.bin(c) == e0.bin(c));
                                }
                            }
                        }
                    }
                }
                while to_trim.len() > 0
                    invariant
                        engine.wf(),
                        icc.wf(),
                        icc.ready(),
                        classes0 ==> engine.classes_ok() && icc.classes_ok(),
                        engines@ == eng_mid,
                        e < engines@.len(),
                        engines_ok(engines@),
                        classes0 ==> engines_classes_ok(engines@),
                        classes0 ==> all_class(to_trim@, class as int),
                        class < NUM_SIZE_CLASSES,
                        moved.len() == NUM_SIZE_CLASSES,
                        nb ==> free_bins(engine, in_use_magic),
                        nb ==> forall|c: int| 0 <= c < NUM_SIZE_CLASSES ==> #[trigger] conserved_at(old(engines)@, *old(icc), engines@, *icc, engine, class as int, to_trim@, moved, stamp, c),
                        forall|i: int| 0 <= i < rel.len() ==> older_than(#[trigger] rel[i], stamp, timing),
                        classes0 ==> forall|i: int| 0 <= i < rel.len() ==> 8 <= #[trigger] rel[i].class < NUM_SIZE_CLASSES,
                        classes0 ==> total_freed == saturated(payload_bytes(rel)),
                        forall|i: int| 0 <= i < to_trim@.len() ==> older_than(#[trigger] to_trim@[i], stamp, timing),
                        top_due && (pad == 0 || total_freed < pad) ==> to_trim@.contains(bin0[0]) || rel.contains(bin0[0]),
                        to_trim@.len() > 0 ==> class >= 8,
                        (pad == 0 || total_freed < pad) ==> forall|t: int, c: int| 0 <= t < e && 8 <= c < NUM_SIZE_CLASSES
                            && #[trigger] trims_top(old(engines)@, t, c, stamp, timing, in_use_magic) ==> rel.contains(old(engines)@[t].bin(c)[0]),
                        (pad == 0 || total_freed < pad) ==> forall|c: int| 8 <= c < class
                            && #[trigger] trims_top(old(engines)@, e as int, c, stamp, timing, in_use_magic) ==> rel.contains(old(engines)@[e as int].bin(c)[0]),
                    decreases to_trim@.len(),
                {
                    let ghost tt0 = to_trim@;
                    let block = to_trim.remove(0);
                    proof {
                        assert(tt0 =~= seq![block] + to_trim@);
                        lemma_cons(block, to_trim@);
                    }
                    proof {
                        assert(older_than(tt0[0], stamp, timing));
                        if classes0 {
                            assert(tt0[0].class == class);
                        }
                    }
                    if (total_freed <= pad || pad == 0) || force_trim {
                        let size = SIZE_CLASSES[class] as u64;
                        if block.addr <= u64::MAX - (HEADER_SIZE as u64 + size + PAGE_SIZE) {
                            if let Some((start, len)) = release_range(block.addr, size) {
                                os.advise(start, len, Advice(MADV_DONTNEED));
                            }
                        }
                        total_freed = total_freed.saturating_add(size);
                        proof {
                            assert(rel.push(block).drop_last() =~= rel);
                            let r0 = rel;
                            rel = rel.push(block);
                            assert forall|x: OxHeader| r0.contains(x) implies rel.contains(x) by {
                                let j = choose|j: int| 0 <= j < r0.len() && r0[j] == x;
                                assert(rel[j] == x);
                            }
                            assert(rel[rel.len() - 1] == block);
                        }
                    }
                    proof {
                        if top_due && (pad == 0 || total_freed < pad) && !rel.contains(bin0[0]) {
                            assert(tt0.contains(bin0[0]));
                            let j = choose|j: int| 0 <= j < tt0.len() && tt0[j] == bin0[0];
                            if j == 0 {
                                assert(rel[rel.len() - 1] == bin0[0]);
                            } else {
                                assert(to_trim@[j - 1] == bin0[0]);
                            }
                        }
                    }
                    let fresh = OxHeader { life_time: stamp, ..block };
                    let mut one: Vec<OxHeader> = Vec::new();
                    one.push(fresh);
                    let ghost ov = one@;
                    let ghost ic0 = *icc;
                    GlobalHandler.push_to_global(icc, class, one, false, false);
                    proof {
                        lemma_push_one(&ic0, icc, class as int, fresh, ov);
                        if nb {
                            broadcast use vstd::multiset::group_multiset_axioms;
                            lemma_push_fresh(&ic0, icc, class as int, fresh, ov);
                            let m0 = moved;
                            moved = moved.update(class as int, moved[class as int].push(block));
                            lemma_restamp_push(m0[class as int], block, stamp);
                            broadcast use vstd::seq_lib::to_multiset_build;
                            lemma_step(old(engines)@, *old(icc), engines@, ic0, *icc, engine, engine, class as int, tt0, to_trim@, m0, moved, stamp);
                        }
                    }
                }
                proof {
                    if nb {
                        assert(to_trim@ =~= Seq::<OxHeader>::empty());
                        lemma_any_class(old(engines)@, *old(icc), engines@, *icc, engine, class as int, class as int + 1, Seq::empty(), moved, stamp);
                    }
                }
                class = class + 1;
            }
            let ghost w = engines@;
            let ghost eng_now = engine;
            engines.set_and_swap(e, &mut engine);
            proof {
                if nb {
                    lemma_put_back(old(engines)@, *old(icc), w, *icc, eng_now, e as int, NUM_SIZE_CLASSES as int, Seq::empty(), moved, stamp);
                    assert forall|t: int| 0 <= t < engines@.len() implies free_bins(#[trigger] engines@[t], in_use_magic) by {
                        if t != e {
                            assert(free_bins(w[t], in_use_magic));
                        }
                    }
                }
            }
            e = e + 1;
        }
        proof {
            if nb {
                lemma_kept_final(old(engines)@, *old(icc), engines@, *icc, moved, stamp);
            }
        }
        if total > 0 {
            let mean = avg / total;
            let clamped = if mean < 100 { 100 } else if mean > 10000 { 10000 } else { mean };
            state.average_block_times_pthread = clamped as usize;
            state.ptrim_decay = TimeDecay::decide_on(clamped as usize).to_u8();
        }
        let res = if total_freed >= pad {
            (1i32, total_freed)
        } else {
            (0i32, total_freed)
        };
        proof {
            assert(ptrim_outcome(old(engines)@, rel, old(state).current_stamp, old(state).average_block_times_pthread as u64,
                in_use_magic, pad, engines_classes_ok(old(engines)@), old(icc).classes_ok(), res.1));
        }
        res
    }
}

} // verus!
