//! The blocks that the shared cache holds, counted per size class: pushes
//! add exactly the pushed blocks, pops remove exactly the popped ones.
use crate::slab::interconnect::{slot, InterConnectCache};
use crate::slab::NUM_SIZE_CLASSES;
use crate::OxHeader;
use vstd::multiset::Multiset;
use vstd::prelude::*;

verus! {

impl InterConnectCache {
    /// The blocks held in slot `i`, in its three stacks.
    pub open spec fn slot_blocks(&self, i: int) -> Multiset<OxHeader> {
        (self.main_of(i) + self.pushed_of(i) + self.trimmed_of(i)).to_multiset()
    }

    /// The blocks of `class` held on the first `n` CPUs.
    pub open spec fn class_blocks_upto(&self, class: int, n: int) -> Multiset<OxHeader>
        decreases n,
    {
        if n <= 0 {
            Multiset::empty()
        } else {
            self.class_blocks_upto(class, n - 1).add(self.slot_blocks(slot(n - 1, class)))
        }
    }

    /// The blocks of `class` held in the cache.
    pub open spec fn class_blocks(&self, class: int) -> Multiset<OxHeader> {
        self.class_blocks_upto(class, self.ncpu as int)
    }
}

/// Changing one slot of a class changes the class's blocks by that slot's
/// change; the class's blocks stay when no slot of it changed.
pub proof fn lemma_class_blocks_update(a: &InterConnectCache, b: &InterConnectCache, class: int, cpu: int, n: int)
    requires
        0 <= n,
        forall|q: int| 0 <= q < n && q != cpu ==> #[trigger] b.slot_blocks(slot(q, class)) == a.slot_blocks(slot(q, class)),
    ensures
        0 <= cpu < n ==> b.class_blocks_upto(class, n).add(a.slot_blocks(slot(cpu, class)))
            =~= a.class_blocks_upto(class, n).add(b.slot_blocks(slot(cpu, class))),
        !(0 <= cpu < n) ==> b.class_blocks_upto(class, n) =~= a.class_blocks_upto(class, n),
    decreases n,
{
    broadcast use vstd::multiset::group_multiset_axioms;
    if n > 0 {
        lemma_class_blocks_update(a, b, class, cpu, n - 1);
        let bp = b.class_blocks_upto(class, n - 1);
        let ap = a.class_blocks_upto(class, n - 1);
        let bl = b.slot_blocks(slot(n - 1, class));
        let al = a.slot_blocks(slot(n - 1, class));
        let bc = b.slot_blocks(slot(cpu, class));
        let ac = a.slot_blocks(slot(cpu, class));
        assert(b.class_blocks_upto(class, n) == bp.add(bl));
        assert(a.class_blocks_upto(class, n) == ap.add(al));
        if n - 1 != cpu {
            assert(bl == al);
        }
        if 0 <= cpu < n - 1 {
            assert forall|v: OxHeader| #[trigger] bp.add(bl).add(ac).count(v) == ap.add(al).add(bc).count(v) by {
                assert(bp.add(ac).count(v) == ap.add(bc).count(v));
            }
        } else if cpu == n - 1 {
            assert forall|v: OxHeader| #[trigger] bp.add(bl).add(ac).count(v) == ap.add(al).add(bc).count(v) by {
                assert(bp.count(v) == ap.count(v));
            }
        } else {
            assert forall|v: OxHeader| #[trigger] bp.add(bl).count(v) == ap.add(al).count(v) by {
                assert(bp.count(v) == ap.count(v));
            }
        }
    }
}

/// The blocks of slot `i` after `batch` was put on top of one of its stacks.
proof fn lemma_slot_grows(a: &InterConnectCache, b: &InterConnectCache, i: int, batch: Seq<OxHeader>)
    requires
        (b.main_of(i) == batch + a.main_of(i) && b.pushed_of(i) == a.pushed_of(i) && b.trimmed_of(i) == a.trimmed_of(i))
        || (b.main_of(i) == a.main_of(i) && b.pushed_of(i) == batch + a.pushed_of(i) && b.trimmed_of(i) == a.trimmed_of(i))
        || (b.main_of(i) == a.main_of(i) && b.pushed_of(i) == a.pushed_of(i) && b.trimmed_of(i) == batch + a.trimmed_of(i)),
    ensures
        b.slot_blocks(i) =~= a.slot_blocks(i).add(batch.to_multiset()),
{
    broadcast use vstd::multiset::group_multiset_axioms;
    broadcast use vstd::seq_lib::lemma_multiset_commutative;
    let (m, p, t) = (a.main_of(i), a.pushed_of(i), a.trimmed_of(i));
    assert((batch + m) + p =~= batch + (m + p));
    assert(m + (batch + p) =~= (m + batch) + p);
    assert((m + p) + (batch + t) =~= ((m + p) + batch) + t);
    assert(((m + batch) + p).to_multiset() =~= (m + batch).to_multiset().add(p.to_multiset()));
    assert(((m + p) + batch).to_multiset() =~= (m + p).to_multiset().add(batch.to_multiset()));
}

/// The blocks of slot `i` after `v` was taken from the top of one of its stacks.
proof fn lemma_slot_shrinks(a: &InterConnectCache, b: &InterConnectCache, i: int, l: Seq<OxHeader>, k: int, src: int)
    requires
        0 <= k <= l.len(),
        0 <= src <= 2,
        l == a.source_list(i, src),
        b.main_of(i) == if src == 0 { l.skip(k) } else { a.main_of(i) },
        b.pushed_of(i) == if src == 1 { l.skip(k) } else { a.pushed_of(i) },
        b.trimmed_of(i) == if src == 2 { l.skip(k) } else { a.trimmed_of(i) },
    ensures
        a.slot_blocks(i) =~= b.slot_blocks(i).add(l.take(k).to_multiset()),
{
    assert(l =~= l.take(k) + l.skip(k));
    let v = l.take(k);
    if src == 0 {
        lemma_slot_grows(b, a, i, v);
    } else if src == 1 {
        lemma_slot_grows(b, a, i, v);
    } else {
        lemma_slot_grows(b, a, i, v);
    }
}

/// Equal slots give equal blocks, CPU by CPU.
proof fn lemma_class_blocks_same(a: &InterConnectCache, b: &InterConnectCache, class: int, n: int)
    requires
        0 <= n,
        forall|q: int| 0 <= q < n ==> #[trigger] b.slot_blocks(slot(q, class)) == a.slot_blocks(slot(q, class)),
    ensures
        b.class_blocks_upto(class, n) == a.class_blocks_upto(class, n),
    decreases n,
{
    if n > 0 {
        lemma_class_blocks_same(a, b, class, n - 1);
        assert(b.slot_blocks(slot(n - 1, class)) == a.slot_blocks(slot(n - 1, class)));
    }
}

/// A class whose stacks are the same on every CPU holds the same blocks.
pub proof fn lemma_class_same_blocks(a: &InterConnectCache, b: &InterConnectCache, class: int)
    requires
        a.ncpu == b.ncpu,
        InterConnectCache::class_same(a, b, class),
    ensures
        b.class_blocks(class) == a.class_blocks(class),
{
    assert forall|q: int| 0 <= q < a.ncpu implies #[trigger] b.slot_blocks(slot(q, class)) == a.slot_blocks(slot(q, class)) by {
        assert(b.main_of(slot(q, class)) == a.main_of(slot(q, class)));
        assert(b.pushed_of(slot(q, class)) == a.pushed_of(slot(q, class)));
        assert(b.trimmed_of(slot(q, class)) == a.trimmed_of(slot(q, class)));
    }
    lemma_class_blocks_same(a, b, class, a.ncpu as int);
}

/// The slot of a class on a CPU is a slot of the cache.
proof fn lemma_slot_range(a: &InterConnectCache, q: int, class: int)
    requires
        a.wf(),
        a.ready(),
        0 <= class < NUM_SIZE_CLASSES,
        0 <= q < a.ncpu,
    ensures
        0 <= slot(q, class) < a.cache.list@.len(),
        0 <= slot(q, class) < a.cache.pushed@.len(),
        0 <= slot(q, class) < a.cache.trimmed@.len(),
{
    let n = a.ncpu as int;
    assert(0 <= q * 18 + class < n * 18) by (nonlinear_arith)
        requires
            0 <= q < n,
            0 <= class < 18,
    ;
}

/// The slots of one class on other CPUs are other slots of the cache.
proof fn lemma_other_slot(a: &InterConnectCache, q: int, cpu: int, class: int)
    requires
        a.wf(),
        a.ready(),
        0 <= class < NUM_SIZE_CLASSES,
        0 <= q < a.ncpu,
        0 <= cpu < a.ncpu,
        q != cpu,
    ensures
        0 <= slot(q, class) < a.cache.list@.len(),
        0 <= slot(q, class) < a.cache.pushed@.len(),
        0 <= slot(q, class) < a.cache.trimmed@.len(),
        slot(q, class) != slot(cpu, class),
{
    let n = a.ncpu as int;
    assert(0 <= q * 18 + class < n * 18 && 0 <= cpu * 18 + class < n * 18) by (nonlinear_arith)
        requires
            0 <= q < n,
            0 <= cpu < n,
            0 <= class < 18,
    ;
    assert(q * 18 + class != cpu * 18 + class) by (nonlinear_arith)
        requires
            q != cpu,
    ;
}

/// A push adds exactly the pushed blocks to their class.
pub proof fn lemma_push_blocks(
    a: &InterConnectCache,
    b: &InterConnectCache,
    class: int,
    cpu: int,
    batch: Seq<OxHeader>,
    need: bool,
    trimmed: bool,
)
    requires
        a.wf(),
        a.ready(),
        0 <= class < NUM_SIZE_CLASSES,
        0 <= cpu < a.ncpu,
        InterConnectCache::push_effect(a, b, class, cpu, batch, need, trimmed),
    ensures
        b.class_blocks(class) =~= a.class_blocks(class).add(batch.to_multiset()),
{
    broadcast use vstd::multiset::group_multiset_axioms;
    let i = slot(cpu, class);
    assert forall|q: int| 0 <= q < a.ncpu && q != cpu implies #[trigger] b.slot_blocks(slot(q, class)) == a.slot_blocks(slot(q, class)) by {
        lemma_other_slot(a, q, cpu, class);
        assert(b.main_of(slot(q, class)) == a.main_of(slot(q, class)));
        assert(b.pushed_of(slot(q, class)) == a.pushed_of(slot(q, class)));
        assert(b.trimmed_of(slot(q, class)) == a.trimmed_of(slot(q, class)));
    }
    lemma_slot_grows(a, b, i, batch);
    lemma_class_blocks_update(a, b, class, cpu, a.ncpu as int);
    let bc = b.class_blocks(class);
    let ac = a.class_blocks(class);
    assert forall|v: OxHeader| #[trigger] bc.count(v) == ac.add(batch.to_multiset()).count(v) by {
        assert(bc.add(a.slot_blocks(i)).count(v) == ac.add(b.slot_blocks(i)).count(v));
        assert(b.slot_blocks(i).count(v) == a.slot_blocks(i).count(v) + batch.to_multiset().count(v));
    }
}

/// A pop from the stacks of `cpu` removes exactly the popped blocks from
/// their class.
pub proof fn lemma_pop_lists_blocks(
    a: &InterConnectCache,
    b: &InterConnectCache,
    class: int,
    batch: int,
    cpu: int,
    need: bool,
    r: Option<Vec<OxHeader>>,
)
    requires
        a.wf(),
        a.ready(),
        InterConnectCache::same_shape(a, b),
        0 <= class < NUM_SIZE_CLASSES,
        0 <= cpu < a.ncpu,
        batch >= 0,
        InterConnectCache::pop_lists_effect(a, b, class, batch, cpu, need, r),
    ensures
        r matches Some(v) ==> a.class_blocks(class) =~= b.class_blocks(class).add(v@.to_multiset()),
        r is None ==> b.class_blocks(class) =~= a.class_blocks(class),
{
    broadcast use vstd::multiset::group_multiset_axioms;
    let i = slot(cpu, class);
    assert forall|q: int| 0 <= q < a.ncpu && q != cpu implies #[trigger] b.slot_blocks(slot(q, class)) == a.slot_blocks(slot(q, class)) by {
        lemma_other_slot(a, q, cpu, class);
        assert(b.main_of(slot(q, class)) == a.main_of(slot(q, class)));
        assert(b.pushed_of(slot(q, class)) == a.pushed_of(slot(q, class)));
        assert(b.trimmed_of(slot(q, class)) == a.trimmed_of(slot(q, class)));
    }
    lemma_class_blocks_update(a, b, class, cpu, a.ncpu as int);
    let s = a.source(class, cpu, need);
    if s < 0 {
        assert(b.slot_blocks(i) == a.slot_blocks(i));
        assert forall|v: OxHeader| #[trigger] b.class_blocks(class).count(v) == a.class_blocks(class).count(v) by {
            assert(b.class_blocks(class).add(a.slot_blocks(i)).count(v) == a.class_blocks(class).add(b.slot_blocks(i)).count(v));
        }
    } else {
        let l = a.source_list(i, s);
        let k = crate::slab::interconnect::taken(l.len() as int, batch);
        assert(l.len() > 0);
        lemma_slot_shrinks(a, b, i, l, k, s);
        let w = l.take(k).to_multiset();
        let bc = b.class_blocks(class);
        let ac = a.class_blocks(class);
        assert forall|x: OxHeader| #[trigger] ac.count(x) == bc.add(w).count(x) by {
            assert(bc.add(a.slot_blocks(i)).count(x) == ac.add(b.slot_blocks(i)).count(x));
            assert(a.slot_blocks(i).count(x) == b.slot_blocks(i).count(x) + w.count(x));
        }
    }
}

/// A search for blocks removes exactly the blocks it returns.
pub proof fn lemma_outcome_blocks(
    a: &InterConnectCache,
    b: &InterConnectCache,
    class: int,
    batch: int,
    need: bool,
    cpu: int,
    r: Option<Vec<OxHeader>>,
)
    requires
        a.wf(),
        a.ready(),
        InterConnectCache::same_shape(a, b),
        0 <= class < NUM_SIZE_CLASSES,
        batch >= 0,
        InterConnectCache::pop_outcome(a, b, class, batch, need, cpu, r),
    ensures
        r matches Some(v) ==> a.class_blocks(class) =~= b.class_blocks(class).add(v@.to_multiset()),
        r is None ==> b.class_blocks(class) =~= a.class_blocks(class),
{
    let vs = a.victims(cpu);
    if r is Some {
        let j = choose|j: int| {
            &&& #[trigger] a.found(vs, j, class, need)
            &&& forall|t: int| 0 <= t < j ==> !#[trigger] a.found(vs, t, class, need)
            &&& InterConnectCache::pop_lists_effect(a, b, class, batch, vs[j] as int, need, r)
        };
        lemma_pop_lists_blocks(a, b, class, batch, vs[j] as int, need, r);
    } else {
        assert forall|q: int| 0 <= q < a.ncpu implies #[trigger] b.slot_blocks(slot(q, class)) == a.slot_blocks(slot(q, class)) by {
            lemma_slot_range(a, q, class);
            assert(b.main_of(slot(q, class)) == a.main_of(slot(q, class)));
            assert(b.pushed_of(slot(q, class)) == a.pushed_of(slot(q, class)));
            assert(b.trimmed_of(slot(q, class)) == a.trimmed_of(slot(q, class)));
        }
        lemma_class_blocks_same(a, b, class, a.ncpu as int);
    }
}


/// The blocks of a stack are its top block and the blocks below it.
pub proof fn lemma_top_and_rest(s: Seq<OxHeader>)
    requires
        s.len() > 0,
    ensures
        s.to_multiset() =~= s.drop_first().to_multiset().insert(s[0]),
{
    broadcast use vstd::multiset::group_multiset_axioms;
    broadcast use vstd::seq_lib::to_multiset_remove;
    broadcast use vstd::seq_lib::to_multiset_contains;
    assert(s.remove(0) =~= s.drop_first());
    assert(s.contains(s[0]));
    assert forall|x: OxHeader| #[trigger] s.to_multiset().count(x) == s.drop_first().to_multiset().insert(s[0]).count(x) by {
        assert(s.remove(0).to_multiset() == s.to_multiset().remove(s[0]));
    }
}

/// No blocks in an empty sequence.
pub proof fn lemma_no_blocks(s: Seq<OxHeader>)
    requires
        s.len() == 0,
    ensures
        s.to_multiset() =~= Multiset::<OxHeader>::empty(),
{
    broadcast use vstd::seq_lib::to_multiset_len;
    broadcast use vstd::multiset::lemma_multiset_empty_len;
    assert(s.to_multiset().len() == 0);
}

} // verus!
