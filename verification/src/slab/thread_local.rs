//! The per-thread cache of free blocks, one stack per size class.
use crate::slab::interconnect::all_class;
use crate::slab::NUM_SIZE_CLASSES;
use crate::{MetaData, OxHeader};
use vstd::prelude::*;

verus! {

/// The free blocks of one size class, top of the stack first, and their count.
pub struct TlsBin {
    pub head: Vec<OxHeader>,
    pub usage: usize,
}

impl TlsBin {
    pub open spec fn wf(&self) -> bool {
        self.usage == self.head@.len()
    }
}

/// A thread's cache: a stack per size class, and per class the slab segment
/// that still has room for blocks not yet carved.
pub struct ThreadLocalEngine {
    pub tls: Vec<TlsBin>,
    pub pending: Vec<Option<MetaData>>,
}

impl ThreadLocalEngine {
    pub open spec fn wf(&self) -> bool {
        &&& self.tls@.len() == NUM_SIZE_CLASSES
        &&& self.pending@.len() == NUM_SIZE_CLASSES
        &&& forall|c: int| 0 <= c < NUM_SIZE_CLASSES ==> #[trigger] self.tls@[c].wf()
    }

    /// Every stack holds headers of its own class only.
    pub open spec fn classes_ok(&self) -> bool {
        forall|c: int| 0 <= c < NUM_SIZE_CLASSES ==> all_class(#[trigger] self.bin(c), c)
    }

    /// The stack of class `c`, top first.
    pub open spec fn bin(&self, c: int) -> Seq<OxHeader> {
        self.tls@[c].head@
    }

    /// `new` is `old` after the top block of `class`, if any, was popped as `r`.
    pub open spec fn after_pop(old: &Self, new: &Self, class: int, r: Option<OxHeader>) -> bool {
        &&& Self::only_bin_changed(old, new, class)
        &&& old.bin(class).len() == 0 ==> r is None && new.bin(class) == old.bin(class)
        &&& old.bin(class).len() > 0 ==> r == Some(old.bin(class)[0]) && new.bin(class) == old.bin(class).drop_first()
    }

    /// `new` is `old` after `head` was pushed on top of the stack of `class`.
    pub open spec fn after_push(old: &Self, new: &Self, class: int, head: OxHeader) -> bool {
        &&& Self::only_bin_changed(old, new, class)
        &&& new.bin(class) == seq![head] + old.bin(class)
    }

    /// `new` is `old` after `batch` was pushed, its first block on top, on the stack of `class`.
    pub open spec fn after_push_batch(old: &Self, new: &Self, class: int, batch: Seq<OxHeader>) -> bool {
        &&& Self::only_bin_changed(old, new, class)
        &&& new.bin(class) == batch + old.bin(class)
    }

    /// `new` is `old` after up to `batch_size` blocks were detached from the
    /// top of the stack of `class` as `r`.
    pub open spec fn after_pop_batch(old: &Self, new: &Self, class: int, batch_size: int, r: Seq<OxHeader>) -> bool {
        let k = if batch_size < old.bin(class).len() { batch_size } else { old.bin(class).len() as int };
        &&& Self::only_bin_changed(old, new, class)
        &&& r == old.bin(class).take(k)
        &&& new.bin(class) == old.bin(class).skip(k)
    }

    /// `new` differs from `old` at most in the stack of `class`.
    pub open spec fn only_bin_changed(old: &Self, new: &Self, class: int) -> bool {
        &&& new.wf()
        &&& new.pending@ == old.pending@
        &&& forall|c: int| 0 <= c < NUM_SIZE_CLASSES && c != class ==> #[trigger] new.bin(c) == old.bin(c)
    }

    /// An empty cache.
    pub fn new() -> (e: Self)
        ensures
            e.wf(),
            forall|c: int| 0 <= c < NUM_SIZE_CLASSES ==> #[trigger] e.bin(c) == Seq::<OxHeader>::empty(),
            forall|c: int| 0 <= c < NUM_SIZE_CLASSES ==> #[trigger] e.pending@[c] is None,
    {
        let mut tls: Vec<TlsBin> = Vec::new();
        let mut pending: Vec<Option<MetaData>> = Vec::new();
        let mut i: usize = 0;
        while i < NUM_SIZE_CLASSES
            invariant
                i <= NUM_SIZE_CLASSES,
                tls@.len() == i,
                pending@.len() == i,
                forall|c: int| #![trigger tls@[c]] 0 <= c < i ==> tls@[c].wf() && tls@[c].head@ == Seq::<OxHeader>::empty(),
                forall|c: int| 0 <= c < i ==> #[trigger] pending@[c] is None,
            decreases NUM_SIZE_CLASSES - i,
        {
            tls.push(TlsBin { head: Vec::new(), usage: 0 });
            pending.push(None);
            i = i + 1;
        }
        ThreadLocalEngine { tls, pending }
    }

    /// Takes the stack of `class` out, leaving an empty one in its place.
    fn take_bin(&mut self, class: usize) -> (b: TlsBin)
        requires
            old(self).wf(),
            class < NUM_SIZE_CLASSES,
        ensures
            b == old(self).tls@[class as int],
            b.wf(),
            forall|c: int| 0 <= c < NUM_SIZE_CLASSES && c != class ==> #[trigger] final(self).tls@[c] == old(self).tls@[c],
            final(self).tls@ == old(self).tls@.update(class as int, TlsBin { head: final(self).tls@[class as int].head, usage: 0 }),
            final(self).tls@[class as int].head@ == Seq::<OxHeader>::empty(),
            final(self).pending@ == old(self).pending@,
    {
        assert(old(self).tls@[class as int].wf());
        let mut b = TlsBin { head: Vec::new(), usage: 0 };
        self.tls.set_and_swap(class, &mut b);
        b
    }

    /// Pops the top block of `class`, if the stack has one.
    pub fn pop_from_thread(&mut self, class: usize) -> (r: Option<OxHeader>)
        requires
            old(self).wf(),
            class < NUM_SIZE_CLASSES,
        ensures
            Self::after_pop(old(self), final(self), class as int, r),
    {
        assert(self.tls@[class as int].wf());
        if self.tls[class].usage == 0 {
            return None;
        }
        let mut b = self.take_bin(class);
        let h = b.head.remove(0);
        b.usage = b.usage - 1;
        self.tls.set(class, b);
        Some(h)
    }

    /// Pushes one block on top of the stack of `class`.
    pub fn push_to_thread(&mut self, class: usize, head: OxHeader)
        requires
            old(self).wf(),
            class < NUM_SIZE_CLASSES,
            old(self).bin(class as int).len() < usize::MAX,
        ensures
            Self::after_push(old(self), final(self), class as int, head),
    {
        let mut b = self.take_bin(class);
        b.head.insert(0, head);
        b.usage = b.usage + 1;
        self.tls.set(class, b);
        assert(self.bin(class as int) =~= seq![head] + old(self).bin(class as int));
    }

    /// Pushes a whole list, its first block ending on top, above the stack of `class`.
    pub fn push_to_thread_tailed(&mut self, class: usize, batch: Vec<OxHeader>)
        requires
            old(self).wf(),
            class < NUM_SIZE_CLASSES,
            old(self).bin(class as int).len() + batch@.len() <= usize::MAX,
        ensures
            Self::after_push_batch(old(self), final(self), class as int, batch@),
    {
        let mut b = self.take_bin(class);
        let n = batch.len();
        let mut list = batch;
        list.append(&mut b.head);
        b.head = list;
        b.usage = b.usage + n;
        self.tls.set(class, b);
    }

    /// Detaches up to `batch_size` blocks from the top of the stack of `class`.
    pub fn pop_batch(&mut self, class: usize, batch_size: usize) -> (r: Vec<OxHeader>)
        requires
            old(self).wf(),
            class < NUM_SIZE_CLASSES,
            batch_size > 0,
        ensures
            Self::after_pop_batch(old(self), final(self), class as int, batch_size as int, r@),
    {
        assert(self.tls@[class as int].wf());
        if self.tls[class].usage == 0 {
            let ghost e = old(self).bin(class as int);
            assert(e.take(0) =~= Seq::<OxHeader>::empty());
            assert(e.skip(0) =~= e);
            return Vec::new();
        }
        let mut b = self.take_bin(class);
        let k = if batch_size < b.usage { batch_size } else { b.usage };
        let mut taken = b.head;
        let rest = taken.split_off(k);
        self.tls.set(class, TlsBin { head: rest, usage: b.usage - k });
        taken
    }
}


/// A thread cache is last in, first out: a pop right after a push gives the
/// pushed block back and leaves every stack as it was.
pub proof fn law_push_then_pop(
    e0: &ThreadLocalEngine,
    e1: &ThreadLocalEngine,
    e2: &ThreadLocalEngine,
    class: int,
    head: OxHeader,
    r: Option<OxHeader>,
)
    requires
        e0.wf(),
        0 <= class < NUM_SIZE_CLASSES,
        ThreadLocalEngine::after_push(e0, e1, class, head),
        ThreadLocalEngine::after_pop(e1, e2, class, r),
    ensures
        r == Some(head),
        forall|c: int| 0 <= c < NUM_SIZE_CLASSES ==> #[trigger] e2.bin(c) == e0.bin(c),
        e2.pending@ == e0.pending@,
{
    assert(e2.bin(class) =~= e0.bin(class));
}

/// Detaching as many blocks as were just pushed as a batch gives that batch
/// back and leaves every stack as it was.
pub proof fn law_push_batch_then_pop_batch(
    e0: &ThreadLocalEngine,
    e1: &ThreadLocalEngine,
    e2: &ThreadLocalEngine,
    class: int,
    batch: Seq<OxHeader>,
    r: Seq<OxHeader>,
)
    requires
        e0.wf(),
        0 <= class < NUM_SIZE_CLASSES,
        batch.len() > 0,
        ThreadLocalEngine::after_push_batch(e0, e1, class, batch),
        ThreadLocalEngine::after_pop_batch(e1, e2, class, batch.len() as int, r),
    ensures
        r == batch,
        forall|c: int| 0 <= c < NUM_SIZE_CLASSES ==> #[trigger] e2.bin(c) == e0.bin(c),
        e2.pending@ == e0.pending@,
{
    assert(r =~= batch);
    assert(e2.bin(class) =~= e0.bin(class));
}

} // verus!
