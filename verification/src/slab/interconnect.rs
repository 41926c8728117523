//! The cache that threads share: per CPU and size class, three stacks of
//! free blocks (blocks released by threads, blocks put back by the trimmer,
//! and blocks whose pages were given back to the kernel) and a count.
use crate::internals::once::Once;
use crate::slab::NUM_SIZE_CLASSES;
use crate::sys::numa::{NumaMaps, MAX_CPUS};
use crate::OxHeader;
use vstd::prelude::*;

verus! {

/// Low bits of a stack head that hold the generation tag.
pub const ABA_TAG_BITS: u64 = 4;

/// The tag bits of a stack head.
pub const ABA_TAG_MASK: u64 = 15;

/// Packs a 16-byte aligned block address and a generation tag into one word.
pub fn head_pack(ptr: u64, tag: u64) -> (r: u64)
    ensures
        r == ptr | (tag & ABA_TAG_MASK),
{
    ptr | (tag & ABA_TAG_MASK)
}

/// The block address of a packed stack head.
pub fn head_ptr(val: u64) -> (r: u64)
    ensures
        r == val & !ABA_TAG_MASK,
{
    val & !ABA_TAG_MASK
}

/// The generation tag of a packed stack head.
pub fn head_tag(val: u64) -> (r: u64)
    ensures
        r == val & ABA_TAG_MASK,
{
    val & ABA_TAG_MASK
}

/// Packing an aligned address with a tag and unpacking gives both back.
pub proof fn lemma_head_pack_roundtrip(ptr: u64, tag: u64)
    requires
        ptr & ABA_TAG_MASK == 0,
    ensures
        (ptr | (tag & ABA_TAG_MASK)) & !ABA_TAG_MASK == ptr,
        (ptr | (tag & ABA_TAG_MASK)) & ABA_TAG_MASK == tag % 16,
{
    assert((ptr | (tag & 15u64)) & !15u64 == ptr && (ptr | (tag & 15u64)) & 15u64 == tag % 16)
        by (bit_vector)
        requires
            ptr & 15u64 == 0,
    ;
}

/// Index of the stacks of `class` on `cpu`.
pub open spec fn slot(cpu: int, class: int) -> int {
    cpu * NUM_SIZE_CLASSES + class
}

/// `a - b` as `usize::wrapping_sub` computes it.
pub open spec fn wsub(a: usize, b: int) -> usize {
    if a >= b {
        (a - b) as usize
    } else {
        (a - b + usize::MAX + 1) as usize
    }
}

/// `a + b` as `usize::wrapping_add` computes it.
pub open spec fn wadd(a: usize, b: int) -> usize {
    if a + b <= usize::MAX {
        (a + b) as usize
    } else {
        (a + b - usize::MAX - 1) as usize
    }
}

/// How many blocks a pop of `batch` takes from a stack of `len > 0` blocks.
pub open spec fn taken(len: int, batch: int) -> int {
    if batch == 0 {
        1
    } else if batch < len {
        batch
    } else {
        len
    }
}

/// The stacks and counts, each indexed by `slot(cpu, class)`, and per CPU
/// whether blocks have been put in its second stacks.
pub struct InternalCache {
    pub list: Vec<Vec<OxHeader>>,
    pub usage: Vec<usize>,
    pub pushed: Vec<Vec<OxHeader>>,
    pub trimmed: Vec<Vec<OxHeader>>,
    pub has_pushed: Vec<bool>,
}

/// The shared cache and the NUMA topology that orders the search for blocks.
pub struct InterConnectCache {
    pub cache: InternalCache,
    pub ncpu: usize,
    pub node_offsets: Vec<usize>,
    pub node_cpus: Vec<usize>,
    pub node_count: usize,
    pub node_cpu_count: usize,
    pub cpu_to_node: Vec<usize>,
    pub once: Once,
    pub cached_cpu_id: usize,
    pub alloc_count: u32,
}

impl InterConnectCache {
    /// The CPU remembered between two lookups is a valid one.
    pub open spec fn cpu_hint_ok(&self) -> bool {
        self.cached_cpu_id < self.ncpu
    }

    /// The cache has been set up.
    pub open spec fn ready(&self) -> bool {
        self.once.view_state() == 2
    }

    pub open spec fn numa_wf(&self) -> bool {
        self.node_count >= 1 ==> {
            &&& self.node_offsets@.len() > self.node_count
            &&& self.node_cpus@.len() == MAX_CPUS
            &&& self.cpu_to_node@.len() == MAX_CPUS
            &&& self.node_offsets@[self.node_count as int] == self.node_cpu_count
            &&& self.node_cpu_count <= MAX_CPUS
            &&& forall|a: int, b: int| 0 <= a <= b <= self.node_count ==>
                    #[trigger] self.node_offsets@[a] <= #[trigger] self.node_offsets@[b]
        }
    }

    pub open spec fn wf(&self) -> bool {
        &&& self.once.view_state() == 0 || self.once.view_state() == 2
        &&& self.ready() ==> {
            &&& 1 <= self.ncpu <= MAX_CPUS
            &&& self.cache.list@.len() == self.ncpu * NUM_SIZE_CLASSES
            &&& self.cache.usage@.len() == self.ncpu * NUM_SIZE_CLASSES
            &&& self.cache.pushed@.len() == self.ncpu * NUM_SIZE_CLASSES
            &&& self.cache.trimmed@.len() == self.ncpu * NUM_SIZE_CLASSES
            &&& self.cache.has_pushed@.len() == self.ncpu
            &&& self.cpu_hint_ok()
            &&& self.numa_wf()
        }
    }

    /// The first stack of slot `i`.
    pub open spec fn main_of(&self, i: int) -> Seq<OxHeader> {
        self.cache.list@[i]@
    }

    /// The second stack of slot `i`: blocks the trimmer put back.
    pub open spec fn pushed_of(&self, i: int) -> Seq<OxHeader> {
        self.cache.pushed@[i]@
    }

    /// The third stack of slot `i`: blocks whose pages were released.
    pub open spec fn trimmed_of(&self, i: int) -> Seq<OxHeader> {
        self.cache.trimmed@[i]@
    }

    /// The count of slot `i`.
    pub open spec fn usage_of(&self, i: int) -> usize {
        self.cache.usage@[i]
    }

    /// Whether `cpu` may hold blocks in its second stacks.
    pub open spec fn flag(&self, cpu: int) -> bool {
        self.cache.has_pushed@[cpu]
    }

    /// Everything but the stacks, counts and flags is the same.
    pub open spec fn same_shape(old: &Self, new: &Self) -> bool {
        &&& new.wf()
        &&& new.ready() == old.ready()
        &&& new.ncpu == old.ncpu
        &&& new.node_offsets@ == old.node_offsets@
        &&& new.node_cpus@ == old.node_cpus@
        &&& new.cpu_to_node@ == old.cpu_to_node@
        &&& new.node_count == old.node_count
        &&& new.node_cpu_count == old.node_cpu_count
        &&& new.cache.list@.len() == old.cache.list@.len()
        &&& new.cache.pushed@.len() == old.cache.pushed@.len()
        &&& new.cache.trimmed@.len() == old.cache.trimmed@.len()
        &&& new.cache.usage@.len() == old.cache.usage@.len()
        &&& new.cache.has_pushed@.len() == old.cache.has_pushed@.len()
    }

    /// The stacks of every slot but `i` are the same.
    pub open spec fn stacks_same_except(old: &Self, new: &Self, i: int) -> bool {
        &&& forall|j: int| 0 <= j < old.cache.list@.len() && j != i ==> #[trigger] new.main_of(j) == old.main_of(j)
        &&& forall|j: int| 0 <= j < old.cache.pushed@.len() && j != i ==> #[trigger] new.pushed_of(j) == old.pushed_of(j)
        &&& forall|j: int| 0 <= j < old.cache.trimmed@.len() && j != i ==> #[trigger] new.trimmed_of(j) == old.trimmed_of(j)
    }

    /// All stacks and counts are the same.
    pub open spec fn contents_same(old: &Self, new: &Self) -> bool {
        &&& Self::same_shape(old, new)
        &&& Self::stacks_same_except(old, new, -1)
        &&& new.cache.usage@ == old.cache.usage@
        &&& new.cache.has_pushed@ == old.cache.has_pushed@
    }

    /// A cache that has not been set up.
    pub fn new() -> (c: Self)
        ensures
            c.wf(),
            !c.ready(),
            c.once.view_state() == 0,
            c.ncpu == 0,
            c.node_count == 0,
            c.node_cpu_count == 0,
            c.cached_cpu_id == 0,
            c.alloc_count == 0,
            c.cache.list@.len() == 0,
            c.cache.usage@.len() == 0,
            c.cache.pushed@.len() == 0,
            c.cache.trimmed@.len() == 0,
            c.cache.has_pushed@.len() == 0,
            c.node_offsets@.len() == 0,
            c.node_cpus@.len() == 0,
            c.cpu_to_node@.len() == 0,
    {
        InterConnectCache {
            cache: InternalCache {
                list: Vec::new(),
                usage: Vec::new(),
                pushed: Vec::new(),
                trimmed: Vec::new(),
                has_pushed: Vec::new(),
            },
            ncpu: 0,
            node_offsets: Vec::new(),
            node_cpus: Vec::new(),
            node_count: 0,
            node_cpu_count: 0,
            cpu_to_node: Vec::new(),
            once: Once::new(),
            cached_cpu_id: 0,
            alloc_count: 0,
        }
    }

    #[verifier::spinoff_prover]
    /// Sets the cache up once, for `thread_count` CPUs (at least one), all
    /// stacks empty, with the NUMA topology when there is one.
    pub fn ensure_cache(&mut self, thread_count: usize, maps: Option<NumaMaps>)
        requires
            old(self).wf(),
            thread_count <= MAX_CPUS,
            maps matches Some(m) ==> m.wf(),
        ensures
            final(self).wf(),
            final(self).ready(),
            old(self).ready() ==> Self::contents_same(old(self), final(self)),
            !old(self).ready() ==> {
                &&& final(self).ncpu == if thread_count == 0 { 1 } else { thread_count }
                &&& forall|i: int| 0 <= i < final(self).cache.list@.len() ==>
                        #[trigger] final(self).main_of(i).len() == 0
                        && final(self).pushed_of(i).len() == 0
                        && final(self).trimmed_of(i).len() == 0
                        && final(self).usage_of(i) == 0
                &&& forall|c: int| 0 <= c < final(self).ncpu ==> !#[trigger] final(self).flag(c)
                &&& match maps {
                    Some(m) => final(self).node_count == m.node_count
                        && final(self).node_offsets@ == m.node_offsets@
                        && final(self).node_cpus@ == m.node_cpus@
                        && final(self).cpu_to_node@ == m.cpu_to_node@
                        && final(self).node_cpu_count == m.node_cpu_count,
                    None => final(self).node_count == 0,
                }
            },
    {
        if self.once.get_state() == 2 {
            return;
        }
        let ncpu = if thread_count == 0 { 1 } else { thread_count };
        let n = ncpu * NUM_SIZE_CLASSES;
        let mut list: Vec<Vec<OxHeader>> = Vec::new();
        let mut pushed: Vec<Vec<OxHeader>> = Vec::new();
        let mut trimmed: Vec<Vec<OxHeader>> = Vec::new();
        let mut usage: Vec<usize> = Vec::new();
        let mut i: usize = 0;
        while i < n
            invariant
                i <= n,
                list@.len() == i,
                pushed@.len() == i,
                trimmed@.len() == i,
                usage@.len() == i,
                forall|j: int| 0 <= j < i ==> #[trigger] list@[j]@.len() == 0 && pushed@[j]@.len() == 0
                    && trimmed@[j]@.len() == 0 && usage@[j] == 0,
            decreases n - i,
        {
            list.push(Vec::new());
            pushed.push(Vec::new());
            trimmed.push(Vec::new());
            usage.push(0);
            i = i + 1;
        }
        let mut has_pushed: Vec<bool> = Vec::new();
        let mut c: usize = 0;
        while c < ncpu
            invariant
                c <= ncpu,
                has_pushed@.len() == c,
                forall|j: int| 0 <= j < c ==> !#[trigger] has_pushed@[j],
            decreases ncpu - c,
        {
            has_pushed.push(false);
            c = c + 1;
        }
        self.cache = InternalCache { list, usage, pushed, trimmed, has_pushed };
        self.ncpu = ncpu;
        self.cached_cpu_id = 0;
        match maps {
            Some(m) => {
                self.node_offsets = m.node_offsets;
                self.node_cpus = m.node_cpus;
                self.cpu_to_node = m.cpu_to_node;
                self.node_count = m.node_count;
                self.node_cpu_count = m.node_cpu_count;
            },
            None => {
                self.node_count = 0;
            },
        }
        self.once.call_once(|| {});
        assert(forall|i: int| 0 <= i < self.cache.list@.len() ==>
            #[trigger] self.main_of(i).len() == 0 && self.pushed_of(i).len() == 0
            && self.trimmed_of(i).len() == 0 && self.usage_of(i) == 0);
    }
}


/// The CPU the calling thread runs on, as the kernel reports it.
/// `rustix::thread::sched_getcpu` asks the kernel and widens the `u32` it
/// writes; beyond that bound nothing is promised of the value, which changes
/// as the thread migrates.
#[verifier::external_body]
fn sched_cpu() -> (r: usize)
    ensures
        r <= u32::MAX,
{
    rustix::thread::sched_getcpu()
}

/// Whether CPU `c` occurs among the first `m` entries of `vs`.
pub open spec fn tried(vs: Seq<usize>, m: int, c: int) -> bool {
    exists|t: int| 0 <= t < m && #[trigger] vs[t] == c
}

impl InterConnectCache {
    /// Which stack of `cpu` a pop of `class` takes from: 0 the first, 1 the
    /// second, 2 the third, -1 none. The count decides first: at zero the
    /// pop fails; then the first stack, and only where `need_pushed` asks
    /// for them the second (while the CPU's flag is up) and the third.
    pub open spec fn source(&self, class: int, cpu: int, need_pushed: bool) -> int {
        let i = slot(cpu, class);
        if self.usage_of(i) == 0 {
            -1
        } else if self.main_of(i).len() > 0 {
            0
        } else if !need_pushed {
            -1
        } else if self.flag(cpu) && self.pushed_of(i).len() > 0 {
            1
        } else if self.trimmed_of(i).len() > 0 {
            2
        } else {
            -1
        }
    }

    /// A pop of `class` on `cpu` finds the second stack empty while the
    /// flag is up, and lowers the flag.
    pub open spec fn clears(&self, class: int, cpu: int, need_pushed: bool) -> bool {
        let i = slot(cpu, class);
        &&& self.usage_of(i) != 0
        &&& self.main_of(i).len() == 0
        &&& need_pushed
        &&& self.flag(cpu)
        &&& self.pushed_of(i).len() == 0
    }

    /// Stack `src` of slot `i`.
    pub open spec fn source_list(&self, i: int, src: int) -> Seq<OxHeader> {
        if src == 0 {
            self.main_of(i)
        } else if src == 1 {
            self.pushed_of(i)
        } else {
            self.trimmed_of(i)
        }
    }

    /// What a pop of up to `batch` blocks of `class` on `cpu` does to the
    /// stacks and counts, and returns.
    pub open spec fn pop_lists_effect(
        old: &Self,
        new: &Self,
        class: int,
        batch: int,
        cpu: int,
        need_pushed: bool,
        r: Option<Vec<OxHeader>>,
    ) -> bool {
        let i = slot(cpu, class);
        let s = old.source(class, cpu, need_pushed);
        &&& Self::stacks_same_except(old, new, i)
        &&& if s < 0 {
            &&& r is None
            &&& new.main_of(i) == old.main_of(i)
            &&& new.pushed_of(i) == old.pushed_of(i)
            &&& new.trimmed_of(i) == old.trimmed_of(i)
            &&& new.cache.usage@ == old.cache.usage@
        } else {
            let l = old.source_list(i, s);
            let k = taken(l.len() as int, batch);
            &&& r matches Some(v) && v@ == l.take(k)
            &&& new.cache.usage@ == old.cache.usage@.update(i, wsub(old.usage_of(i), k))
            &&& new.main_of(i) == if s == 0 { l.skip(k) } else { old.main_of(i) }
            &&& new.pushed_of(i) == if s == 1 { l.skip(k) } else { old.pushed_of(i) }
            &&& new.trimmed_of(i) == if s == 2 { l.skip(k) } else { old.trimmed_of(i) }
        }
    }

    /// What a pop of up to `batch` blocks of `class` from the stacks of `cpu`
    /// does: the stacks and counts as `pop_lists_effect` says, and the CPU's
    /// flag lowered where the pop `clears` it.
    pub open spec fn pop_effect(
        old: &Self,
        new: &Self,
        class: int,
        batch: int,
        cpu: int,
        need_pushed: bool,
        r: Option<Vec<OxHeader>>,
    ) -> bool {
        &&& Self::same_shape(old, new)
        &&& Self::pop_lists_effect(old, new, class, batch, cpu, need_pushed, r)
        &&& new.cache.has_pushed@ == if old.clears(class, cpu, need_pushed) {
            old.cache.has_pushed@.update(cpu, false)
        } else {
            old.cache.has_pushed@
        }
    }

    /// What a push of `batch` on `cpu` does: the batch goes on top of the
    /// third stack when its pages were released, else of the second when
    /// `need_push_pushed` (raising the CPU's flag), else of the first; the
    /// count grows by the batch's length.
    pub open spec fn push_effect(
        old: &Self,
        new: &Self,
        class: int,
        cpu: int,
        batch: Seq<OxHeader>,
        need_push_pushed: bool,
        is_trimmed: bool,
    ) -> bool {
        let i = slot(cpu, class);
        &&& Self::same_shape(old, new)
        &&& Self::stacks_same_except(old, new, i)
        &&& new.cache.usage@ == old.cache.usage@.update(i, wadd(old.usage_of(i), batch.len() as int))
        &&& new.trimmed_of(i) == if is_trimmed { batch + old.trimmed_of(i) } else { old.trimmed_of(i) }
        &&& new.pushed_of(i) == if !is_trimmed && need_push_pushed { batch + old.pushed_of(i) } else { old.pushed_of(i) }
        &&& new.main_of(i) == if !is_trimmed && !need_push_pushed { batch + old.main_of(i) } else { old.main_of(i) }
        &&& new.cache.has_pushed@ == if !is_trimmed && need_push_pushed {
            old.cache.has_pushed@.update(cpu, true)
        } else {
            old.cache.has_pushed@
        }
    }

    /// The CPU to use: asked of the kernel on every second call, reduced
    /// modulo the number of CPUs, and remembered in between.
    pub fn get_cpu_fast(&mut self) -> (r: usize)
        requires
            old(self).wf(),
            old(self).ready(),
        ensures
            r < final(self).ncpu,
            Self::contents_same(old(self), final(self)),
            final(self).cache == old(self).cache,
            final(self).ncpu == old(self).ncpu,
            final(self).node_offsets == old(self).node_offsets,
            final(self).node_cpus == old(self).node_cpus,
            final(self).cpu_to_node == old(self).cpu_to_node,
            final(self).node_count == old(self).node_count,
            final(self).node_cpu_count == old(self).node_cpu_count,
            final(self).once == old(self).once,
            r == final(self).cached_cpu_id,
            final(self).alloc_count == vstd::wrapping::u32_specs::wrapping_add(old(self).alloc_count, 1),
            old(self).alloc_count % 2 == 1 ==> r == old(self).cached_cpu_id,
            old(self).alloc_count % 2 == 0 ==> exists|cpu: usize| cpu <= u32::MAX && r == #[trigger] (cpu % old(self).ncpu),
    {
        if self.alloc_count % 2 == 0 {
            self.cached_cpu_id = sched_cpu() % self.ncpu;
        }
        self.alloc_count = self.alloc_count.wrapping_add(1);
        self.cached_cpu_id
    }

    /// Pushes `batch`, its first block on top, onto the stacks of `class` on `cpu`.
    pub fn push_on(&mut self, class: usize, batch: Vec<OxHeader>, need_push_pushed: bool, is_trimmed: bool, cpu: usize)
        requires
            old(self).wf(),
            old(self).ready(),
            class < NUM_SIZE_CLASSES,
            cpu < old(self).ncpu,
        ensures
            Self::push_effect(old(self), final(self), class as int, cpu as int, batch@, need_push_pushed, is_trimmed),
    {
        let i = cpu * NUM_SIZE_CLASSES + class;
        let n = batch.len();
        let mut top = batch;
        if is_trimmed {
            let mut l: Vec<OxHeader> = Vec::new();
            self.cache.trimmed.set_and_swap(i, &mut l);
            top.append(&mut l);
            self.cache.trimmed.set(i, top);
        } else if need_push_pushed {
            if !self.cache.has_pushed[cpu] {
                self.cache.has_pushed.set(cpu, true);
            }
            let mut l: Vec<OxHeader> = Vec::new();
            self.cache.pushed.set_and_swap(i, &mut l);
            top.append(&mut l);
            self.cache.pushed.set(i, top);
        } else {
            let mut l: Vec<OxHeader> = Vec::new();
            self.cache.list.set_and_swap(i, &mut l);
            top.append(&mut l);
            self.cache.list.set(i, top);
        }
        let u = self.cache.usage[i];
        self.cache.usage.set(i, u.wrapping_add(n));
        proof {
            assert(self.cache.has_pushed@ =~= (if !is_trimmed && need_push_pushed {
                old(self).cache.has_pushed@.update(cpu as int, true)
            } else {
                old(self).cache.has_pushed@
            }));
        }
    }

    /// Pushes `batch` onto the stacks of `class` on the CPU the thread runs on.
    pub fn try_push(&mut self, class: usize, batch: Vec<OxHeader>, need_push_pushed: bool, is_trimmed: bool)
        requires
            old(self).wf(),
            old(self).ready(),
            class < NUM_SIZE_CLASSES,
        ensures
            exists|cpu: int| 0 <= cpu < old(self).ncpu
                && #[trigger] Self::push_effect(old(self), final(self), class as int, cpu, batch@, need_push_pushed, is_trimmed),
    {
        let ghost before = *self;
        let cpu = self.get_cpu_fast();
        self.push_on(class, batch, need_push_pushed, is_trimmed, cpu);
        assert(Self::push_effect(old(self), final(self), class as int, cpu as int, batch@, need_push_pushed, is_trimmed));
    }
}

/// The counts of `class` on the first `n` CPUs, added up.
pub open spec fn class_usage(usage: Seq<usize>, class: int, n: int) -> int
    decreases n,
{
    if n <= 0 {
        0
    } else {
        class_usage(usage, class, n - 1) + usage[slot(n - 1, class)]
    }
}

impl InterConnectCache {
    /// The order in which a pop looks for blocks, starting on `cpu`: `cpu`
    /// itself, then the CPUs of its NUMA node (where the topology knows
    /// more than one node), then every other CPU in turn from `cpu + 1`.
    pub open spec fn victims(&self, cpu: int) -> Seq<usize> {
        let node = self.cpu_to_node@[cpu];
        let near = if self.node_count > 1 && node < self.node_count {
            self.node_cpus@.subrange(self.node_offsets@[node as int] as int, self.node_offsets@[node + 1] as int)
        } else {
            Seq::<usize>::empty()
        };
        seq![cpu as usize] + near + Seq::new((self.ncpu - 1) as nat, |k: int| ((cpu + k + 1) % (self.ncpu as int)) as usize)
    }

    /// A pop of `class` on `vs[j]` finds blocks.
    pub open spec fn found(&self, vs: Seq<usize>, j: int, class: int, need_pushed: bool) -> bool {
        &&& 0 <= j < vs.len()
        &&& vs[j] < self.ncpu
        &&& self.source(class, vs[j] as int, need_pushed) >= 0
    }

    /// What a search for blocks of `class` that starts on `cpu` does to the
    /// stacks and counts, and returns: the stacks of the first victim that
    /// has blocks give up to `batch` of them; where none has, nothing changes.
    pub open spec fn pop_outcome(old: &Self, new: &Self, class: int, batch: int, need_pushed: bool, cpu: int, r: Option<Vec<OxHeader>>) -> bool {
        let vs = old.victims(cpu);
        &&& r is None ==> {
            &&& forall|j: int| !#[trigger] old.found(vs, j, class, need_pushed)
            &&& Self::stacks_same_except(old, new, -1)
            &&& new.cache.usage@ == old.cache.usage@
        }
        &&& r is Some ==> exists|j: int| {
            &&& #[trigger] old.found(vs, j, class, need_pushed)
            &&& forall|t: int| 0 <= t < j ==> !#[trigger] old.found(vs, t, class, need_pushed)
            &&& Self::pop_lists_effect(old, new, class, batch, vs[j] as int, need_pushed, r)
        }
    }

    /// The flags after pops of `class` were tried on the first `m` entries of `vs`.
    pub open spec fn flags_after(old: &Self, new: &Self, vs: Seq<usize>, m: int, class: int, need_pushed: bool) -> bool {
        forall|c: int| 0 <= c < old.ncpu ==> #[trigger] new.flag(c) == (old.flag(c)
            && !(old.clears(class, c, need_pushed) && tried(vs, m, c)))
    }

    /// The total count of `class` over all CPUs, saturated at `usize::MAX`.
    pub fn get_size(&self, class: usize) -> (r: usize)
        requires
            self.wf(),
            self.ready(),
            class < NUM_SIZE_CLASSES,
        ensures
            r == if class_usage(self.cache.usage@, class as int, self.ncpu as int) > usize::MAX {
                usize::MAX as int
            } else {
                class_usage(self.cache.usage@, class as int, self.ncpu as int)
            },
    {
        let mut total: usize = 0;
        let mut c: usize = 0;
        while c < self.ncpu
            invariant
                self.wf(),
                self.ready(),
                class < NUM_SIZE_CLASSES,
                c <= self.ncpu,
                total == if class_usage(self.cache.usage@, class as int, c as int) > usize::MAX {
                    usize::MAX as int
                } else {
                    class_usage(self.cache.usage@, class as int, c as int)
                },
            decreases self.ncpu - c,
        {
            let u = self.cache.usage[c * NUM_SIZE_CLASSES + class];
            total = total.saturating_add(u);
            c = c + 1;
        }
        total
    }

    /// Detaches up to `batch_size` blocks (at least one) of `class` from the
    /// stacks of `thread_id`, as `source` chooses.
    pub fn pop(&mut self, class: usize, batch_size: usize, thread_id: usize, need_pushed: bool) -> (r: Option<Vec<OxHeader>>)
        requires
            old(self).wf(),
            old(self).ready(),
            class < NUM_SIZE_CLASSES,
            thread_id < old(self).ncpu,
        ensures
            Self::pop_effect(old(self), final(self), class as int, batch_size as int, thread_id as int, need_pushed, r),
    {
        let i = thread_id * NUM_SIZE_CLASSES + class;
        if self.cache.usage[i] == 0 {
            return None;
        }
        let src: u8;
        if self.cache.list[i].len() > 0 {
            src = 0;
        } else if !need_pushed {
            return None;
        } else if self.cache.has_pushed[thread_id] && self.cache.pushed[i].len() > 0 {
            src = 1;
        } else {
            if self.cache.has_pushed[thread_id] {
                self.cache.has_pushed.set(thread_id, false);
            }
            if self.cache.trimmed[i].len() > 0 {
                src = 2;
            } else {
                return None;
            }
        }
        let mut l: Vec<OxHeader> = Vec::new();
        if src == 0 {
            self.cache.list.set_and_swap(i, &mut l);
        } else if src == 1 {
            self.cache.pushed.set_and_swap(i, &mut l);
        } else {
            self.cache.trimmed.set_and_swap(i, &mut l);
        }
        let k = if batch_size == 0 {
            1
        } else if batch_size < l.len() {
            batch_size
        } else {
            l.len()
        };
        let rest = l.split_off(k);
        if src == 0 {
            self.cache.list.set(i, rest);
        } else if src == 1 {
            self.cache.pushed.set(i, rest);
        } else {
            self.cache.trimmed.set(i, rest);
        }
        let u = self.cache.usage[i];
        self.cache.usage.set(i, u.wrapping_sub(k));
        Some(l)
    }

    /// The search order of `victims`, as a vector.
    pub fn victim_order(&self, cpu: usize) -> (vs: Vec<usize>)
        requires
            self.wf(),
            self.ready(),
            cpu < self.ncpu,
        ensures
            vs@ == self.victims(cpu as int),
    {
        let mut vs: Vec<usize> = Vec::new();
        vs.push(cpu);
        let ghost head = vs@;
        if self.node_count > 1 && self.cpu_to_node[cpu] < self.node_count {
            let node = self.cpu_to_node[cpu];
            let start = self.node_offsets[node];
            let end = self.node_offsets[node + 1];
            assert(start <= end <= self.node_cpus@.len());
            let mut k = start;
            while k < end
                invariant
                    start <= k <= end,
                    end <= self.node_cpus@.len(),
                    vs@ == head + self.node_cpus@.subrange(start as int, k as int),
                decreases end - k,
            {
                vs.push(self.node_cpus[k]);
                k = k + 1;
                assert(vs@ =~= head + self.node_cpus@.subrange(start as int, k as int));
            }
        }
        let ghost mid = vs@;
        let n = self.ncpu;
        let mut i: usize = 1;
        while i < n
            invariant
                1 <= i <= n,
                n == self.ncpu,
                n <= MAX_CPUS,
                cpu < n,
                vs@ == mid + Seq::new((i - 1) as nat, |k: int| ((cpu + k + 1) % (n as int)) as usize),
            decreases n - i,
        {
            vs.push((cpu + i) % n);
            i = i + 1;
            assert(vs@ =~= mid + Seq::new((i - 1) as nat, |k: int| ((cpu + k + 1) % (n as int)) as usize));
        }
        assert(vs@ =~= self.victims(cpu as int));
        vs
    }
}

impl InterConnectCache {
    /// Pops up to `batch_size` blocks of `class` from the first CPU, in the
    /// order of `victims(cpu)`, whose stacks give some.
    pub fn try_pop_on(&mut self, class: usize, batch_size: usize, need_pushed: bool, cpu: usize) -> (r: Option<Vec<OxHeader>>)
        requires
            old(self).wf(),
            old(self).ready(),
            class < NUM_SIZE_CLASSES,
            cpu < old(self).ncpu,
        ensures
            Self::same_shape(old(self), final(self)),
            ({
                let vs = old(self).victims(cpu as int);
                &&& r is None ==> {
                    &&& forall|j: int| !#[trigger] old(self).found(vs, j, class as int, need_pushed)
                    &&& Self::stacks_same_except(old(self), final(self), -1)
                    &&& final(self).cache.usage@ == old(self).cache.usage@
                    &&& Self::flags_after(old(self), final(self), vs, vs.len() as int, class as int, need_pushed)
                }
                &&& r is Some ==> exists|j: int| {
                    &&& #[trigger] old(self).found(vs, j, class as int, need_pushed)
                    &&& forall|t: int| 0 <= t < j ==> !#[trigger] old(self).found(vs, t, class as int, need_pushed)
                    &&& Self::pop_lists_effect(old(self), final(self), class as int, batch_size as int, vs[j] as int, need_pushed, r)
                    &&& Self::flags_after(old(self), final(self), vs, j + 1, class as int, need_pushed)
                }
            }),
    {
        let vs = self.victim_order(cpu);
        let ghost gvs = vs@;
        let mut k: usize = 0;
        while k < vs.len()
            invariant
                self.wf(),
                self.ready(),
                Self::same_shape(old(self), self),
                class < NUM_SIZE_CLASSES,
                cpu < self.ncpu,
                gvs == vs@,
                gvs == old(self).victims(cpu as int),
                gvs[0] == cpu,
                k <= vs.len(),
                Self::stacks_same_except(old(self), self, -1),
                self.cache.usage@ == old(self).cache.usage@,
                forall|t: int| 0 <= t < k ==> !#[trigger] old(self).found(gvs, t, class as int, need_pushed),
                Self::flags_after(old(self), self, gvs, k as int, class as int, need_pushed),
            decreases vs.len() - k,
        {
            let v = vs[k];
            if v < self.ncpu && !(k > 0 && v == cpu) {
                let ghost pre = *self;
                proof {
                    let i = slot(v as int, class as int);
                    assert(pre.main_of(i) == old(self).main_of(i));
                    assert(pre.pushed_of(i) == old(self).pushed_of(i));
                    assert(pre.trimmed_of(i) == old(self).trimmed_of(i));
                    assert(pre.flag(v as int) == (old(self).flag(v as int)
                        && !(old(self).clears(class as int, v as int, need_pushed) && tried(gvs, k as int, v as int))));
                    assert(pre.source(class as int, v as int, need_pushed) == old(self).source(class as int, v as int, need_pushed));
                }
                assert(Self::flags_after(old(self), &pre, gvs, k as int, class as int, need_pushed));
                let r = self.pop(class, batch_size, v, need_pushed);
                proof {
                    assert(gvs[k as int] == v);
                    assert(tried(gvs, k as int + 1, v as int));
                    assert(pre.clears(class as int, v as int, need_pushed) ==> old(self).clears(class as int, v as int, need_pushed));
                    assert forall|c: int| 0 <= c < old(self).ncpu implies #[trigger] self.flag(c) == (old(self).flag(c)
                        && !(old(self).clears(class as int, c, need_pushed) && tried(gvs, k as int + 1, c))) by {
                        if c != v {
                            assert(self.flag(c) == pre.flag(c));
                            assert(pre.flag(c) == (old(self).flag(c)
                                && !(old(self).clears(class as int, c, need_pushed) && tried(gvs, k as int, c))));
                            if tried(gvs, k as int + 1, c) {
                                let t = choose|t: int| 0 <= t < k + 1 && #[trigger] gvs[t] == c;
                                assert(t != k);
                                assert(tried(gvs, k as int, c));
                            }
                        } else {
                            assert(tried(gvs, k as int + 1, c));
                        }
                    }
                }
                if r.is_some() {
                    proof {
                        assert(old(self).found(gvs, k as int, class as int, need_pushed));
                        assert(Self::pop_lists_effect(old(self), self, class as int, batch_size as int, gvs[k as int] as int, need_pushed, r));
                    }
                    return r;
                }
                proof {
                    assert(!old(self).found(gvs, k as int, class as int, need_pushed));
                    assert(Self::stacks_same_except(old(self), self, -1));
                }
            } else {
                proof {
                    if v < self.ncpu {
                        assert(!old(self).found(gvs, 0, class as int, need_pushed));
                    }
                    assert(!old(self).found(gvs, k as int, class as int, need_pushed));
                    assert forall|c: int| 0 <= c < old(self).ncpu implies #[trigger] self.flag(c) == (old(self).flag(c)
                        && !(old(self).clears(class as int, c, need_pushed) && tried(gvs, k as int + 1, c))) by {
                        if tried(gvs, k as int + 1, c) {
                            let t = choose|t: int| 0 <= t < k + 1 && #[trigger] gvs[t] == c;
                            if t == k {
                                assert(gvs[0] == c);
                            }
                            assert(tried(gvs, k as int, c));
                        }
                    }
                }
            }
            k = k + 1;
        }
        None
    }

    /// Pops up to `batch_size` blocks of `class`, searching from the CPU the
    /// thread runs on.
    pub fn try_pop(&mut self, class: usize, batch_size: usize, need_pushed: bool) -> (r: Option<Vec<OxHeader>>)
        requires
            old(self).wf(),
            old(self).ready(),
            class < NUM_SIZE_CLASSES,
        ensures
            Self::same_shape(old(self), final(self)),
            exists|cpu: int| 0 <= cpu < old(self).ncpu
                && #[trigger] Self::pop_outcome(old(self), final(self), class as int, batch_size as int, need_pushed, cpu, r),
    {
        let cpu = self.get_cpu_fast();
        let ghost mid = *self;
        let r = self.try_pop_on(class, batch_size, need_pushed, cpu);
        proof {
            let vs = mid.victims(cpu as int);
            assert(vs == old(self).victims(cpu as int));
            assert forall|j: int| #[trigger] mid.found(vs, j, class as int, need_pushed)
                == old(self).found(vs, j, class as int, need_pushed) by {
            }
            if r is Some {
                let j = choose|j: int| {
                    &&& #[trigger] mid.found(vs, j, class as int, need_pushed)
                    &&& forall|t: int| 0 <= t < j ==> !#[trigger] mid.found(vs, t, class as int, need_pushed)
                    &&& Self::pop_lists_effect(&mid, self, class as int, batch_size as int, vs[j] as int, need_pushed, r)
                    &&& Self::flags_after(&mid, self, vs, j + 1, class as int, need_pushed)
                };
                assert(old(self).found(vs, j, class as int, need_pushed));
                assert forall|t: int| 0 <= t < j implies !#[trigger] old(self).found(vs, t, class as int, need_pushed) by {
                    assert(!mid.found(vs, t, class as int, need_pushed));
                }
                assert(Self::pop_lists_effect(old(self), self, class as int, batch_size as int, vs[j] as int, need_pushed, r));
            } else {
                assert forall|j: int| !#[trigger] old(self).found(vs, j, class as int, need_pushed) by {
                    assert(!mid.found(vs, j, class as int, need_pushed));
                }
            }
            assert(Self::pop_outcome(old(self), self, class as int, batch_size as int, need_pushed, cpu as int, r));
        }
        r
    }
}

/// Every header of `s` belongs to `class`.
pub open spec fn all_class(s: Seq<OxHeader>, class: int) -> bool {
    forall|i: int| 0 <= i < s.len() ==> #[trigger] s[i].class == class
}

impl InterConnectCache {
    /// Every stack of a slot holds headers of the slot's class only.
    pub open spec fn classes_ok(&self) -> bool {
        forall|cpu: int, c: int| #![trigger slot(cpu, c)] 0 <= cpu < self.ncpu && 0 <= c < NUM_SIZE_CLASSES ==> {
            &&& all_class(self.main_of(slot(cpu, c)), c)
            &&& all_class(self.pushed_of(slot(cpu, c)), c)
            &&& all_class(self.trimmed_of(slot(cpu, c)), c)
        }
    }

    /// A push of headers of the class keeps the stacks consistent.
    pub proof fn lemma_push_keeps_classes(old: &Self, new: &Self, class: int, cpu: int, batch: Seq<OxHeader>, need: bool, trimmed: bool)
        requires
            old.wf(),
            old.ready(),
            old.classes_ok(),
            0 <= class < NUM_SIZE_CLASSES,
            0 <= cpu < old.ncpu,
            all_class(batch, class),
            Self::push_effect(old, new, class, cpu, batch, need, trimmed),
        ensures
            new.classes_ok(),
    {
        assert forall|q: int, c: int| #![trigger slot(q, c)] 0 <= q < new.ncpu && 0 <= c < NUM_SIZE_CLASSES implies {
            &&& all_class(new.main_of(slot(q, c)), c)
            &&& all_class(new.pushed_of(slot(q, c)), c)
            &&& all_class(new.trimmed_of(slot(q, c)), c)
        } by {
            assert(0 <= slot(q, c) < old.cache.list@.len()) by (nonlinear_arith)
                requires
                    0 <= q < old.ncpu,
                    0 <= c < NUM_SIZE_CLASSES,
                    old.cache.list@.len() == old.ncpu * NUM_SIZE_CLASSES,
            ;
            if slot(q, c) == slot(cpu, class) {
                assert(q == cpu && c == class) by (nonlinear_arith)
                    requires
                        q * NUM_SIZE_CLASSES + c == cpu * NUM_SIZE_CLASSES + class,
                        0 <= c < NUM_SIZE_CLASSES,
                        0 <= class < NUM_SIZE_CLASSES,
                ;
            }
        }
    }

    /// A pop keeps the stacks consistent, and gives headers of the class.
    pub proof fn lemma_pop_keeps_classes(old: &Self, new: &Self, class: int, batch: int, cpu: int, need: bool, r: Option<Vec<OxHeader>>)
        requires
            old.wf(),
            old.ready(),
            old.classes_ok(),
            0 <= class < NUM_SIZE_CLASSES,
            0 <= cpu < old.ncpu,
            batch >= 0,
            Self::same_shape(old, new),
            Self::pop_lists_effect(old, new, class, batch, cpu, need, r),
        ensures
            new.classes_ok(),
            r matches Some(v) ==> all_class(v@, class),
    {
        let i = slot(cpu, class);
        assert(0 <= slot(cpu, class) < old.cache.list@.len()) by (nonlinear_arith)
            requires
                0 <= cpu < old.ncpu,
                0 <= class < NUM_SIZE_CLASSES,
                old.cache.list@.len() == old.ncpu * NUM_SIZE_CLASSES,
        ;
        assert(all_class(old.main_of(slot(cpu, class)), class));
        assert(all_class(old.pushed_of(slot(cpu, class)), class));
        assert(all_class(old.trimmed_of(slot(cpu, class)), class));
        let src = old.source(class, cpu, need);
        if src >= 0 {
            let l = old.source_list(i, src);
            assert(all_class(l, class));
            assert(l.len() > 0);
            let k = taken(l.len() as int, batch);
            assert(0 < k <= l.len());
            assert(all_class(l.skip(k), class)) by {
                assert forall|j: int| 0 <= j < l.skip(k).len() implies #[trigger] l.skip(k)[j].class == class by {
                    assert(l.skip(k)[j] == l[j + k]);
                }
            }
            if let Some(v) = r {
                assert forall|j: int| 0 <= j < v@.len() implies #[trigger] v@[j].class == class by {
                    assert(v@[j] == l[j]);
                }
            }
        }
        assert forall|q: int, c: int| #![trigger slot(q, c)] 0 <= q < new.ncpu && 0 <= c < NUM_SIZE_CLASSES implies {
            &&& all_class(new.main_of(slot(q, c)), c)
            &&& all_class(new.pushed_of(slot(q, c)), c)
            &&& all_class(new.trimmed_of(slot(q, c)), c)
        } by {
            assert(0 <= slot(q, c) < old.cache.list@.len()) by (nonlinear_arith)
                requires
                    0 <= q < old.ncpu,
                    0 <= c < NUM_SIZE_CLASSES,
                    old.cache.list@.len() == old.ncpu * NUM_SIZE_CLASSES,
            ;
            if slot(q, c) == slot(cpu, class) {
                assert(q == cpu && c == class) by (nonlinear_arith)
                    requires
                        q * NUM_SIZE_CLASSES + c == cpu * NUM_SIZE_CLASSES + class,
                        0 <= c < NUM_SIZE_CLASSES,
                        0 <= class < NUM_SIZE_CLASSES,
                ;
            }
        }
    }
}

impl InterConnectCache {
    /// A search for blocks keeps the stacks consistent, and gives headers of the class.
    pub proof fn lemma_outcome_keeps_classes(old: &Self, new: &Self, class: int, batch: int, need: bool, cpu: int, r: Option<Vec<OxHeader>>)
        requires
            old.wf(),
            old.ready(),
            old.classes_ok(),
            0 <= class < NUM_SIZE_CLASSES,
            0 <= cpu < old.ncpu,
            batch >= 0,
            Self::same_shape(old, new),
            Self::pop_outcome(old, new, class, batch, need, cpu, r),
        ensures
            new.classes_ok(),
            r matches Some(v) ==> all_class(v@, class) && 1 <= v@.len() && (batch >= 1 ==> v@.len() <= batch),
    {
        let vs = old.victims(cpu);
        if r is Some {
            let j = choose|j: int| {
                &&& #[trigger] old.found(vs, j, class, need)
                &&& forall|t: int| 0 <= t < j ==> !#[trigger] old.found(vs, t, class, need)
                &&& Self::pop_lists_effect(old, new, class, batch, vs[j] as int, need, r)
            };
            Self::lemma_pop_keeps_classes(old, new, class, batch, vs[j] as int, need, r);
            let i = slot(vs[j] as int, class);
            let l = old.source_list(i, old.source(class, vs[j] as int, need));
            assert(l.len() > 0);
        } else {
            assert forall|q: int, c: int| #![trigger slot(q, c)] 0 <= q < new.ncpu && 0 <= c < NUM_SIZE_CLASSES implies {
                &&& all_class(new.main_of(slot(q, c)), c)
                &&& all_class(new.pushed_of(slot(q, c)), c)
                &&& all_class(new.trimmed_of(slot(q, c)), c)
            } by {
                assert(0 <= slot(q, c) < old.cache.list@.len()) by (nonlinear_arith)
                    requires
                        0 <= q < old.ncpu,
                        0 <= c < NUM_SIZE_CLASSES,
                        old.cache.list@.len() == old.ncpu * NUM_SIZE_CLASSES,
                ;
            }
        }
    }
}

impl InterConnectCache {
    /// A search that finds blocks gives at least one and at most `batch`.
    pub proof fn lemma_outcome_len(old: &Self, new: &Self, class: int, batch: int, need: bool, cpu: int, r: Option<Vec<OxHeader>>)
        requires
            old.wf(),
            old.ready(),
            0 <= class < NUM_SIZE_CLASSES,
            batch >= 1,
            Self::pop_outcome(old, new, class, batch, need, cpu, r),
        ensures
            r matches Some(v) ==> 1 <= v@.len() <= batch,
    {
        let vs = old.victims(cpu);
        if r is Some {
            let j = choose|j: int| {
                &&& #[trigger] old.found(vs, j, class, need)
                &&& forall|t: int| 0 <= t < j ==> !#[trigger] old.found(vs, t, class, need)
                &&& Self::pop_lists_effect(old, new, class, batch, vs[j] as int, need, r)
            };
            let i = slot(vs[j] as int, class);
            let l = old.source_list(i, old.source(class, vs[j] as int, need));
            assert(l.len() > 0);
        }
    }
}

impl InterConnectCache {
    /// The stacks and counts of `class` are the same on every CPU.
    pub open spec fn class_same(old: &Self, new: &Self, class: int) -> bool {
        forall|q: int| #![trigger slot(q, class)] 0 <= q < old.ncpu ==> {
            &&& new.main_of(slot(q, class)) == old.main_of(slot(q, class))
            &&& new.pushed_of(slot(q, class)) == old.pushed_of(slot(q, class))
            &&& new.trimmed_of(slot(q, class)) == old.trimmed_of(slot(q, class))
            &&& new.usage_of(slot(q, class)) == old.usage_of(slot(q, class))
        }
    }

    /// A push of one class leaves the other classes alone.
    pub proof fn lemma_push_frame(old: &Self, new: &Self, class: int, cpu: int, batch: Seq<OxHeader>, need: bool, trimmed: bool, c: int)
        requires
            old.wf(),
            old.ready(),
            0 <= class < NUM_SIZE_CLASSES,
            0 <= c < NUM_SIZE_CLASSES,
            c != class,
            0 <= cpu < old.ncpu,
            Self::push_effect(old, new, class, cpu, batch, need, trimmed),
        ensures
            Self::class_same(old, new, c),
    {
        assert forall|q: int| #![trigger slot(q, c)] 0 <= q < old.ncpu implies {
            &&& new.main_of(slot(q, c)) == old.main_of(slot(q, c))
            &&& new.pushed_of(slot(q, c)) == old.pushed_of(slot(q, c))
            &&& new.trimmed_of(slot(q, c)) == old.trimmed_of(slot(q, c))
            &&& new.usage_of(slot(q, c)) == old.usage_of(slot(q, c))
        } by {
            assert(0 <= slot(q, c) < old.cache.list@.len()) by (nonlinear_arith)
                requires
                    0 <= q < old.ncpu,
                    0 <= c < NUM_SIZE_CLASSES,
                    old.cache.list@.len() == old.ncpu * NUM_SIZE_CLASSES,
            ;
            assert(slot(q, c) != slot(cpu, class)) by (nonlinear_arith)
                requires
                    0 <= c < NUM_SIZE_CLASSES,
                    0 <= class < NUM_SIZE_CLASSES,
                    c != class,
            ;
        }
    }

    /// A search for blocks of one class leaves the other classes alone.
    pub proof fn lemma_outcome_frame(old: &Self, new: &Self, class: int, batch: int, need: bool, cpu: int, r: Option<Vec<OxHeader>>, c: int)
        requires
            old.wf(),
            old.ready(),
            0 <= class < NUM_SIZE_CLASSES,
            0 <= c < NUM_SIZE_CLASSES,
            c != class,
            Self::same_shape(old, new),
            Self::pop_outcome(old, new, class, batch, need, cpu, r),
        ensures
            Self::class_same(old, new, c),
    {
        let vs = old.victims(cpu);
        let mut v: int = -1;
        if r is Some {
            let j = choose|j: int| {
                &&& #[trigger] old.found(vs, j, class, need)
                &&& forall|t: int| 0 <= t < j ==> !#[trigger] old.found(vs, t, class, need)
                &&& Self::pop_lists_effect(old, new, class, batch, vs[j] as int, need, r)
            };
            v = vs[j] as int;
        }
        assert forall|q: int| #![trigger slot(q, c)] 0 <= q < old.ncpu implies {
            &&& new.main_of(slot(q, c)) == old.main_of(slot(q, c))
            &&& new.pushed_of(slot(q, c)) == old.pushed_of(slot(q, c))
            &&& new.trimmed_of(slot(q, c)) == old.trimmed_of(slot(q, c))
            &&& new.usage_of(slot(q, c)) == old.usage_of(slot(q, c))
        } by {
            assert(0 <= slot(q, c) < old.cache.list@.len()) by (nonlinear_arith)
                requires
                    0 <= q < old.ncpu,
                    0 <= c < NUM_SIZE_CLASSES,
                    old.cache.list@.len() == old.ncpu * NUM_SIZE_CLASSES,
            ;
            assert(slot(q, c) != slot(v, class)) by (nonlinear_arith)
                requires
                    0 <= c < NUM_SIZE_CLASSES,
                    0 <= class < NUM_SIZE_CLASSES,
                    c != class,
            ;
        }
    }
}

/// Blocks pushed on the first stack of a CPU come back, in the same order,
/// from the next pop of as many blocks of that class on that CPU, and the
/// cache is then as it was before the push (unless the slot's count had
/// wrapped around).
pub proof fn law_push_then_pop(
    c0: &InterConnectCache,
    c1: &InterConnectCache,
    c2: &InterConnectCache,
    class: int,
    cpu: int,
    batch: Seq<OxHeader>,
    need_pushed: bool,
    r: Option<Vec<OxHeader>>,
)
    requires
        c0.wf(),
        c0.ready(),
        0 <= class < NUM_SIZE_CLASSES,
        0 <= cpu < c0.ncpu,
        batch.len() > 0,
        c0.usage_of(slot(cpu, class)) + batch.len() <= usize::MAX,
        InterConnectCache::push_effect(c0, c1, class, cpu, batch, false, false),
        InterConnectCache::pop_effect(c1, c2, class, batch.len() as int, cpu, need_pushed, r),
    ensures
        r matches Some(v) && v@ == batch,
        InterConnectCache::contents_same(c0, c2),
{
    let i = slot(cpu, class);
    let n = c0.ncpu as int;
    assert(cpu * 18 + class < n * 18) by (nonlinear_arith)
        requires
            0 <= cpu < n,
            0 <= class < 18,
    ;
    assert(c1.main_of(i) == batch + c0.main_of(i));
    assert(c1.source(class, cpu, need_pushed) == 0);
    let l = c1.main_of(i);
    assert(l.take(batch.len() as int) =~= batch);
    assert(l.skip(batch.len() as int) =~= c0.main_of(i));
    assert(c2.cache.usage@ =~= c0.cache.usage@);
}


impl InterConnectCache {
    /// Some CPU's stacks would give blocks of `class` to a pop.
    pub open spec fn has_blocks(&self, class: int, need_pushed: bool) -> bool {
        exists|c: int| 0 <= c < self.ncpu && #[trigger] self.source(class, c, need_pushed) >= 0
    }

    /// A search that starts on any CPU visits every CPU.
    pub proof fn lemma_victims_cover(&self, cpu: int, c: int)
        requires
            self.wf(),
            self.ready(),
            0 <= cpu < self.ncpu,
            0 <= c < self.ncpu,
        ensures
            exists|j: int| 0 <= j < self.victims(cpu).len() && #[trigger] self.victims(cpu)[j] == c,
    {
        let vs = self.victims(cpu);
        let n = self.ncpu as int;
        if c == cpu {
            assert(vs[0] == c);
        } else {
            let node = self.cpu_to_node@[cpu];
            let near = if self.node_count > 1 && node < self.node_count {
                self.node_cpus@.subrange(self.node_offsets@[node as int] as int, self.node_offsets@[node + 1] as int)
            } else {
                Seq::<usize>::empty()
            };
            let tail = Seq::new((self.ncpu - 1) as nat, |k: int| ((cpu + k + 1) % n) as usize);
            let k = if c > cpu { c - cpu - 1 } else { c + n - cpu - 1 };
            assert(0 <= k < n - 1);
            assert(cpu + k + 1 == c || cpu + k + 1 == c + n);
            assert((cpu + k + 1) % n == c) by (nonlinear_arith)
                requires
                    cpu + k + 1 == c || cpu + k + 1 == c + n,
                    0 <= c < n,
            ;
            assert(tail[k] == c);
            let j = 1 + near.len() + k;
            assert(vs == seq![cpu as usize] + near + tail);
            assert(vs[j] == tail[k]);
        }
    }

    /// A search from any CPU finds blocks of `class` when some CPU has them.
    pub proof fn lemma_found_when_some(&self, cpu: int, class: int, need_pushed: bool)
        requires
            self.wf(),
            self.ready(),
            0 <= cpu < self.ncpu,
            self.has_blocks(class, need_pushed),
        ensures
            exists|j: int| #[trigger] self.found(self.victims(cpu), j, class, need_pushed),
    {
        let c = choose|c: int| 0 <= c < self.ncpu && #[trigger] self.source(class, c, need_pushed) >= 0;
        self.lemma_victims_cover(cpu, c);
        let vs = self.victims(cpu);
        let j = choose|j: int| 0 <= j < vs.len() && #[trigger] vs[j] == c;
        assert(self.found(vs, j, class, need_pushed));
    }
}


/// Blocks pushed on a CPU's first stack can be found by a search for their
/// class from any CPU (so an allocation of that class whose thread cache is
/// empty is served), unless the slot's count wrapped around.
pub proof fn law_pushed_blocks_are_found(
    c0: &InterConnectCache,
    c1: &InterConnectCache,
    class: int,
    cpu: int,
    batch: Seq<OxHeader>,
)
    requires
        c0.wf(),
        c0.ready(),
        0 <= class < NUM_SIZE_CLASSES,
        0 <= cpu < c0.ncpu,
        batch.len() > 0,
        c0.usage_of(slot(cpu, class)) + batch.len() <= usize::MAX,
        InterConnectCache::push_effect(c0, c1, class, cpu, batch, false, false),
    ensures
        c1.has_blocks(class, false),
{
    let i = slot(cpu, class);
    let n = c0.ncpu as int;
    assert(cpu * 18 + class < n * 18) by (nonlinear_arith)
        requires
            0 <= cpu < n,
            0 <= class < 18,
    ;
    assert(c1.main_of(i) == batch + c0.main_of(i));
    assert(c1.source(class, cpu, false) == 0);
}

} // verus!
