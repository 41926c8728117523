//! The allocator as one value: its shared state, and the entry points that
//! serve and align allocations.
use crate::big_allocation::{big_malloc, big_total, fits, BigAllocMap, BigFreeCache, BIG_CACHE_SLOTS};
use crate::inner::memalign::{aligned_block, holds_aligned, served_from_stack, AlignedBlock, TAG_SIZE};
use crate::inner::serve::{
    alloc_route, allocate_hot, apart, blocks_apart, split_donor, held_blocks, law_served_apart_from_pool, lemma_pool_take, pool, route_of, AllocRoute, BootState,
    BATCH_MAX, WARMUP_ALLOCATIONS,
};
use crate::slab::interconnect::InterConnectCache;
use crate::slab::thread_local::ThreadLocalEngine;
use crate::slab::NUM_SIZE_CLASSES;
use crate::sys::numa::{NumaMaps, MAX_CPUS};
use crate::sys::Kernel;
use crate::trim::TrimState;
use crate::va::is_pow2;
use crate::va::space::{AddressSpace, MAX_RESERVATION_CAP};
use crate::{OxHeader, OxidallocError, HEADER_SIZE};
use vstd::prelude::*;

verus! {

/// The outcome of an allocation: the payload address (none when memory
/// ran out), and whether the caller must now start the trimming thread.
#[derive(Clone, Copy, Debug, PartialEq, Eq, Structural)]
pub struct AllocResult {
    pub ptr: Option<u64>,
    pub spawn_trimmer: bool,
}

/// The allocator's shared state.
pub struct Oxidalloc {
    pub icc: InterConnectCache,
    pub space: AddressSpace,
    pub hints: Vec<usize>,
    pub boot: BootState,
    pub big_cache: BigFreeCache,
    pub big_map: BigAllocMap,
    pub trim: TrimState,
    pub magic: u8,
    pub freed_magic: u8,
    pub force_thp: bool,
    pub disable_thp: bool,
    pub trim_enabled: bool,
}

impl Oxidalloc {
    pub open spec fn wf(&self) -> bool {
        &&& self.icc.wf()
        &&& self.icc.ready()
        &&& self.space.wf()
        &&& self.hints@.len() == NUM_SIZE_CLASSES
        &&& self.big_cache.wf()
        &&& self.big_map.wf()
    }

    /// A fresh allocator for `ncpu` CPUs and the NUMA topology, if known,
    /// with address-space reservations of `max_reservation` bytes, searches
    /// seeded by `seed`, and the given magic values.
    pub fn new(seed: u64, max_reservation: u64, ncpu: usize, maps: Option<NumaMaps>, magic: u8, freed_magic: u8) -> (a: Self)
        requires
            max_reservation <= MAX_RESERVATION_CAP,
            ncpu <= MAX_CPUS,
            maps matches Some(m) ==> m.wf(),
        ensures
            a.wf(),
            a.icc.classes_ok(),
            a.magic == magic,
            a.freed_magic == freed_magic,
            !a.boot.hot_ready,
    {
        let mut icc = InterConnectCache::new();
        icc.ensure_cache(ncpu, maps);
        let mut hints: Vec<usize> = Vec::new();
        let mut i: usize = 0;
        while i < NUM_SIZE_CLASSES
            invariant
                i <= NUM_SIZE_CLASSES,
                hints@.len() == i,
            decreases NUM_SIZE_CLASSES - i,
        {
            hints.push(BATCH_MAX);
            i = i + 1;
        }
        proof {
            assert forall|cpu: int, c: int| #![trigger crate::slab::interconnect::slot(cpu, c)]
                0 <= cpu < icc.ncpu && 0 <= c < NUM_SIZE_CLASSES implies {
                &&& crate::slab::interconnect::all_class(icc.main_of(crate::slab::interconnect::slot(cpu, c)), c)
                &&& crate::slab::interconnect::all_class(icc.pushed_of(crate::slab::interconnect::slot(cpu, c)), c)
                &&& crate::slab::interconnect::all_class(icc.trimmed_of(crate::slab::interconnect::slot(cpu, c)), c)
            } by {
                assert(0 <= crate::slab::interconnect::slot(cpu, c) < icc.cache.list@.len()) by (nonlinear_arith)
                    requires
                        0 <= cpu < icc.ncpu,
                        0 <= c < NUM_SIZE_CLASSES,
                        icc.cache.list@.len() == icc.ncpu * NUM_SIZE_CLASSES,
                ;
                let i = crate::slab::interconnect::slot(cpu, c);
                assert(icc.main_of(i).len() == 0);
            }
        }
        Oxidalloc {
            icc,
            space: AddressSpace::new(seed, max_reservation),
            hints,
            boot: BootState::new(),
            big_cache: BigFreeCache::new(),
            big_map: BigAllocMap::new(),
            trim: TrimState::new(),
            magic,
            freed_magic,
            force_thp: false,
            disable_thp: false,
            trim_enabled: true,
        }
    }

    /// Serves an allocation of `size` bytes for the thread whose cache is
    /// `thread`: a slab block of the size's class (see `allocate_hot`), a
    /// big allocation (see `big_malloc`), or nothing for more than 3 GiB.
    /// During start-up each slab allocation is counted, and the 1025th asks
    /// for the trimming thread. The address returned is that of the payload,
    /// 16 bytes past the block's header.
    pub fn alloc_inner<K: Kernel>(&mut self, thread: &mut ThreadLocalEngine, os: &mut K, size: usize) -> (r: Result<AllocResult, OxidallocError>)
        requires
            old(self).wf(),
            old(thread).wf(),
        ensures
            final(self).wf(),
            final(thread).wf(),
            route_of(size) == AllocRoute::TooLarge ==> r == Ok::<AllocResult, OxidallocError>(AllocResult { ptr: None, spawn_trimmer: false }),
            route_of(size) == AllocRoute::TooLarge ==> *final(self) == *old(self) && *final(thread) == *old(thread),
            route_of(size) == AllocRoute::Big && (exists|i: int| 0 <= i < BIG_CACHE_SLOTS
                && #[trigger] fits(old(self).big_cache.data@, i, big_total(size as u64, old(self).force_thp)))
                ==> (r matches Ok(res) && res.ptr is Some),
            route_of(size) matches AllocRoute::Slab(c) ==> (old(thread).bin(c as int).len() > 0 ==> {
                &&& r matches Ok(res) && res.ptr == Some(vstd::wrapping::u64_specs::wrapping_add(old(thread).bin(c as int)[0].addr, 16))
                &&& final(thread).bin(c as int) == old(thread).bin(c as int).drop_first()
            }),
            route_of(size) == AllocRoute::Big ==> (r matches Ok(res) ==> (res.ptr matches Some(p) ==> exists|h: u64|
                p == vstd::wrapping::u64_specs::wrapping_add(h, 16) && #[trigger] final(self).big_map.get_spec(h) == Some(size as u64))),
            route_of(size) != AllocRoute::Big ==> final(self).big_map == old(self).big_map,
            route_of(size) matches AllocRoute::Slab(c) ==> (old(self).icc.has_blocks(c as int, false)
                ==> (r matches Ok(res) && res.ptr is Some)),
        route_of(size) matches AllocRoute::Slab(c) ==> (split_donor(&old(self).icc, c as int)
                ==> (r matches Ok(res) && res.ptr is Some)),
            old(thread).classes_ok() && old(self).icc.classes_ok() ==> final(thread).classes_ok() && final(self).icc.classes_ok(),
            old(thread).classes_ok() && old(self).icc.classes_ok() ==> (route_of(size) matches AllocRoute::Slab(c)
                ==> (r matches Ok(res) ==> (res.ptr matches Some(p) ==> exists|h: OxHeader|
                    p == vstd::wrapping::u64_specs::wrapping_add(h.addr, 16) && #[trigger] h.class == c))),
            r matches Ok(res) && res.spawn_trimmer ==> !old(self).boot.hot_ready && old(self).trim_enabled,
            r matches Err(e) ==> e != OxidallocError::OutOfMemory,
            final(self).magic == old(self).magic && final(self).freed_magic == old(self).freed_magic,
            final(self).trim == old(self).trim && final(self).force_thp == old(self).force_thp,
            route_of(size) matches AllocRoute::Slab(c) ==> (old(thread).bin(c as int).len() > 0 || old(self).icc.has_blocks(c as int, false)
                ==> exists|h: OxHeader| {
                    &&& r matches Ok(res) && res.ptr == Some(vstd::wrapping::u64_specs::wrapping_add(h.addr, 16))
                    &&& held_blocks(old(self).icc, *old(thread), c as int) =~= #[trigger] held_blocks(final(self).icc, *final(thread), c as int).insert(h)
                    &&& forall|d: int| 0 <= d < NUM_SIZE_CLASSES && d != c ==> #[trigger] final(self).icc.class_blocks(d) == old(self).icc.class_blocks(d)
                    &&& pool(old(self).icc, *old(thread)) =~= pool(final(self).icc, *final(thread)).insert(h)
                    &&& blocks_apart(pool(old(self).icc, *old(thread))) ==> {
                        &&& forall|y: OxHeader| #[trigger] pool(final(self).icc, *final(thread)).count(y) > 0 ==> apart(h, y)
                        &&& blocks_apart(pool(final(self).icc, *final(thread)))
                    }
                }),
    {
        match alloc_route(size) {
            AllocRoute::TooLarge => Ok(AllocResult { ptr: None, spawn_trimmer: false }),
            AllocRoute::Big => {
                let h = big_malloc(&mut self.big_cache, &mut self.big_map, &mut self.space, os, size as u64, self.force_thp, self.disable_thp);
                match h {
                    Err(e) => Err(e),
                    Ok(None) => Ok(AllocResult { ptr: None, spawn_trimmer: false }),
                    Ok(Some(header)) => {
                        let p = header.wrapping_add(HEADER_SIZE as u64);
                        assert(p == vstd::wrapping::u64_specs::wrapping_add(header, 16)
                            && self.big_map.get_spec(header) == Some(size as u64));
                        assert(exists|hh: u64| p == vstd::wrapping::u64_specs::wrapping_add(hh, 16)
                            && #[trigger] self.big_map.get_spec(hh) == Some(size as u64));
                        Ok(AllocResult { ptr: Some(p), spawn_trimmer: false })
                    },
                }
            },
            AllocRoute::Slab(class) => {
                let mut spawn = false;
                if !self.boot.hot_ready {
                    spawn = self.boot.boot_step(self.trim_enabled);
                }
                let got = allocate_hot(thread, &mut self.icc, &mut self.space, os, &mut self.hints, class,
                    self.trim.current_stamp, self.magic, self.freed_magic, self.disable_thp);
                match got {
                    Err(e) => Err(e),
                    Ok(None) => Ok(AllocResult { ptr: None, spawn_trimmer: spawn }),
                    Ok(Some(h)) => {
                        let p = h.addr.wrapping_add(HEADER_SIZE as u64);
                        assert(p == vstd::wrapping::u64_specs::wrapping_add(h.addr, 16));
                        proof {
                            if old(thread).bin(class as int).len() > 0 || old(self).icc.has_blocks(class as int, false) {
                                let h0 = choose|h0: OxHeader| {
                                    &&& got == Ok::<Option<OxHeader>, OxidallocError>(Some(OxHeader { magic: self.magic, ..h0 }))
                                    &&& held_blocks(old(self).icc, *old(thread), class as int) =~= #[trigger] held_blocks(self.icc, *thread, class as int).insert(h0)
                                    &&& forall|c: int| 0 <= c < NUM_SIZE_CLASSES && c != class ==> #[trigger] self.icc.class_blocks(c) == old(self).icc.class_blocks(c)
                                    &&& self.space == old(self).space
                                };
                                assert(h0.addr == h.addr);
                                assert forall|d: int| 0 <= d < NUM_SIZE_CLASSES && d != class implies
                                    #[trigger] held_blocks(old(self).icc, *old(thread), d) == held_blocks(self.icc, *thread, d) by {
                                    assert(self.icc.class_blocks(d) == old(self).icc.class_blocks(d));
                                    assert(thread.bin(d) == old(thread).bin(d));
                                }
                                lemma_pool_take(old(self).icc, *old(thread), self.icc, *thread, class as int, h0, NUM_SIZE_CLASSES as int);
                                if blocks_apart(pool(old(self).icc, *old(thread))) {
                                    law_served_apart_from_pool(pool(old(self).icc, *old(thread)), pool(self.icc, *thread), h0);
                                }
                            }
                            if old(thread).classes_ok() && old(self).icc.classes_ok() {
                                assert(h.class == class);
                                assert(exists|hh: OxHeader| p == vstd::wrapping::u64_specs::wrapping_add(hh.addr, 16)
                                    && #[trigger] hh.class == class);
                            }
                        }
                        Ok(AllocResult { ptr: Some(p), spawn_trimmer: spawn })
                    },
                }
            },
        }
    }

    /// Serves a request of `size` bytes aligned to `align`, as the global
    /// allocator interface does: alignments up to 16 by `alloc_inner`,
    /// larger ones by `memalign_inner` (never asking for the trimmer).
    pub fn alloc_layout<K: Kernel>(&mut self, thread: &mut ThreadLocalEngine, os: &mut K, size: usize, align: usize) -> (r: Result<AllocResult, OxidallocError>)
        requires
            old(self).wf(),
            old(thread).wf(),
        ensures
            final(self).wf(),
            final(thread).wf(),
            align <= 16 && route_of(size) == AllocRoute::TooLarge ==> r == Ok::<AllocResult, OxidallocError>(AllocResult { ptr: None, spawn_trimmer: false }),
            align > 16 ==> (r matches Ok(res) ==> !res.spawn_trimmer && (res.ptr matches Some(p) ==> p % (align as u64) == 0)),
            r matches Err(e) ==> e != OxidallocError::OutOfMemory,
            align <= 16 ==> (route_of(size) matches AllocRoute::Slab(c) ==> (old(thread).bin(c as int).len() > 0 ==> {
                &&& r matches Ok(res) && res.ptr == Some(vstd::wrapping::u64_specs::wrapping_add(old(thread).bin(c as int)[0].addr, 16))
                &&& final(thread).bin(c as int) == old(thread).bin(c as int).drop_first()
            })),
            align <= 16 ==> (route_of(size) matches AllocRoute::Slab(c) ==> (old(self).icc.has_blocks(c as int, false)
                ==> (r matches Ok(res) && res.ptr is Some))),
            align > 16 && !is_pow2(align as u64) ==> r == Ok::<AllocResult, OxidallocError>(AllocResult { ptr: None, spawn_trimmer: false }),
            align > 16 && is_pow2(align as u64) && size + align + TAG_SIZE > usize::MAX
                ==> r == Ok::<AllocResult, OxidallocError>(AllocResult { ptr: None, spawn_trimmer: false }),
            align > 16 ==> (r matches Ok(res) ==> (res.ptr matches Some(p) ==> exists|b: AlignedBlock|
                #[trigger] b.aligned == p && holds_aligned(*final(self), *old(thread), *old(self), b, align as u64, size as u64))),
            align > 16 && is_pow2(align as u64) && served_from_stack(*old(thread), size + align + TAG_SIZE, align as u64)
                ==> r == Ok::<AllocResult, OxidallocError>(AllocResult {
                    ptr: Some(aligned_block(old(thread).bin(route_of((size + align + TAG_SIZE) as usize)->0 as int)[0].addr, align as u64).aligned),
                    spawn_trimmer: false,
                }),
    {
        if align <= 16 {
            self.alloc_inner(thread, os, size)
        } else {
            match self.memalign_inner(thread, os, align as u64, size as u64) {
                Err(e) => Err(e),
                Ok(None) => Ok(AllocResult { ptr: None, spawn_trimmer: false }),
                Ok(Some(b)) => Ok(AllocResult { ptr: Some(b.aligned), spawn_trimmer: false }),
            }
        }
    }

    /// Brings the child of a `fork` back to a usable state: every lock is
    /// released, and start-up is to be redone (the trimming thread did not
    /// survive the fork).
    pub fn fork_child(&mut self)
        requires
            old(self).wf(),
        ensures
            final(self).wf(),
            final(self).boot.total_malloc_free == WARMUP_ALLOCATIONS,
            !final(self).boot.thread_spawned,
            !final(self).boot.hot_ready,
            !final(self).big_cache.lock.is_locked(),
            final(self).big_cache.data@ == old(self).big_cache.data@,
            final(self).big_map == old(self).big_map,
            final(self).space.map.len() == old(self).space.map.len(),
            forall|a: u64| #[trigger] final(self).space.map.owns(a) == old(self).space.map.owns(a),
            final(self).icc == old(self).icc,
            final(self).trim == old(self).trim,
    {
        self.boot.reset_fork_thread_state();
        self.big_cache.lock.reset_on_fork();
        self.space.map.reset_fork_locks();
    }
}

} // verus!
