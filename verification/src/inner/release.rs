//! Releasing blocks, zeroed arrays, resizing, and the bytes a pointer may
//! use. The header of a block lies 16 bytes below the address handed out;
//! an aligned address carries a tag 16 bytes below it and the address of
//! its allocation 8 bytes below it.
use crate::abi::{array_bytes, usable_size, BIG_CLASS_TAG};
use crate::big_allocation::{big_free, big_total, first_empty, grow_in_place, grown_in_place, room_after, shrink_in_place, shrunk_in_place, BigFreeBlock, BIG_CACHE_SLOTS};
use crate::inner::global_alloc::{AllocResult, Oxidalloc};
use crate::inner::serve::{apart, blocks_apart, held_blocks, law_release_keeps_pool_apart, lemma_pool_take, pool};
use crate::slab::census::{lemma_class_same_blocks, lemma_push_blocks};
use crate::slab::global::GlobalHandler;
use crate::slab::interconnect::InterConnectCache;
use crate::slab::thread_local::ThreadLocalEngine;
use crate::slab::{NUM_SIZE_CLASSES, SIZE_CLASSES, TLS_MAX_BLOCKS};
use crate::sys::{Kernel, NOMEM};
use crate::{OxHeader, OxidallocError, OX_ALIGN_TAG};
use vstd::multiset::Multiset;
use vstd::prelude::*;

verus! {

/// What a release did.
#[derive(Clone, Copy, Debug, PartialEq, Eq, Structural)]
pub enum FreeOutcome {
    /// Nothing: the pointer is null or lies outside the allocator's
    /// address space (it belongs to another allocator).
    Foreign,
    /// A big allocation went to the cache of big blocks.
    Big,
    /// A slab block went on top of the thread's stack, with this header.
    Cached(OxHeader),
    /// The thread's stack of the class was full: the block went to the
    /// shared cache, with this header.
    Shared(OxHeader),
}

/// The header a released slab block carries: marked free, stamped now.
pub open spec fn released_header(header: u64, class: u8, freed_magic: u8, stamp: u32) -> OxHeader {
    OxHeader { addr: header, class, magic: freed_magic, life_time: stamp }
}

/// What a resize did.
#[derive(Clone, Copy, Debug, PartialEq, Eq, Structural)]
pub enum ReallocOutcome {
    /// There was no block: a new one was asked for.
    Fresh(AllocResult),
    /// The size asked for is zero: the block was released.
    Released(FreeOutcome),
    /// The block's class holds the new size: the block stays where it is.
    Kept,
    /// The big block was resized where it lies: it grew over the free
    /// blocks right after it, or gave back the blocks past its new end.
    Resized,
    /// A new block was handed out at `ptr`; the caller copies `copy` bytes
    /// over before anything else, and the old block was released.
    Moved { ptr: u64, copy: u64, spawn_trimmer: bool },
    /// No new block could be had: the old one stays as it was.
    Failed,
}

/// The payload bytes of the block whose header lies at `header` and reads
/// `class`: its class's size, or the size recorded for a big block.
pub open spec fn payload_of(big: Option<u64>, class: u8) -> Option<u64> {
    if class == BIG_CLASS_TAG { big } else if class < NUM_SIZE_CLASSES { Some(SIZE_CLASSES[class as int] as u64) } else { None }
}

impl Oxidalloc {
    /// Where the header of the block handed out at `p` lies, when `p` is in
    /// the allocator's address space: `p` itself stands for the block, or,
    /// when the tag read below `p` is the aligned tag and the address read
    /// below it is also ours, that address does.
    pub fn header_of(&self, p: u64, tag_word: u64, raw_word: u64) -> (r: Option<u64>)
        requires
            self.wf(),
        ensures
            !(p >= 16 && self.space.map.owns(p)) ==> r is None,
            p >= 16 && self.space.map.owns(p) ==> r == Some(
                if tag_word == OX_ALIGN_TAG && raw_word >= 16 && self.space.map.owns(raw_word) {
                    (raw_word - 16) as u64
                } else {
                    (p - 16) as u64
                },
            ),
    {
        if p < 16 || !self.space.map.is_ours(p) {
            return None;
        }
        if tag_word == OX_ALIGN_TAG && raw_word >= 16 && self.space.map.is_ours(raw_word) {
            Some(raw_word - 16)
        } else {
            Some(p - 16)
        }
    }

    /// The class and magic to write in the header of a block just handed
    /// out for `size` bytes: its slab class, or the big tag.
    pub fn header_class(&self, size: usize) -> (r: (u8, u8))
        ensures
            r.1 == self.magic,
            crate::inner::serve::route_of(size) matches crate::inner::serve::AllocRoute::Slab(c) ==> r.0 == c,
            !(crate::inner::serve::route_of(size) is Slab) ==> r.0 == BIG_CLASS_TAG,
    {
        match crate::inner::serve::alloc_route(size) {
            crate::inner::serve::AllocRoute::Slab(c) => (c as u8, self.magic),
            _ => (BIG_CLASS_TAG, self.magic),
        }
    }

    /// Releases the block whose header lies at `header` and reads `class`
    /// and `magic`. A big block (the big tag) goes to the cache of big
    /// blocks. A slab block marked in use is marked free, stamped now, and
    /// goes on top of the thread's stack of its class while that holds
    /// fewer blocks than its limit, else to the shared cache. Any other
    /// header (an unknown class, a block already free or overwritten) is a
    /// fatal corruption, with nothing changed.
    #[verifier::spinoff_prover]
    pub fn free_inner<K: Kernel>(&mut self, thread: &mut ThreadLocalEngine, os: &mut K, header: u64, class: u8, magic: u8) -> (r: Result<FreeOutcome, OxidallocError>)
        requires
            old(self).wf(),
            old(thread).wf(),
        ensures
            final(self).wf(),
            final(thread).wf(),
            class == BIG_CLASS_TAG ==> {
                &&& *final(thread) == *old(thread)
                &&& final(self).icc == old(self).icc
                &&& (r is Err <==> old(self).big_map.get_spec(header) is None
                    || header + big_total(old(self).big_map.get_spec(header).unwrap(), old(self).force_thp) > u64::MAX)
                &&& r matches Err(e) ==> e == OxidallocError::AttackOrCorruption && final(self).big_cache.data@ == old(self).big_cache.data@
                &&& r is Ok ==> {
                    let blk = Some(BigFreeBlock { ptr: header, total_size: big_total(old(self).big_map.get_spec(header).unwrap(), old(self).force_thp) });
                    &&& r == Ok::<FreeOutcome, OxidallocError>(FreeOutcome::Big)
                    &&& final(self).big_map.get_spec(header) is None
                    &&& forall|k: u64| k != header ==> #[trigger] final(self).big_map.get_spec(k) == old(self).big_map.get_spec(k)
                    &&& forall|j: int| #[trigger] first_empty(old(self).big_cache.data@, j) ==> final(self).big_cache.data@ == old(self).big_cache.data@.update(j, blk)
                    &&& (forall|i: int| 0 <= i < BIG_CACHE_SLOTS ==> #[trigger] old(self).big_cache.data@[i] is Some)
                        ==> final(self).big_cache.data@ == old(self).big_cache.data@.drop_first().push(blk)
                }
            },
            class != BIG_CLASS_TAG && (class >= NUM_SIZE_CLASSES || magic != old(self).magic) ==> {
                &&& r == Err::<FreeOutcome, OxidallocError>(if magic == old(self).freed_magic {
                    OxidallocError::DoubleFree
                } else {
                    OxidallocError::MemoryCorruption
                })
                &&& *final(self) == *old(self)
                &&& *final(thread) == *old(thread)
            },
            class < NUM_SIZE_CLASSES && magic == old(self).magic ==> {
                let h = released_header(header, class, old(self).freed_magic, old(self).trim.current_stamp);
                &&& pool(final(self).icc, *final(thread)) =~= pool(old(self).icc, *old(thread)).insert(h)
                &&& blocks_apart(pool(old(self).icc, *old(thread)))
                    && (forall|y: OxHeader| #[trigger] pool(old(self).icc, *old(thread)).count(y) > 0 ==> apart(h, y))
                    ==> blocks_apart(pool(final(self).icc, *final(thread)))
                &&& final(self).space == old(self).space
                &&& final(self).big_map == old(self).big_map
                &&& old(thread).bin(class as int).len() < TLS_MAX_BLOCKS[class as int] ==> {
                    &&& r == Ok::<FreeOutcome, OxidallocError>(FreeOutcome::Cached(h))
                    &&& final(thread).bin(class as int) == seq![h] + old(thread).bin(class as int)
                    &&& final(self).icc == old(self).icc
                }
                &&& old(thread).bin(class as int).len() >= TLS_MAX_BLOCKS[class as int] ==> {
                    &&& r == Ok::<FreeOutcome, OxidallocError>(FreeOutcome::Shared(h))
                    &&& *final(thread) == *old(thread)
                    &&& exists|cpu: int| 0 <= cpu < old(self).icc.ncpu && #[trigger] InterConnectCache::push_effect(
                        &old(self).icc, &final(self).icc, class as int, cpu, seq![h], false, false)
                }
            },
    {
        if class == BIG_CLASS_TAG {
            let r = big_free(&mut self.big_cache, &mut self.big_map, &mut self.space, os, header, self.force_thp, self.disable_thp);
            return match r {
                Err(e) => Err(e),
                Ok(()) => Ok(FreeOutcome::Big),
            };
        }
        if class as usize >= NUM_SIZE_CLASSES || magic != self.magic {
            if magic == self.freed_magic {
                return Err(OxidallocError::DoubleFree);
            }
            return Err(OxidallocError::MemoryCorruption);
        }
        let c = class as usize;
        let h = OxHeader { addr: header, class, magic: self.freed_magic, life_time: self.trim.current_stamp };
        let ghost icc0 = self.icc;
        let ghost th0 = *thread;
        proof {
            crate::slab::lemma_class_bounds(c as int);
            assert(thread.tls@[c as int].wf());
            assert(th0.bin(c as int).len() == thread.tls@[c as int].usage);
        }
        let limit = TLS_MAX_BLOCKS[c];
        assert(limit == TLS_MAX_BLOCKS[c as int]);
        if thread.tls[c].usage < limit {
            proof {
                assert(thread.tls@[c as int].wf());
            }
            thread.push_to_thread(c, h);
            proof {
                broadcast use vstd::multiset::group_multiset_axioms;
                vstd::seq_lib::lemma_multiset_commutative(seq![h], th0.bin(c as int));
                assert(seq![h].to_multiset() =~= Multiset::<OxHeader>::empty().insert(h)) by {
                    broadcast use vstd::seq_lib::to_multiset_build;
                    assert(seq![h] =~= Seq::<OxHeader>::empty().push(h));
                    crate::slab::census::lemma_no_blocks(Seq::<OxHeader>::empty());
                }
                assert(held_blocks(self.icc, *thread, c as int) =~= held_blocks(icc0, th0, c as int).insert(h));
                assert forall|d: int| 0 <= d < NUM_SIZE_CLASSES && d != c implies
                    #[trigger] held_blocks(self.icc, *thread, d) == held_blocks(icc0, th0, d) by {
                    assert(thread.bin(d) == th0.bin(d));
                }
                lemma_pool_take(self.icc, *thread, icc0, th0, c as int, h, NUM_SIZE_CLASSES as int);
                if blocks_apart(pool(icc0, th0)) && (forall|y: OxHeader| #[trigger] pool(icc0, th0).count(y) > 0 ==> apart(h, y)) {
                    law_release_keeps_pool_apart(pool(icc0, th0), pool(self.icc, *thread), h);
                }
            }
            Ok(FreeOutcome::Cached(h))
        } else {
            let mut one: Vec<OxHeader> = Vec::new();
            one.push(h);
            let ghost ov = one@;
            GlobalHandler.push_to_global(&mut self.icc, c, one, false, false);
            proof {
                broadcast use vstd::multiset::group_multiset_axioms;
                assert(ov == seq![h]);
                let cpu = choose|cpu: int| 0 <= cpu < icc0.ncpu
                    && #[trigger] InterConnectCache::push_effect(&icc0, &self.icc, c as int, cpu, ov, false, false);
                lemma_push_blocks(&icc0, &self.icc, c as int, cpu, ov, false, false);
                assert(ov.to_multiset() =~= Multiset::<OxHeader>::empty().insert(h)) by {
                    broadcast use vstd::seq_lib::to_multiset_build;
                    assert(ov =~= Seq::<OxHeader>::empty().push(h));
                    crate::slab::census::lemma_no_blocks(Seq::<OxHeader>::empty());
                }
                assert(held_blocks(self.icc, *thread, c as int) =~= held_blocks(icc0, th0, c as int).insert(h));
                assert forall|d: int| 0 <= d < NUM_SIZE_CLASSES && d != c implies
                    #[trigger] held_blocks(self.icc, *thread, d) == held_blocks(icc0, th0, d) by {
                    InterConnectCache::lemma_push_frame(&icc0, &self.icc, c as int, cpu, ov, false, false, d);
                    lemma_class_same_blocks(&icc0, &self.icc, d);
                }
                lemma_pool_take(self.icc, *thread, icc0, th0, c as int, h, NUM_SIZE_CLASSES as int);
                assert(InterConnectCache::push_effect(&icc0, &self.icc, c as int, cpu, seq![h], false, false));
                if blocks_apart(pool(icc0, th0)) && (forall|y: OxHeader| #[trigger] pool(icc0, th0).count(y) > 0 ==> apart(h, y)) {
                    law_release_keeps_pool_apart(pool(icc0, th0), pool(self.icc, *thread), h);
                }
            }
            Ok(FreeOutcome::Shared(h))
        }
    }
}

impl Oxidalloc {
    /// The bytes usable at a pointer `offset` bytes past the payload of the
    /// block whose header lies at `header` and reads `class`. An unknown
    /// class, or a big block without a record, is a fatal corruption.
    pub fn usable_size_of(&self, header: u64, class: u8, offset: u64) -> (r: Result<u64, OxidallocError>)
        requires
            self.wf(),
        ensures
            payload_of(self.big_map.get_spec(header), class) is None ==> r is Err,
            payload_of(self.big_map.get_spec(header), class) matches Some(p) ==> r == Ok::<u64, OxidallocError>(
                if p >= offset { (p - offset) as u64 } else { 0u64 }),
    {
        if class != BIG_CLASS_TAG && class as usize >= NUM_SIZE_CLASSES {
            return Err(OxidallocError::MemoryCorruption);
        }
        let big = if class == BIG_CLASS_TAG { self.big_map.get(header) } else { None };
        usable_size(class, big, offset)
    }

    /// Serves `nmemb` elements of `size` bytes, for the caller to zero;
    /// `ENOMEM`, with nothing changed, when the product does not fit.
    pub fn calloc_inner<K: Kernel>(&mut self, thread: &mut ThreadLocalEngine, os: &mut K, nmemb: u64, size: u64) -> (r: Result<Result<AllocResult, i32>, OxidallocError>)
        requires
            old(self).wf(),
            old(thread).wf(),
        ensures
            final(self).wf(),
            final(thread).wf(),
            nmemb * size > usize::MAX ==> r == Ok::<Result<AllocResult, i32>, OxidallocError>(Err(NOMEM))
                && *final(self) == *old(self) && *final(thread) == *old(thread),
            nmemb * size <= usize::MAX ==> (r matches Ok(res) ==> res is Ok),
            nmemb * size <= usize::MAX ==> (crate::inner::serve::route_of((nmemb * size) as usize) matches crate::inner::serve::AllocRoute::Slab(c)
                ==> (old(thread).bin(c as int).len() > 0 ==> {
                    &&& r matches Ok(Ok(res)) && res.ptr == Some(vstd::wrapping::u64_specs::wrapping_add(old(thread).bin(c as int)[0].addr, 16))
                    &&& final(thread).bin(c as int) == old(thread).bin(c as int).drop_first()
                })),
            nmemb * size <= usize::MAX && crate::inner::serve::route_of((nmemb * size) as usize) == crate::inner::serve::AllocRoute::Big
                ==> (r matches Ok(Ok(res)) ==> (res.ptr matches Some(p) ==> exists|h: u64|
                    p == vstd::wrapping::u64_specs::wrapping_add(h, 16) && #[trigger] final(self).big_map.get_spec(h) == Some((nmemb * size) as u64))),
            nmemb * size <= usize::MAX && old(thread).classes_ok() && old(self).icc.classes_ok()
                ==> (crate::inner::serve::route_of((nmemb * size) as usize) matches crate::inner::serve::AllocRoute::Slab(c)
                ==> (r matches Ok(Ok(res)) ==> (res.ptr matches Some(p) ==> exists|h: OxHeader|
                    p == vstd::wrapping::u64_specs::wrapping_add(h.addr, 16) && #[trigger] h.class == c
                    && nmemb * size <= SIZE_CLASSES[c as int]))),
            nmemb * size <= usize::MAX && crate::inner::serve::route_of((nmemb * size) as usize) == crate::inner::serve::AllocRoute::TooLarge
                ==> r == Ok::<Result<AllocResult, i32>, OxidallocError>(Ok(AllocResult { ptr: None, spawn_trimmer: false }))
                    && *final(self) == *old(self) && *final(thread) == *old(thread),
    {
        let total = match array_bytes(nmemb, size) {
            Err(e) => return Ok(Err(e)),
            Ok(t) => t,
        };
        if total > usize::MAX as u64 {
            return Ok(Err(NOMEM));
        }
        proof {
            crate::inner::serve::law_route_holds_request(total as usize);
        }
        match self.alloc_inner(thread, os, total as usize) {
            Err(e) => Err(e),
            Ok(res) => Ok(Ok(res)),
        }
    }

    /// Resizes the block whose header lies at `header` (none for a null
    /// pointer) and reads `class` and `magic` to `new_size` bytes: a null
    /// pointer gets a new block, a zero size releases the block, a slab
    /// block whose class is the class of the new size stays, a big block
    /// that stays big is first resized where it lies, and otherwise
    /// a new block is handed out, `min(payload, new_size)` bytes are to be
    /// copied, and the old block is released. A header that is not a block
    /// in use is a fatal corruption, with nothing changed.
    pub fn realloc_inner<K: Kernel>(
        &mut self,
        thread: &mut ThreadLocalEngine,
        os: &mut K,
        header: Option<u64>,
        class: u8,
        magic: u8,
        new_size: usize,
    ) -> (r: Result<ReallocOutcome, OxidallocError>)
        requires
            old(self).wf(),
            old(thread).wf(),
        ensures
            final(self).wf(),
            final(thread).wf(),
            header is None ==> (r matches Ok(o) ==> o is Fresh),
            header matches Some(hd) ==> (new_size == 0 ==> (r matches Ok(o) ==> o is Released)),
            header is Some && new_size != 0 && payload_of(old(self).big_map.get_spec(header.unwrap()), class) is None
                ==> r is Err && *final(self) == *old(self) && *final(thread) == *old(thread),
            header is Some && new_size != 0 && class != BIG_CLASS_TAG && magic != old(self).magic
                ==> r is Err && *final(self) == *old(self) && *final(thread) == *old(thread),
            header is Some && new_size != 0 && class < NUM_SIZE_CLASSES && magic == old(self).magic
                && crate::inner::serve::route_of(new_size) == crate::inner::serve::AllocRoute::Slab(class as usize)
                ==> r == Ok::<ReallocOutcome, OxidallocError>(ReallocOutcome::Kept) && *final(self) == *old(self) && *final(thread) == *old(thread),
            r == Ok::<ReallocOutcome, OxidallocError>(ReallocOutcome::Kept) ==> header is Some && class < NUM_SIZE_CLASSES
                && magic == old(self).magic && 0 < new_size <= SIZE_CLASSES[class as int]
                && crate::inner::serve::route_of(new_size) == crate::inner::serve::AllocRoute::Slab(class as usize),
            r == Ok::<ReallocOutcome, OxidallocError>(ReallocOutcome::Resized) ==> {
                let hd = header.unwrap();
                let p = old(self).big_map.get_spec(hd).unwrap();
                &&& header is Some && class == BIG_CLASS_TAG
                &&& old(self).big_map.get_spec(hd) is Some
                &&& crate::inner::serve::route_of(new_size) == crate::inner::serve::AllocRoute::Big
                &&& final(self).big_map.get_spec(hd) == Some(new_size as u64)
                &&& forall|k: u64| k != hd ==> #[trigger] final(self).big_map.get_spec(k) == old(self).big_map.get_spec(k)
                &&& final(self).icc == old(self).icc && final(self).big_cache == old(self).big_cache && *final(thread) == *old(thread)
                &&& forall|a: u64| #[trigger] final(self).space.map.owns(a) == old(self).space.map.owns(a)
                &&& forall|j: int| 0 <= j < old(self).space.map.len() ==> if old(self).space.map.seg(j).start() <= hd < old(self).space.map.seg(j).end() {
                    if p < new_size {
                        grown_in_place(&old(self).space.map.seg(j), &#[trigger] final(self).space.map.seg(j), hd, p, new_size as u64, old(self).force_thp)
                    } else {
                        shrunk_in_place(&old(self).space.map.seg(j), &final(self).space.map.seg(j), hd, p, new_size as u64, old(self).force_thp)
                    }
                } else {
                    final(self).space.map.seg(j) == old(self).space.map.seg(j)
                }
            },
            header is Some && new_size != 0 && class == BIG_CLASS_TAG && old(self).big_map.get_spec(header.unwrap()) is Some
                && crate::inner::serve::route_of(new_size) == crate::inner::serve::AllocRoute::Big
                && ({
                    let hd = header.unwrap();
                    let p = old(self).big_map.get_spec(hd).unwrap();
                    let ob = (big_total(p, old(self).force_thp) + 4095) / 4096;
                    let nb = (big_total(new_size as u64, old(self).force_thp) + 4095) / 4096;
                    ||| nb == ob
                    ||| nb < ob && hd + big_total(p, old(self).force_thp) <= u64::MAX
                        && old(self).space.map.span_in_words(hd, big_total(p, old(self).force_thp))
                })
                ==> r == Ok::<ReallocOutcome, OxidallocError>(ReallocOutcome::Resized),
            r == Ok::<ReallocOutcome, OxidallocError>(ReallocOutcome::Resized) ==> ({
                let hd = header.unwrap();
                let p = old(self).big_map.get_spec(hd).unwrap();
                let ob = (big_total(p, old(self).force_thp) + 4095) / 4096;
                let nb = (big_total(new_size as u64, old(self).force_thp) + 4095) / 4096;
                ob < nb ==> hd + big_total(new_size as u64, old(self).force_thp) <= u64::MAX
                    && room_after(&old(self).space.map, hd, p, new_size as u64, old(self).force_thp)
            }),
            header is Some && new_size != 0 && class < NUM_SIZE_CLASSES && magic == old(self).magic
                && crate::inner::serve::route_of(new_size) is Slab
                && crate::inner::serve::route_of(new_size)->Slab_0 != class as usize
                && old(thread).bin(crate::inner::serve::route_of(new_size)->Slab_0 as int).len() > 0
                ==> (r matches Ok(ReallocOutcome::Moved { ptr, copy, .. })
                    && ptr == vstd::wrapping::u64_specs::wrapping_add(old(thread).bin(crate::inner::serve::route_of(new_size)->Slab_0 as int)[0].addr, 16)
                    && copy == if SIZE_CLASSES[class as int] < new_size { SIZE_CLASSES[class as int] as u64 } else { new_size as u64 }),
            crate::inner::serve::route_of(new_size) == crate::inner::serve::AllocRoute::Big
                ==> (r matches Ok(ReallocOutcome::Moved { ptr, .. }) ==> exists|h: u64| ptr == vstd::wrapping::u64_specs::wrapping_add(h, 16)
                    && (h == header.unwrap() || #[trigger] final(self).big_map.get_spec(h) == Some(new_size as u64))),
            old(thread).classes_ok() && old(self).icc.classes_ok() ==> (r matches Ok(ReallocOutcome::Moved { ptr, .. })
                ==> (crate::inner::serve::route_of(new_size) matches crate::inner::serve::AllocRoute::Slab(c) ==> exists|h: OxHeader|
                    ptr == vstd::wrapping::u64_specs::wrapping_add(h.addr, 16) && #[trigger] h.class == c && new_size <= SIZE_CLASSES[c as int])),
            r matches Ok(ReallocOutcome::Moved { .. }) && class == BIG_CLASS_TAG ==> final(self).big_map.get_spec(header.unwrap()) is None,
            r matches Ok(ReallocOutcome::Moved { .. }) && class != BIG_CLASS_TAG ==> pool(final(self).icc, *final(thread)).count(
                released_header(header.unwrap(), class, old(self).freed_magic, old(self).trim.current_stamp)) > 0,
            r matches Ok(ReallocOutcome::Moved { ptr, copy, spawn_trimmer }) ==> (header is Some
                && (payload_of(old(self).big_map.get_spec(header.unwrap()), class) matches Some(p)
                && copy == if p < new_size { p } else { new_size as u64 })),
    {
        let hd = match header {
            None => {
                return match self.alloc_inner(thread, os, new_size) {
                    Err(e) => Err(e),
                    Ok(res) => Ok(ReallocOutcome::Fresh(res)),
                };
            },
            Some(h) => h,
        };
        if new_size == 0 {
            return match self.free_inner(thread, os, hd, class, magic) {
                Err(e) => Err(e),
                Ok(o) => Ok(ReallocOutcome::Released(o)),
            };
        }
        let payload: u64 = if class == BIG_CLASS_TAG {
            match self.big_map.get(hd) {
                None => return Err(OxidallocError::AttackOrCorruption),
                Some(p) => p,
            }
        } else if (class as usize) < NUM_SIZE_CLASSES {
            if magic != self.magic {
                return Err(if magic == self.freed_magic { OxidallocError::DoubleFree } else { OxidallocError::MemoryCorruption });
            }
            SIZE_CLASSES[class as usize] as u64
        } else {
            return Err(OxidallocError::MemoryCorruption);
        };
        if class != BIG_CLASS_TAG {
            match crate::inner::serve::alloc_route(new_size) {
                crate::inner::serve::AllocRoute::Slab(c) => {
                    if c == class as usize {
                        return Ok(ReallocOutcome::Kept);
                    }
                },
                _ => {},
            }
        }
        if class == BIG_CLASS_TAG {
            match crate::inner::serve::alloc_route(new_size) {
                crate::inner::serve::AllocRoute::Big => {
                    let done = if new_size as u64 > payload {
                        grow_in_place(&mut self.space, &mut self.big_map, os, hd, payload, new_size as u64, self.force_thp)
                    } else {
                        shrink_in_place(&mut self.space, &mut self.big_map, os, hd, payload, new_size as u64, self.force_thp)
                    };
                    if done {
                        return Ok(ReallocOutcome::Resized);
                    }
                },
                _ => {},
            }
        }
        proof {
            crate::inner::serve::law_route_holds_request(new_size);
        }
        let got = self.alloc_inner(thread, os, new_size);
        let res = match got {
            Err(e) => return Err(e),
            Ok(res) => res,
        };
        let q = match res.ptr {
            None => return Ok(ReallocOutcome::Failed),
            Some(q) => q,
        };
        let copy: u64 = if payload < new_size as u64 { payload } else { new_size as u64 };
        let ghost mid = *self;
        match self.free_inner(thread, os, hd, class, magic) {
            Err(e) => Err(e),
            Ok(_) => {
                proof {
                    if crate::inner::serve::route_of(new_size) == crate::inner::serve::AllocRoute::Big {
                        let h = choose|h: u64| q == vstd::wrapping::u64_specs::wrapping_add(h, 16)
                            && #[trigger] mid.big_map.get_spec(h) == Some(new_size as u64);
                        if h != hd {
                            assert(self.big_map.get_spec(h) == mid.big_map.get_spec(h));
                        }
                    }
                }
                Ok(ReallocOutcome::Moved { ptr: q, copy, spawn_trimmer: res.spawn_trimmer })
            },
        }
    }
}

} // verus!
