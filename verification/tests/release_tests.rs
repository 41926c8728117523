use oxidalloc::abi::BIG_CLASS_TAG;
use oxidalloc::big_allocation::trim_big_allocations;
use oxidalloc::inner::global_alloc::Oxidalloc;
use oxidalloc::inner::release::{FreeOutcome, ReallocOutcome};
use oxidalloc::slab::global::GlobalHandler;
use oxidalloc::slab::thread_local::ThreadLocalEngine;
use oxidalloc::slab::{match_size_class, SIZE_CLASSES, TLS_MAX_BLOCKS};
use oxidalloc::sys::numa::build_numa_maps;
use oxidalloc::sys::{Advice, Kernel, NOMEM};
use oxidalloc::{OxHeader, OxidallocError};

/// A kernel that hands out address space from a fixed base, grants every
/// mapping, and records what it was advised.
struct FakeKernel {
    next: u64,
    advised: Vec<(u64, u64)>,
}

impl Kernel for FakeKernel {
    fn reserve(&mut self, hint: Option<u64>, len: u64) -> Option<u64> {
        let at = hint.unwrap_or(self.next);
        self.next = at + len;
        Some(at)
    }
    fn map_fixed(&mut self, _addr: u64, _len: u64) -> bool {
        true
    }
    fn protect_read_write(&mut self, _addr: u64, _len: u64) -> bool {
        true
    }
    fn advise(&mut self, addr: u64, len: u64, _advice: Advice) {
        self.advised.push((addr, len));
    }
    fn random(&mut self) -> Option<u64> {
        Some(0)
    }
}

const MAGIC: u8 = 0;
const FREED: u8 = 1;

fn fresh() -> (Oxidalloc, ThreadLocalEngine, FakeKernel) {
    (
        Oxidalloc::new(7, 17179869184, 4, None, MAGIC, FREED),
        ThreadLocalEngine::new(),
        FakeKernel { next: 0x1000_0000_0000, advised: Vec::new() },
    )
}

/// Serves `size` bytes and returns the pointer with the class and magic
/// that the header of its block carries.
fn malloc(a: &mut Oxidalloc, t: &mut ThreadLocalEngine, k: &mut FakeKernel, size: usize) -> (u64, u8, u8) {
    let p = a.alloc_inner(t, k, size).expect("no fatal error").ptr.expect("allocation served");
    let (class, magic) = a.header_class(size);
    (p, class, magic)
}

#[test]
fn test_malloc_free() {
    let (mut a, mut t, mut k) = fresh();
    let size = 100;
    let (p, class, magic) = malloc(&mut a, &mut t, &mut k, size);
    assert_ne!(p, 0, "malloc returned null");
    assert_eq!(class as usize, match_size_class(size).unwrap());
    assert_eq!(magic, MAGIC);

    let usable = a.usable_size_of(p - 16, class, 0).unwrap();
    assert!(usable >= size as u64, "malloc_usable_size {} < requested {}", usable, size);

    let before = t.tls[class as usize].usage;
    let r = a.free_inner(&mut t, &mut k, p - 16, class, magic).unwrap();
    assert_eq!(r, FreeOutcome::Cached(OxHeader { addr: p - 16, class, magic: FREED, life_time: a.trim.current_stamp }));
    assert_eq!(t.tls[class as usize].usage, before + 1);
    assert_eq!(t.tls[class as usize].head[0].addr, p - 16);
}

#[test]
fn test_calloc() {
    let (mut a, mut t, mut k) = fresh();
    let nmemb = 10;
    let size = 100;
    let r = a.calloc_inner(&mut t, &mut k, nmemb, size).unwrap().unwrap();
    let p = r.ptr.expect("calloc returned null");
    let (class, magic) = a.header_class((nmemb * size) as usize);
    let total_size = nmemb * size;
    assert!(a.usable_size_of(p - 16, class, 0).unwrap() >= total_size);
    assert!(a.free_inner(&mut t, &mut k, p - 16, class, magic).is_ok());
}

#[test]
fn test_realloc() {
    let (mut a, mut t, mut k) = fresh();
    let size = 64;
    let (p, class, magic) = malloc(&mut a, &mut t, &mut k, size);
    let new_size = 128;
    match a.realloc_inner(&mut t, &mut k, Some(p - 16), class, magic, new_size).unwrap() {
        ReallocOutcome::Moved { ptr, copy, .. } => {
            assert_ne!(ptr, 0, "realloc returned null");
            assert_ne!(ptr, p);
            // Every byte written before the resize is carried over.
            assert_eq!(copy, size as u64);
        }
        other => panic!("unexpected {:?}", other),
    }
}

#[test]
fn smoke_global_reuse() {
    let (mut a, mut t, mut k) = fresh();
    let mut first = None;
    for _ in 0..10_000 {
        let (p, class, magic) = malloc(&mut a, &mut t, &mut k, 128);
        assert!(a.free_inner(&mut t, &mut k, p - 16, class, magic).is_ok());
        // The block released is the block handed out next.
        assert_eq!(*first.get_or_insert(p), p);
    }
    for _ in 0..1000 {
        let (p, class, magic) = malloc(&mut a, &mut t, &mut k, 128);
        assert_ne!(p, 0);
        assert!(a.free_inner(&mut t, &mut k, p - 16, class, magic).is_ok());
    }
}

fn big_realloc(from: usize, to: usize) {
    let (mut a, mut t, mut k) = fresh();
    let (p, class, magic) = malloc(&mut a, &mut t, &mut k, from);
    assert_eq!(class, BIG_CLASS_TAG);
    assert_eq!(a.big_map.get(p - 16), Some(from as u64));
    // A fresh segment has free blocks after the allocation: it is resized
    // where it lies.
    assert_eq!(a.realloc_inner(&mut t, &mut k, Some(p - 16), class, magic, to).unwrap(), ReallocOutcome::Resized);
    assert_eq!(a.big_map.get(p - 16), Some(to as u64));
    assert_eq!(a.usable_size_of(p - 16, BIG_CLASS_TAG, 0), Ok(to as u64));
    let old_total = (from as u64 + 16 + 4095) / 4096 * 4096;
    let new_total = (to as u64 + 16 + 4095) / 4096 * 4096;
    if to < from {
        // The pages past the new end went back to the kernel.
        assert!(k.advised.contains(&(p - 16 + new_total, old_total - new_total)));
    }
    // The blocks it spans are taken: the next block lies past them.
    let (q, _, _) = malloc(&mut a, &mut t, &mut k, from);
    assert!(q >= p - 16 + new_total + 16 || q + from as u64 <= p - 16);
}

#[test]
fn testing_out_of_class_reallocs() {
    big_realloc(1024 * 1024 * 4, 1024 * 1024 * 8);
}

#[test]
fn test_big_reallocs_1mb() {
    // A megabyte is a slab class; two megabytes and more is big.
    let (mut a, mut t, mut k) = fresh();
    let (p, class, magic) = malloc(&mut a, &mut t, &mut k, 1024 * 1024);
    match a.realloc_inner(&mut t, &mut k, Some(p - 16), class, magic, 1024 * 1024 * 2).unwrap() {
        ReallocOutcome::Moved { ptr, copy, .. } => {
            assert_ne!(ptr, 0, "realloc failed");
            assert_eq!(copy, 1024 * 1024);
        }
        other => panic!("unexpected {:?}", other),
    }
}

#[test]
fn test_realloc_shrink() {
    let (mut a, mut t, mut k) = fresh();
    let (p, class, magic) = malloc(&mut a, &mut t, &mut k, 1024 * 1024 * 2);
    match a.realloc_inner(&mut t, &mut k, Some(p - 16), class, magic, 1024 * 1024).unwrap() {
        ReallocOutcome::Moved { ptr, copy, .. } => {
            assert_ne!(ptr, 0, "realloc failed");
            assert_eq!(copy, 1024 * 1024);
            let (nc, _) = a.header_class(1024 * 1024);
            assert!(a.usable_size_of(ptr - 16, nc, 0).unwrap() >= 1024 * 1024);
        }
        other => panic!("unexpected {:?}", other),
    }
    // A big block that stays big shrinks where it lies.
    big_realloc(1024 * 1024 * 3, 1024 * 1024 * 2 + 1);
}

#[test]
fn loom_global_usage_race() {
    // The four operations of the race, one after another.
    let (mut a, _, _) = fresh();
    let node = |addr: u64| OxHeader { addr, class: 0, magic: MAGIC, life_time: 0 };
    let (x, y) = (node(0x7000_0000), node(0x7000_1000));
    GlobalHandler.push_to_global(&mut a.icc, 0, vec![x], false, false);
    let first = GlobalHandler.pop_from_global(&mut a.icc, 0, 1, false);
    GlobalHandler.push_to_global(&mut a.icc, 0, vec![y], false, false);
    let second = GlobalHandler.pop_from_global(&mut a.icc, 0, 1, false);
    assert_eq!(first, Some(vec![x]));
    assert_eq!(second, Some(vec![y]));
    let u = a.icc.get_size(0);
    assert!(u == 0 || u == 1);
}

#[test]
fn release_to_the_shared_cache_when_the_stack_is_full() {
    let (mut a, mut t, mut k) = fresh();
    // The largest class keeps one block per thread.
    let class = (SIZE_CLASSES.len() - 1) as u8;
    assert_eq!(TLS_MAX_BLOCKS[class as usize], 1);
    let one = a.free_inner(&mut t, &mut k, 0x9000_0000, class, MAGIC).unwrap();
    assert!(matches!(one, FreeOutcome::Cached(_)));
    let two = a.free_inner(&mut t, &mut k, 0xA000_0000, class, MAGIC).unwrap();
    let h = OxHeader { addr: 0xA000_0000, class, magic: FREED, life_time: a.trim.current_stamp };
    assert_eq!(two, FreeOutcome::Shared(h));
    assert_eq!(t.tls[class as usize].usage, 1);
    assert_eq!(a.icc.get_size(class as usize), 1);
}

#[test]
fn release_of_a_bad_header_is_refused() {
    let (mut a, mut t, mut k) = fresh();
    let (p, class, _) = malloc(&mut a, &mut t, &mut k, 64);
    let usage = t.tls[class as usize].usage;
    assert_eq!(a.free_inner(&mut t, &mut k, p - 16, class, FREED), Err(OxidallocError::DoubleFree));
    assert_eq!(a.free_inner(&mut t, &mut k, p - 16, class, 0x5A), Err(OxidallocError::MemoryCorruption));
    assert_eq!(a.free_inner(&mut t, &mut k, p - 16, 77, MAGIC), Err(OxidallocError::MemoryCorruption));
    assert_eq!(t.tls[class as usize].usage, usage);
    // A big tag without a record is an attack.
    assert_eq!(a.free_inner(&mut t, &mut k, p - 16, BIG_CLASS_TAG, MAGIC), Err(OxidallocError::AttackOrCorruption));
}

#[test]
fn big_release_goes_to_the_cache_and_trimming_returns_it() {
    let (mut a, mut t, mut k) = fresh();
    let size = 5_000_000usize;
    let (p, class, magic) = malloc(&mut a, &mut t, &mut k, size);
    assert_eq!(a.free_inner(&mut t, &mut k, p - 16, class, magic), Ok(FreeOutcome::Big));
    assert_eq!(a.big_map.get(p - 16), None);
    // The whole block, header included, rounded to pages.
    let total = (size as u64 + 16 + 4095) / 4096 * 4096;
    assert_eq!(trim_big_allocations(&mut a.big_cache, &mut a.space, &mut k), total);
    assert!(k.advised.contains(&(p - 16, total)));
    // Nothing is left to give back.
    assert_eq!(trim_big_allocations(&mut a.big_cache, &mut a.space, &mut k), 0);
    // The address range can be handed out again.
    let (q, _, _) = malloc(&mut a, &mut t, &mut k, size);
    assert_ne!(q, 0);
}

#[test]
fn usable_size_follows_class_and_offset() {
    let (a, _, _) = fresh();
    let c = match_size_class(100).unwrap();
    let payload = SIZE_CLASSES[c] as u64;
    assert_eq!(a.usable_size_of(0x1000, c as u8, 0), Ok(payload));
    assert_eq!(a.usable_size_of(0x1000, c as u8, 48), Ok(payload - 48));
    assert_eq!(a.usable_size_of(0x1000, c as u8, payload + 1), Ok(0));
    assert!(a.usable_size_of(0x1000, 60, 0).is_err());
    assert!(a.usable_size_of(0x1000, BIG_CLASS_TAG, 0).is_err());
}

#[test]
fn calloc_overflow_is_nomem() {
    let (mut a, mut t, mut k) = fresh();
    assert_eq!(a.calloc_inner(&mut t, &mut k, u64::MAX, 2).unwrap(), Err(NOMEM));
    assert_eq!(t.tls[0].usage, 0);
}

#[test]
fn realloc_within_the_class_keeps_the_block() {
    let (mut a, mut t, mut k) = fresh();
    let (p, class, magic) = malloc(&mut a, &mut t, &mut k, 100);
    let same = SIZE_CLASSES[class as usize];
    assert_eq!(a.realloc_inner(&mut t, &mut k, Some(p - 16), class, magic, same).unwrap(), ReallocOutcome::Kept);
    assert!(matches!(
        a.realloc_inner(&mut t, &mut k, None, 0, 0, 100).unwrap(),
        ReallocOutcome::Fresh(_)
    ));
    assert!(matches!(
        a.realloc_inner(&mut t, &mut k, Some(p - 16), class, magic, 0).unwrap(),
        ReallocOutcome::Released(FreeOutcome::Cached(_))
    ));
}

#[test]
fn header_of_follows_the_aligned_tag() {
    let (mut a, mut t, mut k) = fresh();
    let (p, _, _) = malloc(&mut a, &mut t, &mut k, 100);
    let (q, _, _) = malloc(&mut a, &mut t, &mut k, 100);
    assert_eq!(a.header_of(p, 0, 0), Some(p - 16));
    assert_eq!(a.header_of(q, oxidalloc::OX_ALIGN_TAG, p), Some(p - 16));
    assert_eq!(a.header_of(0x10, 0, 0), None);
}

#[test]
fn each_cpu_belongs_to_the_last_node_that_lists_it() {
    let contents = vec![Some(b"0-2\n".to_vec()), Some(b"2,4\n".to_vec())];
    let m = build_numa_maps(2, &contents).expect("two nodes");
    assert_eq!(m.cpu_to_node[0], 0);
    assert_eq!(m.cpu_to_node[1], 0);
    assert_eq!(m.cpu_to_node[2], 1);
    assert_eq!(m.cpu_to_node[4], 1);
    assert_eq!(m.cpu_to_node[3], usize::MAX);
}

#[test]
fn realloc_moves_to_the_top_of_the_new_class_stack() {
    let (mut a, mut t, mut k) = fresh();
    let (big, bc, bm) = malloc(&mut a, &mut t, &mut k, 128);
    assert!(a.free_inner(&mut t, &mut k, big - 16, bc, bm).is_ok());
    let (p, class, magic) = malloc(&mut a, &mut t, &mut k, 64);
    match a.realloc_inner(&mut t, &mut k, Some(p - 16), class, magic, 128).unwrap() {
        ReallocOutcome::Moved { ptr, copy, .. } => {
            assert_eq!(ptr, big);
            assert_eq!(copy, SIZE_CLASSES[class as usize].min(128) as u64);
        }
        other => panic!("unexpected {:?}", other),
    }
    // The old block is free again, on top of its stack.
    assert_eq!(t.tls[class as usize].head[0].addr, p - 16);
    assert_eq!(t.tls[class as usize].head[0].magic, FREED);
}

#[test]
fn grow_then_shrink_gives_the_blocks_back() {
    let (mut a, mut t, mut k) = fresh();
    let (from, to) = (4usize << 20, 8usize << 20);
    let (p, class, magic) = malloc(&mut a, &mut t, &mut k, from);
    assert_eq!(a.realloc_inner(&mut t, &mut k, Some(p - 16), class, magic, to).unwrap(), ReallocOutcome::Resized);
    assert_eq!(a.realloc_inner(&mut t, &mut k, Some(p - 16), class, magic, from).unwrap(), ReallocOutcome::Resized);
    assert_eq!(a.big_map.get(p - 16), Some(from as u64));
    let old_total = (from as u64 + 16 + 4095) / 4096 * 4096;
    let new_total = (to as u64 + 16 + 4095) / 4096 * 4096;
    // Exactly the blocks it grew over went back.
    assert!(k.advised.contains(&(p - 16 + old_total, new_total - old_total)));
}

#[test]
fn big_resize_within_the_same_blocks_keeps_the_block() {
    let (mut a, mut t, mut k) = fresh();
    let size = 3usize << 20;
    let (p, class, magic) = malloc(&mut a, &mut t, &mut k, size);
    // Fewer bytes in the same pages, then the same size again.
    for to in [size - 100, size] {
        assert_eq!(a.realloc_inner(&mut t, &mut k, Some(p - 16), class, magic, to).unwrap(), ReallocOutcome::Resized);
        assert_eq!(a.big_map.get(p - 16), Some(to as u64));
    }
}

#[test]
fn split_serves_an_empty_class_from_a_larger_one() {
    let (mut a, mut t, mut k) = fresh();
    // A block of a larger class that splits into blocks of the smallest.
    let small = 0usize;
    let donor = (1..=8).find(|&d| {
        let (bt, bd) = (SIZE_CLASSES[small] as u64 + 16, SIZE_CLASSES[d] as u64 + 16);
        bd / bt >= 2 && bd % bt == 0
    });
    let Some(d) = donor else { return };
    GlobalHandler.push_to_global(&mut a.icc, d, vec![OxHeader { addr: 0x7100_0000, class: d as u8, magic: FREED, life_time: 0 }], false, false);
    let r = a.alloc_inner(&mut t, &mut k, SIZE_CLASSES[small]).unwrap();
    assert_eq!(r.ptr, Some(0x7100_0000 + 16));
}

#[test]
fn big_growth_blocked_by_a_neighbour_moves() {
    let (mut a, mut t, mut k) = fresh();
    let size = 4usize << 20;
    let total = (size as u64 + 16 + 4095) / 4096 * 4096;
    let (p, class, magic) = malloc(&mut a, &mut t, &mut k, size);
    let (q, _, _) = malloc(&mut a, &mut t, &mut k, size);
    let adjacent = q - 16 == p - 16 + total;
    match a.realloc_inner(&mut t, &mut k, Some(p - 16), class, magic, 2 * size).unwrap() {
        ReallocOutcome::Moved { ptr, copy, .. } => {
            // Only a neighbour in the way makes the block move.
            assert!(adjacent);
            assert_ne!(ptr, p);
            assert_eq!(copy, size as u64);
            assert_eq!(a.big_map.get(p - 16), None);
        }
        ReallocOutcome::Resized => {
            assert!(!adjacent);
            assert_eq!(a.big_map.get(p - 16), Some(2 * size as u64));
        }
        other => panic!("unexpected {:?}", other),
    }
    // The neighbour is untouched either way.
    assert_eq!(a.big_map.get(q - 16), Some(size as u64));
}
