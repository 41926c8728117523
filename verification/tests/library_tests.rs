use oxidalloc::abi::{array_bytes, recalloc_plan, usable_size, RecallocPlan, BIG_CLASS_TAG};
use oxidalloc::big_allocation::{big_free, big_malloc};
use oxidalloc::buddy::{buddy_of, order_to_size, Buddy};
use oxidalloc::free::{trim, TrimAction};
use oxidalloc::inner::global_alloc::Oxidalloc;
use oxidalloc::inner::memalign::{align_request, memalign_adjust};
use oxidalloc::inner::serve::BootState;
use oxidalloc::internals::{align, AllocationHelper, VaBitmap as InternalsVaBitmap};
use oxidalloc::slab::interconnect::{head_pack, head_ptr, head_tag, InterConnectCache};
use oxidalloc::slab::quartine::{quarantine, Quarantine, QuarantineError};
use oxidalloc::slab::thread_local::ThreadLocalEngine;
use oxidalloc::slab::{match_size_class, slow_path_match, SIZE_CLASSES, SIZE_LUT};
use oxidalloc::sys::numa::{build_numa_maps, write_node_path, MAX_NODE_PATH};
use oxidalloc::sys::{syscall_result, Advice, Kernel, EINVAL, NOMEM};
use oxidalloc::trim::{check_memory_pressure, memory_pressure, TimeDecay};
use oxidalloc::va::bitmap::Segment;
use oxidalloc::va::bootstrap::{init_disable_thp, init_reverse, init_thp, init_threshold, init_trim_enabled};
use oxidalloc::va::space::AddressSpace;
use oxidalloc::{OxHeader, OxidallocError};

struct FakeKernel {
    next: u64,
}

impl Kernel for FakeKernel {
    fn reserve(&mut self, _hint: Option<u64>, len: u64) -> Option<u64> {
        let at = self.next;
        self.next = at + len + 4096;
        Some(at)
    }
    fn map_fixed(&mut self, _addr: u64, _len: u64) -> bool {
        true
    }
    fn protect_read_write(&mut self, _addr: u64, _len: u64) -> bool {
        true
    }
    fn advise(&mut self, _addr: u64, _len: u64, _advice: Advice) {}
    fn random(&mut self) -> Option<u64> {
        Some(0)
    }
}

fn h(addr: u64, class: u8) -> OxHeader {
    OxHeader { addr, class, magic: 1, life_time: 0 }
}

#[test]
fn lut_agrees_with_class_search() {
    for size in 1..=4096usize {
        assert_eq!(Some(SIZE_LUT[(size - 1) / 16] as usize), slow_path_match(size));
        assert_eq!(match_size_class(size), slow_path_match(size));
    }
}

#[test]
fn class_is_smallest_that_fits() {
    assert_eq!(match_size_class(0), None);
    assert_eq!(match_size_class(1), Some(0));
    assert_eq!(match_size_class(16), Some(0));
    assert_eq!(match_size_class(17), Some(1));
    assert_eq!(match_size_class(4097), Some(9));
    assert_eq!(match_size_class(2097152), Some(17));
    assert_eq!(match_size_class(2097153), None);
    for size in 1..=70000usize {
        let c = match_size_class(size).unwrap();
        assert!(size <= SIZE_CLASSES[c]);
        assert!(c == 0 || SIZE_CLASSES[c - 1] < size);
    }
}

#[test]
fn thread_cache_is_last_in_first_out() {
    let mut e = ThreadLocalEngine::new();
    e.push_to_thread(3, h(0x100, 3));
    e.push_to_thread(3, h(0x200, 3));
    assert_eq!(e.pop_from_thread(3), Some(h(0x200, 3)));
    assert_eq!(e.pop_from_thread(3), Some(h(0x100, 3)));
    assert_eq!(e.pop_from_thread(3), None);
    e.push_to_thread_tailed(2, vec![h(1, 2), h(2, 2), h(3, 2)]);
    assert_eq!(e.pop_batch(2, 3), vec![h(1, 2), h(2, 2), h(3, 2)]);
    assert_eq!(e.pop_batch(2, 3), Vec::<OxHeader>::new());
}

#[test]
fn shared_cache_gives_a_batch_back_in_order() {
    let mut icc = InterConnectCache::new();
    icc.ensure_cache(2, None);
    let batch = vec![h(0x10, 5), h(0x20, 5), h(0x30, 5)];
    icc.push_on(5, batch.clone(), false, false, 1);
    assert_eq!(icc.get_size(5), 3);
    assert_eq!(icc.try_pop_on(5, 3, false, 1), Some(batch));
    assert_eq!(icc.get_size(5), 0);
    assert_eq!(icc.try_pop_on(5, 3, false, 1), None);
}

#[test]
fn segment_claim_then_free_restores_bits() {
    let base = 0x4000_0000u64;
    let mut s = Segment::new(base, base + 128 * 4096, 0, None);
    let before = s.map.clone();
    assert!(s.try_claim(60, 8));
    assert_eq!(s.map[0], 0xF000_0000_0000_0000);
    assert_eq!(s.map[1], 0xF);
    s.free(base + 60 * 4096, 8 * 4096);
    assert_eq!(s.map, before);
}

#[test]
fn segment_claim_reaches_the_unused_tail_bits() {
    let base = 0x4000_0000u64;
    // 100 blocks: the second word has 36 unused bits, always free.
    let mut s = Segment::new(base, base + 100 * 4096, 0, None);
    assert!(s.try_claim(98, 4));
    assert_eq!(s.map[1], 0b1111 << 34);
    // Taken bits cannot be claimed again; nothing changes then.
    assert!(!s.try_claim(96, 3));
    assert_eq!(s.map[1], 0b1111 << 34);
}

#[test]
fn internals_bitmap_claims_and_frees() {
    let va = 0x7000_0000_0000u64;
    let mut b = InternalsVaBitmap::new();
    assert_eq!(b.alloc_range(65536, va), Some(va));
    assert_eq!(b.alloc_range(1, va), Some(va + 65536));
    assert_eq!(b.alloc_range(3 * 65536, va), Some(va + 2 * 65536));
    assert_eq!(b.alloc_range(0, va), None);
    b.free(va + 65536, 65536, va);
    assert_eq!(b.alloc_range(100, va), Some(va + 65536));
    let before = b.map.clone();
    let a = b.alloc_range(5 * 65536, va).unwrap();
    b.free(a, 5 * 65536, va);
    assert_eq!(b.map, before);
}

#[test]
fn internals_classes_and_align() {
    assert_eq!(align(0), 0);
    assert_eq!(align(1), 4096);
    assert_eq!(align(4096), 4096);
    assert_eq!(align(4097), 8192);
    assert_eq!(AllocationHelper.match_size_class(8), Some(0));
    assert_eq!(AllocationHelper.match_size_class(9), Some(1));
    assert_eq!(AllocationHelper.match_size_class(8388608), Some(21));
    assert_eq!(AllocationHelper.match_size_class(8388609), None);
}

#[test]
fn buddy_blocks() {
    assert_eq!(order_to_size(0), 4096);
    assert_eq!(order_to_size(12), 16 * 1024 * 1024);
    assert_eq!(buddy_of(buddy_of(0x12_3000, 4096), 4096), 0x12_3000);
    let mut space = AddressSpace::new(7, 17179869184);
    let mut k = FakeKernel { next: 0x1000_0000_0000 };
    let mut b = Buddy::new();
    assert_eq!(b.buddy_alloc(&mut space, &mut k, 0), None);
    assert_eq!(b.buddy_alloc(&mut space, &mut k, 16 * 1024 * 1024 + 1), None);
    let x = b.buddy_alloc(&mut space, &mut k, 4096).expect("a block");
    let y = b.buddy_alloc(&mut space, &mut k, 4096).expect("a block");
    assert_eq!(y, x + 4096);
    // Freeing y while x is still out merges nothing; the next block of that
    // size is y again.
    b.buddy_free(y, 4096);
    assert_eq!(b.buddy_alloc(&mut space, &mut k, 4096), Some(y));
}

#[test]
fn array_and_usable_sizes() {
    assert_eq!(array_bytes(3, 5), Ok(15));
    assert_eq!(array_bytes(u64::MAX, 2), Err(NOMEM));
    assert_eq!(recalloc_plan(true, 1, 2, 3), RecallocPlan::Fresh);
    assert_eq!(recalloc_plan(false, 1, u64::MAX, 2), RecallocPlan::TooLarge);
    assert_eq!(recalloc_plan(false, 4, 2, 8), RecallocPlan::Shrink { new_size: 16 });
    assert_eq!(recalloc_plan(false, 2, 4, 8), RecallocPlan::Grow { new_size: 32, old_size: 16 });
    assert_eq!(recalloc_plan(false, u64::MAX, 4, 8), RecallocPlan::Grow { new_size: 32, old_size: 0 });
    assert_eq!(usable_size(BIG_CLASS_TAG, None, 0), Err(OxidallocError::AttackOrCorruption));
    assert_eq!(usable_size(BIG_CLASS_TAG, Some(100), 16), Ok(84));
    assert_eq!(usable_size(BIG_CLASS_TAG, Some(10), 16), Ok(0));
    assert_eq!(usable_size(3, None, 0), Ok(128));
    assert_eq!(align_request(4, 10), Err(EINVAL));
    assert_eq!(align_request(24, 10), Err(EINVAL));
    assert_eq!(align_request(64, 10), Ok(90));
    assert_eq!(align_request(64, u64::MAX), Err(NOMEM));
    assert_eq!(memalign_adjust(1), Some(8));
    assert_eq!(memalign_adjust(48), None);
}

#[test]
fn free_module_trim_decisions() {
    let mut p = 10usize;
    assert_eq!(trim(&mut p, 1, 100, 60, 1000, 500), TrimAction::Keep);
    assert_eq!(p, 10);
    assert_eq!(trim(&mut p, 1, 100, 40, 1000, 500), TrimAction::Local);
    assert_eq!(trim(&mut p, 1, 100, 30, 1000, 500), TrimAction::Global);
    assert_eq!(trim(&mut p, 1000, 100, 60, 1000, 500), TrimAction::Global);
    assert_eq!(trim(&mut p, 1500, 100, 60, 1000, 500), TrimAction::Local);
    let mut hot = 80usize;
    assert_eq!(trim(&mut hot, 1, 100, 60, 1000, 500), TrimAction::Local);
    let mut fresh = 0usize;
    let _ = trim(&mut fresh, 55000, 0, 0, 1000, 500);
    assert!(fresh <= 100);
}

#[test]
fn trimmer_starts_once() {
    let mut b = BootState::new();
    let mut spawned = 0;
    for _ in 0..3000 {
        if b.boot_step(true) {
            spawned += 1;
        }
    }
    assert_eq!(spawned, 1);
    b.reset_fork_thread_state();
    assert!(b.boot_step(true));
    assert!(!b.boot_step(true));
}

#[test]
fn decay_levels_round_trip() {
    for d in [TimeDecay::Normal, TimeDecay::Medium, TimeDecay::High, TimeDecay::Aggressive] {
        assert_eq!(TimeDecay::from_u8(d.to_u8()), d);
    }
}

#[test]
fn head_tags_round_trip() {
    let p = 0x7f00_1234_5670u64;
    for t in 0..16u64 {
        let v = head_pack(p, t);
        assert_eq!(head_ptr(v), p);
        assert_eq!(head_tag(v), t);
    }
}

#[test]
fn memory_pressure_formula() {
    assert_eq!(memory_pressure(1, 100, 25, 0, 0), 75);
    assert_eq!(memory_pressure(4096, 100, 50, 100, 100), 25);
    assert_eq!(memory_pressure(1, 0, 0, 0, 0), 50);
    assert!(check_memory_pressure() <= 100);
}

#[test]
fn quarantine_refuses_twice() {
    let mut q = Quarantine::new();
    assert_eq!(quarantine(&mut q, 0x1000), Ok(()));
    assert_eq!(quarantine(&mut q, 0x1000), Err(QuarantineError::DoubleQuarantine));
}

#[test]
fn big_free_of_a_stranger_is_fatal() {
    let mut a = Oxidalloc::new(7, 17179869184, 1, None, 0, 1);
    let mut k = FakeKernel { next: 0x1000_0000_0000 };
    let r = big_free(&mut a.big_cache, &mut a.big_map, &mut a.space, &mut k, 0xdead_0000, false, false);
    assert_eq!(r, Err(OxidallocError::AttackOrCorruption));
    let p = big_malloc(&mut a.big_cache, &mut a.big_map, &mut a.space, &mut k, 5_000_000, false, false)
        .unwrap()
        .unwrap();
    assert_eq!(a.big_map.get(p), Some(5_000_000));
    assert_eq!(big_free(&mut a.big_cache, &mut a.big_map, &mut a.space, &mut k, p, false, false), Ok(()));
    let q = big_malloc(&mut a.big_cache, &mut a.big_map, &mut a.space, &mut k, 5_000_000, false, false)
        .unwrap()
        .unwrap();
    assert_eq!(q, p);
    assert_eq!(OxidallocError::AttackOrCorruption.code(), 0x100B);
}

#[test]
fn numa_paths_and_maps() {
    let mut buf = vec![0u8; MAX_NODE_PATH];
    let n = write_node_path(&mut buf, 12).unwrap();
    assert_eq!(&buf[..n], b"/sys/devices/system/node/node12/cpulist");
    assert_eq!(buf[n], 0);
    let contents = vec![Some(b"0-3,8\n".to_vec()), None, Some(b"4-5\n".to_vec())];
    let m = build_numa_maps(3, &contents).expect("two nodes");
    assert_eq!(m.node_count, 2);
    assert_eq!(&m.node_cpus[..7], &[0, 1, 2, 3, 8, 4, 5]);
    assert_eq!(m.cpu_to_node[8], 0);
    assert_eq!(m.cpu_to_node[5], 1);
    assert!(build_numa_maps(2, &vec![None, None]).is_none());
}

#[test]
fn raw_syscall_results() {
    assert_eq!(syscall_result(-12), Err(12));
    assert_eq!(syscall_result(4096), Ok(4096));
}

#[test]
fn shared_blocks_serve_an_empty_thread_cache() {
    let mut a = Oxidalloc::new(7, 17179869184, 2, None, 0, 1);
    let mut t = ThreadLocalEngine::new();
    let mut k = FakeKernel { next: 0x1000_0000_0000 };
    let class = match_size_class(100).unwrap();
    let blocks = vec![
        OxHeader { addr: 0x5000_0000, class: class as u8, magic: 1, life_time: 0 },
        OxHeader { addr: 0x5000_0090, class: class as u8, magic: 1, life_time: 0 },
    ];
    oxidalloc::slab::global::GlobalHandler.push_to_global(&mut a.icc, class, blocks, false, false);
    let r = a.alloc_inner(&mut t, &mut k, 100).expect("no fatal error");
    assert_eq!(r.ptr, Some(0x5000_0000 + 16));
    assert_eq!(t.pop_from_thread(class).map(|h| h.addr), Some(0x5000_0090));
}

#[test]
fn trimmer_is_asked_for_once_by_allocations() {
    let mut a = Oxidalloc::new(7, 17179869184, 1, None, 0, 1);
    let mut t = ThreadLocalEngine::new();
    let mut k = FakeKernel { next: 0x1000_0000_0000 };
    let mut asked = 0;
    for _ in 0..1100 {
        let r = a.alloc_inner(&mut t, &mut k, 16).expect("no fatal error");
        assert!(r.ptr.is_some());
        if r.spawn_trimmer {
            asked += 1;
        }
    }
    assert_eq!(asked, 1);
}

#[test]
fn shared_trim_keeps_every_block() {
    let mut a = Oxidalloc::new(7, 17179869184, 2, None, 0, 1);
    let mut k = FakeKernel { next: 0x1000_0000_0000 };
    let class = match_size_class(8192).unwrap();
    let mut batch = Vec::new();
    for i in 0..64u64 {
        batch.push(OxHeader { addr: 0x6000_0000 + i * 8208, class: class as u8, magic: 1, life_time: 1 });
    }
    oxidalloc::slab::global::GlobalHandler.push_to_global(&mut a.icc, class, batch, false, false);
    a.trim.current_stamp = 500;
    a.trim.average_block_times_global = 1;
    let (done, freed) = oxidalloc::trim::gtrim::GTrim
        .trim(&mut a.trim, &mut a.icc, &mut a.big_cache, &mut a.space, &mut k, 0, 1)
        .expect("no corruption");
    assert_eq!(done, 1);
    assert_eq!(freed, 64 * 8192);
    assert_eq!(a.icc.get_size(class), 64);
    let mut seen = Vec::new();
    while let Some(v) = oxidalloc::slab::global::GlobalHandler.pop_from_global(&mut a.icc, class, 64, true) {
        for h in v {
            seen.push(h.addr);
        }
    }
    seen.sort();
    let expected: Vec<u64> = (0..64u64).map(|i| 0x6000_0000 + i * 8208).collect();
    assert_eq!(seen, expected);
}

#[test]
fn environment_settings() {
    assert_eq!(init_threshold(0), 1024 * 1024);
    assert_eq!(init_threshold(5 * 1024 * 1024), 5 * 1024 * 1024);
    assert_eq!(init_reverse(0), 16 * 1024 * 1024 * 1024);
    assert_eq!(init_reverse(20 * 1024 * 1024 * 1024), 32 * 1024 * 1024 * 1024);
    assert_eq!(init_reverse(u64::MAX), 16 * 1024 * 1024 * 1024);
    assert_eq!(init_reverse(1 << 60), 256 * 1024 * 1024 * 1024 * 1024);
    assert!(init_thp(1));
    assert!(!init_thp(2));
    assert!(init_disable_thp(1, false));
    assert!(!init_disable_thp(1, true));
    assert!(!init_trim_enabled(1));
    assert!(init_trim_enabled(0));
}

#[test]
fn thread_trim_keeps_every_block() {
    let mut icc = InterConnectCache::new();
    icc.ensure_cache(2, None);
    let mut state = oxidalloc::trim::TrimState::new();
    state.current_stamp = 1000;
    let mut k = FakeKernel { next: 0x1000_0000_0000 };
    let mut engines = vec![ThreadLocalEngine::new(), ThreadLocalEngine::new()];
    let mut expected = Vec::new();
    for (e, eng) in engines.iter_mut().enumerate() {
        for i in 0..6u64 {
            let addr = 0x7000_0000 + (e as u64) * 0x10_0000 + i * 0x3000;
            let class = if i % 2 == 0 { 3 } else { 9 };
            let life = if i < 3 { 1 } else { 999 };
            eng.push_to_thread(class, OxHeader { addr, class: class as u8, magic: 1, life_time: life });
            expected.push(addr);
        }
    }
    let _ = oxidalloc::trim::ptrim::PTrim.trim(&mut state, &mut engines, &mut icc, &mut k, 0, false, 0);
    let mut seen = Vec::new();
    for eng in engines.iter_mut() {
        for class in 0..18 {
            while let Some(h) = eng.pop_from_thread(class) {
                seen.push(h.addr);
            }
        }
    }
    for class in 0..18 {
        while let Some(v) = oxidalloc::slab::global::GlobalHandler.pop_from_global(&mut icc, class, 64, true) {
            for h in v {
                assert_eq!(h.life_time, 1000);
                seen.push(h.addr);
            }
        }
    }
    seen.sort();
    expected.sort();
    assert_eq!(seen, expected);
}

#[test]
fn split_block_feeds_a_smaller_class() {
    let mut icc = InterConnectCache::new();
    icc.ensure_cache(2, None);
    let donor = OxHeader { addr: 0x6000_0000, class: 3, magic: 1, life_time: 0 };
    oxidalloc::slab::global::GlobalHandler.push_to_global(&mut icc, 3, vec![donor], false, false);
    let first = oxidalloc::inner::serve::try_split_from_icc(&mut icc, 1, 7, 9);
    assert_eq!(first, Some(OxHeader { addr: 0x6000_0000, class: 1, magic: 9, life_time: 7 }));
    assert_eq!(icc.get_size(3), 0);
    assert_eq!(icc.get_size(1), 2);
    let mut rest = oxidalloc::slab::global::GlobalHandler
        .pop_from_global(&mut icc, 1, 8, false)
        .expect("the pieces are cached")
        .iter()
        .map(|h| h.addr)
        .collect::<Vec<u64>>();
    rest.sort();
    assert_eq!(rest, vec![0x6000_0030, 0x6000_0060]);
    assert_eq!(oxidalloc::inner::serve::try_split_from_icc(&mut icc, 0, 7, 9), None);
}

#[test]
fn buddy_split_frees_upper_halves() {
    let mut space = AddressSpace::new(7, 17179869184);
    let mut k = FakeKernel { next: 0x1000_0000_0000 };
    let mut b = Buddy::new();
    b.buddy_free(0x4000_0000, 16384);
    assert_eq!(b.buddy_alloc(&mut space, &mut k, 4096), Some(0x4000_0000));
    assert_eq!(b.buddy_alloc(&mut space, &mut k, 4096), Some(0x4000_1000));
    assert_eq!(b.buddy_alloc(&mut space, &mut k, 8192), Some(0x4000_2000));
}

#[test]
fn aligned_layout_is_carved_from_the_thread_stack() {
    let mut a = Oxidalloc::new(7, 17179869184, 1, None, 0, 1);
    let mut t = ThreadLocalEngine::new();
    let mut k = FakeKernel { next: 0x1000_0000_0000 };
    let class = match_size_class(100 + 64 + 16).unwrap();
    t.push_to_thread(class, OxHeader { addr: 0x5000_0000, class: class as u8, magic: 1, life_time: 0 });
    let r = a.alloc_layout(&mut t, &mut k, 100, 64).expect("no fatal error");
    assert_eq!(r.ptr, Some(0x5000_0040));
    assert!(!r.spawn_trimmer);
    let none = a.alloc_layout(&mut t, &mut k, 100, 48).expect("no fatal error");
    assert_eq!(none.ptr, None);
}

#[test]
fn cpu_is_asked_every_second_call() {
    let mut icc = InterConnectCache::new();
    icc.ensure_cache(4, None);
    let first = icc.get_cpu_fast();
    assert!(first < 4);
    assert_eq!(icc.get_cpu_fast(), first);
}

#[test]
fn successive_allocations_share_no_byte() {
    let mut a = Oxidalloc::new(7, 17179869184, 1, None, 0, 1);
    let mut t = ThreadLocalEngine::new();
    let mut k = FakeKernel { next: 0x1000_0000_0000 };
    let class = match_size_class(100).unwrap();
    let span = (SIZE_CLASSES[class] + 16) as u64;
    t.push_to_thread(class, OxHeader { addr: 0x5000_0000 + span, class: class as u8, magic: 1, life_time: 0 });
    t.push_to_thread(class, OxHeader { addr: 0x5000_0000, class: class as u8, magic: 1, life_time: 0 });
    let p = a.alloc_inner(&mut t, &mut k, 100).expect("no fatal error").ptr.expect("served");
    let q = a.alloc_inner(&mut t, &mut k, 100).expect("no fatal error").ptr.expect("served");
    assert!(p + span <= q || q + span <= p);
}
