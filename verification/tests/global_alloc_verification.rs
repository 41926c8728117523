use oxidalloc::inner::global_alloc::Oxidalloc;
use oxidalloc::slab::thread_local::ThreadLocalEngine;
use oxidalloc::sys::{Advice, Kernel};

/// A kernel that hands out address space from a fixed base and grants
/// every mapping; nothing is touched.
struct FakeKernel {
    next: u64,
    advised: Vec<(u64, u64, u64)>,
}

impl FakeKernel {
    fn new() -> Self {
        FakeKernel { next: 0x1000_0000_0000, advised: Vec::new() }
    }
}

impl Kernel for FakeKernel {
    fn reserve(&mut self, hint: Option<u64>, len: u64) -> Option<u64> {
        let at = hint.unwrap_or(self.next);
        self.next = at + len;
        Some(at)
    }
    fn map_fixed(&mut self, _addr: u64, _len: u64) -> bool {
        true
    }
    fn protect_read_write(&mut self, _addr: u64, _len: u64) -> bool {
        true
    }
    fn advise(&mut self, addr: u64, len: u64, advice: Advice) {
        self.advised.push((addr, len, advice.0));
    }
    fn random(&mut self) -> Option<u64> {
        Some(0)
    }
}

fn fresh() -> (Oxidalloc, ThreadLocalEngine, FakeKernel) {
    (Oxidalloc::new(7, 17179869184, 4, None, 0, 1), ThreadLocalEngine::new(), FakeKernel::new())
}

#[test]
fn test_vec_growth() {
    let mut v = Vec::new();
    for i in 0..10_000 {
        v.push(i);
    }
    assert_eq!(v.len(), 10_000);
    assert_eq!(v[0], 0);
    assert_eq!(v[9999], 9999);

    // The same growth, served by the allocator: capacities doubling from 4
    // to 16384 four-byte elements, each buffer distinct.
    let (mut a, mut t, mut k) = fresh();
    let mut cap = 4usize;
    let mut seen = Vec::new();
    while cap < 10_000 * 2 {
        let r = a.alloc_inner(&mut t, &mut k, cap * 4).expect("no fatal error");
        let p = r.ptr.expect("allocation served");
        assert!(!seen.contains(&p));
        seen.push(p);
        cap *= 2;
    }
    assert_eq!(seen.len(), 13);
}

#[test]
fn test_box() {
    let b = Box::new(12345);
    assert_eq!(*b, 12345);

    let (mut a, mut t, mut k) = fresh();
    let r = a.alloc_inner(&mut t, &mut k, 4).expect("no fatal error");
    assert!(r.ptr.is_some());
}

#[test]
fn test_aligned_allocation() {
    // A boxed value holding 42; its 256-byte alignment is asked of the
    // allocator below, as the global allocator interface would ask it.
    let b = Box::new([42u8; 256]);
    assert_eq!(b[0], 42);

    let (mut a, mut t, mut k) = fresh();
    let block = a.memalign_inner(&mut t, &mut k, 256, 256).expect("no fatal error").expect("served");
    assert_eq!(block.aligned % 256, 0, "Box allocation not aligned to 256");
    assert!(block.aligned >= block.raw + 16);
}

#[test]
fn test_huge_allocation() {
    let mut v = vec![0u8; 10 * 1024 * 1024];
    v[0] = 1;
    let len = v.len();
    v[len - 1] = 1;
    assert_eq!(v.len(), 10 * 1024 * 1024);

    let (mut a, mut t, mut k) = fresh();
    let r = a.alloc_inner(&mut t, &mut k, 10 * 1024 * 1024).expect("no fatal error");
    let p = r.ptr.expect("big allocation served");
    assert_eq!((p - 16) % 4096, 0);
    assert_eq!(a.big_map.get(p - 16), Some(10 * 1024 * 1024));
}
