use oxidalloc::abi::{aligned_alloc_accepts, pvalloc_size, usable_size};
use oxidalloc::inner::global_alloc::Oxidalloc;
use oxidalloc::inner::memalign::{AlignedBlock, TAG_SIZE};
use oxidalloc::slab::match_size_class;
use oxidalloc::slab::thread_local::ThreadLocalEngine;
use oxidalloc::sys::{Advice, Kernel};

struct FakeKernel {
    next: u64,
}

impl Kernel for FakeKernel {
    fn reserve(&mut self, hint: Option<u64>, len: u64) -> Option<u64> {
        let at = hint.unwrap_or(self.next);
        self.next = at + len;
        Some(at)
    }
    fn map_fixed(&mut self, _addr: u64, _len: u64) -> bool {
        true
    }
    fn protect_read_write(&mut self, _addr: u64, _len: u64) -> bool {
        true
    }
    fn advise(&mut self, _addr: u64, _len: u64, _advice: Advice) {}
    fn random(&mut self) -> Option<u64> {
        Some(0)
    }
}

fn fresh() -> (Oxidalloc, ThreadLocalEngine, FakeKernel) {
    (Oxidalloc::new(7, 17179869184, 4, None, 0, 1), ThreadLocalEngine::new(), FakeKernel { next: 0x1000_0000_0000 })
}

fn memalign(st: &mut (Oxidalloc, ThreadLocalEngine, FakeKernel), align: u64, size: u64) -> Option<AlignedBlock> {
    let (a, t, k) = st;
    a.memalign_inner(t, k, align, size).expect("no fatal error")
}

fn valloc(st: &mut (Oxidalloc, ThreadLocalEngine, FakeKernel), size: u64) -> Option<AlignedBlock> {
    memalign(st, 4096, size)
}

fn pvalloc(st: &mut (Oxidalloc, ThreadLocalEngine, FakeKernel), size: u64) -> Option<AlignedBlock> {
    memalign(st, 4096, pvalloc_size(size))
}

/// The usable bytes at an aligned block whose raw allocation asked for
/// `size + alignment + 16` bytes.
fn malloc_usable_size(b: &AlignedBlock, size: u64, alignment: u64) -> u64 {
    let class = match_size_class((size + alignment + TAG_SIZE) as usize).expect("a slab class");
    usable_size(class as u8, None, b.aligned - b.raw).expect("slab block")
}

#[test]
fn test_memalign() {
    let mut st = fresh();
    let align = 512;
    let size = 1024;
    let ptr = memalign(&mut st, align, size).expect("served");
    assert_eq!(ptr.aligned % align, 0, "memalign returned unaligned address");
}

#[test]
fn test_aligned_alloc() {
    let mut st = fresh();
    let align = 128;
    let size = 256;
    assert!(aligned_alloc_accepts(align));
    let ptr = memalign(&mut st, align, size).expect("served");
    assert_eq!(ptr.aligned % align, 0, "aligned_alloc returned unaligned address");
}

#[test]
fn test_valloc() {
    let mut st = fresh();
    let size = 100;
    let ptr = valloc(&mut st, size).expect("served");
    assert_eq!(ptr.aligned % 4096, 0, "valloc returned unaligned address (expected 4096)");
}

#[test]
fn test_valloc_and_pvalloc() {
    let mut st = fresh();
    let ptr1 = valloc(&mut st, 100).expect("served");
    assert_eq!(ptr1.aligned % 4096, 0);

    let ptr2 = pvalloc(&mut st, 100).expect("served");
    assert_eq!(ptr2.aligned % 4096, 0);
    let usable2 = malloc_usable_size(&ptr2, pvalloc_size(100), 4096);
    assert!(usable2 >= 4096);

    let ptr3 = pvalloc(&mut st, 5000).expect("served");
    assert_eq!(ptr3.aligned % 4096, 0);
    let usable3 = malloc_usable_size(&ptr3, pvalloc_size(5000), 4096);
    assert!(usable3 >= 8192);
}

#[test]
fn test_posix_memalign() {
    let (mut a, mut t, mut k) = fresh();
    let align = 256;
    let size = 100;
    let res = a.align_inner(&mut t, &mut k, align, size).expect("no fatal error");
    let ptr = res.expect("posix_memalign failed");
    assert_eq!(ptr.aligned % align, 0, "posix_memalign returned unaligned address");
    assert_eq!(a.align_inner(&mut t, &mut k, 24, size).expect("no fatal error"), Err(22));
}
