use oxidalloc::big_allocation::{big_free, big_malloc};
use oxidalloc::inner::global_alloc::Oxidalloc;
use oxidalloc::sys::{Advice, Kernel};
use oxidalloc::va::bitmap::Segment;
use oxidalloc::va::space::AddressSpace;
use std::hint::black_box;
use std::time::Instant;

/// A kernel that places every reservation after the previous one and
/// grants every mapping.
struct FakeKernel {
    next: u64,
}

impl Kernel for FakeKernel {
    fn reserve(&mut self, _hint: Option<u64>, len: u64) -> Option<u64> {
        let at = self.next;
        self.next = at + len + 4096;
        Some(at)
    }
    fn map_fixed(&mut self, _addr: u64, _len: u64) -> bool {
        true
    }
    fn protect_read_write(&mut self, _addr: u64, _len: u64) -> bool {
        true
    }
    fn advise(&mut self, _addr: u64, _len: u64, _advice: Advice) {}
    fn random(&mut self) -> Option<u64> {
        Some(0)
    }
}

#[test]
fn test_segment_crossing() {
    let mut space = AddressSpace::new(7, 68719476736);
    let mut k = FakeKernel { next: 0x1000_0000_0000 };
    let size_1: [u64; 2] = [1024 * 1024 * 1024 * 3, 1024 * 1024 * 1024 * 2];
    let mut adresses = Vec::new();
    for i in 0..256 {
        let addr = space
            .allocate(size_1[i % 2], &mut k)
            .expect("no fatal error")
            .unwrap_or_else(|| panic!("Failed to allocate {}b, loop: {}", size_1[i % 2], i));
        assert!(space.map.is_ours(addr), "Address is not ours, size: {}", size_1[i % 2]);
        adresses.push([addr, size_1[i % 2]]);
    }
    for addr in adresses {
        space.map.free(addr[0], addr[1]);
    }
}

#[test]
fn test_va_claim_race() {
    let base = 0x4000_0000u64;
    let mut segment = Segment::new(base, base + 64 * 4096, 0, None);
    let r1 = segment.try_claim(0, 32);
    let r2 = segment.try_claim(0, 32);
    assert!(r1 ^ r2, "Both calls returned same result: r1={}, r2={}", r1, r2);
    assert_eq!(segment.map[0], (1u64 << 32) - 1);
    assert_eq!(segment.claim[0], 0);
}

#[test]
fn test_va_multi_chunk_race() {
    let base = 0x4000_0000u64;
    let mut segment = Segment::new(base, base + 128 * 4096, 0, None);
    let r1 = segment.try_claim(48, 16);
    let r2 = segment.try_claim(60, 8);
    assert!(r1 ^ r2, "Both calls returned same result: r1={}, r2={}", r1, r2);
}

#[test]
fn is_ours_speed_test() {
    const N: usize = 10_000_000;
    let mut space = AddressSpace::new(7, 17179869184);
    let mut k = FakeKernel { next: 0x1000_0000_0000 };
    let ptr = space.allocate(1024 * 1024 * 1024, &mut k).unwrap().unwrap();
    let start = Instant::now();
    for _ in 0..N {
        black_box(space.map.is_ours(black_box(ptr)));
    }
    let ns = start.elapsed().as_nanos() as f64 / N as f64;
    println!("Get speed: {:.2} ns/op", ns);
}

#[test]
fn bitmap_stress_test() {
    let mut a = Oxidalloc::new(7, 17179869184, 1, None, 0, 1);
    let mut k = FakeKernel { next: 0x1000_0000_0000 };
    let start = Instant::now();
    for _ in 0..2048 {
        let h = big_malloc(&mut a.big_cache, &mut a.big_map, &mut a.space, &mut k, 1024 * 1024 * 1024, false, false)
            .expect("no fatal error");
        let header = black_box(h).expect("memory served");
        big_free(&mut a.big_cache, &mut a.big_map, &mut a.space, &mut k, header, false, false).expect("ours");
    }
    println!("General Test took {}ms", start.elapsed().as_millis());
}
