use oxidalloc::inner::global_alloc::Oxidalloc;
use oxidalloc::slab::global::GlobalHandler;
use oxidalloc::slab::{match_size_class, SIZE_CLASSES, TLS_MAX_BLOCKS};
use oxidalloc::sys::{Advice, Kernel};
use oxidalloc::trim::gtrim::GTrim;
use oxidalloc::OxHeader;

/// A kernel that hands out address space from a fixed base and grants
/// every mapping; advice is recorded.
struct FakeKernel {
    next: u64,
    advised: Vec<(u64, u64, u64)>,
}

impl Kernel for FakeKernel {
    fn reserve(&mut self, hint: Option<u64>, len: u64) -> Option<u64> {
        let at = hint.unwrap_or(self.next);
        self.next = at + len;
        Some(at)
    }
    fn map_fixed(&mut self, _addr: u64, _len: u64) -> bool {
        true
    }
    fn protect_read_write(&mut self, _addr: u64, _len: u64) -> bool {
        true
    }
    fn advise(&mut self, addr: u64, len: u64, advice: Advice) {
        self.advised.push((addr, len, advice.0));
    }
    fn random(&mut self) -> Option<u64> {
        Some(0)
    }
}

fn fresh() -> (Oxidalloc, FakeKernel) {
    (Oxidalloc::new(7, 17179869184, 4, None, 0, 1), FakeKernel { next: 0x1000_0000_0000, advised: Vec::new() })
}

/// `count` freed blocks of `class`, stamped at time 1, handed to the shared
/// cache the way a thread's overflowing cache hands them over.
fn free_blocks(a: &mut Oxidalloc, class: usize, count: usize) {
    let block = (SIZE_CLASSES[class] + 16) as u64;
    let mut batch = Vec::new();
    for i in 0..count {
        batch.push(OxHeader { addr: 0x2000_0000_0000 + (i as u64) * block, class: class as u8, magic: a.freed_magic, life_time: 1 });
    }
    GlobalHandler.push_to_global(&mut a.icc, class, batch, false, false);
}

#[test]
fn trim_releases_large_class_blocks() {
    const SIZE: usize = 8192;
    let class = match_size_class(SIZE).expect("size class exists");
    assert!(SIZE_CLASSES[class] >= 4096, "test targets >= 4k classes");
    let (mut a, mut k) = fresh();
    a.trim.current_stamp = 1;
    free_blocks(&mut a, class, 128);
    a.trim.current_stamp = 10_000;
    a.trim.average_block_times_global = 1;
    let (ok, freed) = GTrim
        .trim(&mut a.trim, &mut a.icc, &mut a.big_cache, &mut a.space, &mut k, 0, a.freed_magic)
        .expect("no corruption");
    assert_eq!(ok, 1, "trim should report success");
    assert!(freed > 0, "trim should release some bytes for large classes");
}

#[test]
fn trim_releases_very_large_class_blocks() {
    const SIZE: usize = 65536;
    let class = match_size_class(SIZE).expect("size class exists");
    assert!(SIZE_CLASSES[class] >= 4096, "test targets >= 4k classes");
    let (mut a, mut k) = fresh();
    a.trim.current_stamp = 1;
    free_blocks(&mut a, class, 64);
    a.trim.current_stamp = 10_000;
    a.trim.average_block_times_global = 1;
    let (ok, freed) = GTrim
        .trim(&mut a.trim, &mut a.icc, &mut a.big_cache, &mut a.space, &mut k, 0, a.freed_magic)
        .expect("no corruption");
    assert_eq!(ok, 1, "trim should report success");
    assert!(freed > 0, "trim should release some bytes for large classes");
}

#[test]
fn trim_does_not_touch_sub_4k_icc_class() {
    const SIZE: usize = 1024;
    let class = match_size_class(SIZE).expect("size class exists");
    assert!(SIZE_CLASSES[class] < 4096, "test targets sub-4k classes");
    let (mut a, mut k) = fresh();
    a.trim.current_stamp = 1;
    free_blocks(&mut a, class, TLS_MAX_BLOCKS[class] + 64);
    let before = a.icc.get_size(class);
    assert!(before > 0, "expected sub-4k blocks to reach ICC");
    a.trim.current_stamp = 20_000;
    a.trim.average_block_times_global = 1;
    let _ = GTrim.trim(&mut a.trim, &mut a.icc, &mut a.big_cache, &mut a.space, &mut k, 0, a.freed_magic);
    let after = a.icc.get_size(class);
    assert_eq!(after, before, "trim should not touch sub-4k ICC class");
}
