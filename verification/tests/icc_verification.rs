use oxidalloc::slab::interconnect::InterConnectCache;
use oxidalloc::OxHeader;

fn cache(ncpu: usize) -> InterConnectCache {
    let mut icc = InterConnectCache::new();
    icc.ensure_cache(ncpu, None);
    icc
}

fn header(addr: u64, magic: u8) -> OxHeader {
    OxHeader { addr, class: 0, magic, life_time: 0 }
}

#[test]
fn test_icc_basic() {
    let mut icc = cache(2);
    // First CPU: a push, then a pop that gets the same block back.
    let h1 = header(0x1000, 0);
    icc.push_on(0, vec![h1], false, false, 0);
    let popped = icc.try_pop_on(0, 1, false, 0).expect("a block");
    assert_eq!(popped, vec![h1]);
    // Second CPU: the same.
    let h2 = header(0x2000, 0);
    icc.push_on(0, vec![h2], false, false, 1);
    let popped = icc.try_pop_on(0, 1, false, 1).expect("a block");
    assert_eq!(popped, vec![h2]);
}

#[test]
fn test_icc_stealing() {
    let mut icc = cache(2);
    let h1 = header(0x1000, 0);
    icc.push_on(0, vec![h1], false, false, 0);
    // A pop on the other CPU steals it.
    let popped = icc.try_pop_on(0, 1, false, 1);
    assert_eq!(popped, Some(vec![h1]));
}

#[test]
fn test_icc_high_load() {
    let ncpu = 4;
    let mut icc = cache(ncpu);
    for i in 0..4 {
        let cpu = i % ncpu;
        let h = header(0x1000 * (i as u64 + 1), 0);
        icc.push_on(0, vec![h], false, false, cpu);
        let popped = icc.try_pop_on(0, 1, false, cpu);
        assert!(popped.is_some());
    }
}

#[test]
fn test_icc_brutal() {
    let ncpu = 4;
    let mut icc = cache(ncpu);
    let headers: Vec<OxHeader> = (0..40).map(|k| header(0x10_0000 + 64 * k as u64, 0xEE)).collect();
    for i in 0..4 {
        let cpu = i % ncpu;
        let offset = i * 10;
        for it in 0..4 {
            let class = (i + it) % 3;
            for k in 0..5 {
                icc.push_on(class, vec![headers[offset + k]], false, false, cpu);
            }
            let _ = icc.try_pop_on(class, 2, false, cpu);
            for k in 5..10 {
                icc.push_on(class, vec![headers[offset + k]], false, false, cpu);
            }
            let _ = icc.try_pop_on(class, 8, false, cpu);
        }
    }
}
