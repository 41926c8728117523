use oxidalloc::slab::thread_local::ThreadLocalEngine;
use oxidalloc::OxHeader;
use std::hint::black_box;
use std::time::Instant;

#[test]
fn tls_speed_test() {
    let mut tls = ThreadLocalEngine::new();
    let start = Instant::now();
    tls.push_to_thread(1, OxHeader { addr: 0x1000, class: 1, magic: 1, life_time: 0 });
    for _ in 0..1000000 {
        let header = black_box(tls.pop_from_thread(1)).expect("the block");
        tls.push_to_thread(1, black_box(header));
    }
    let ns = start.elapsed().as_nanos() as f64 / 1_000_000.0;
    println!("TLS pop+push: {:.2} ns/op", ns);
}
