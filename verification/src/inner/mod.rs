pub mod global_alloc;
pub mod memalign;
pub mod release;
pub mod serve;
