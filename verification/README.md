# oxidalloc

The core of a slab-based memory allocator, written in Verus with its
behaviour stated in contracts and proved.

- `slab`: size classes, the per-thread caches, the per-CPU shared cache,
  carving fresh slab segments, quarantine.
- `va`: the reserved address space (segment bitmaps, the radix map of
  owners, reservations) and the start-up settings.
- `big_allocation`: allocations above the largest class, with a small cache
  of freed blocks, and resizing in place over the blocks that follow.
- `inner`: the allocation paths (hot path, refill, aligned requests, the
  start-up state) and the release, resize and zeroed-array paths.
- `trim`: the shared and per-thread trimmers and their timing.
- `sys`: the kernel interface the core asks for (a trait), flags, error
  mapping, NUMA topology parsing.
- `internals`, `free`, `buddy`: the 22-class size table, the fixed bitmap
  of 64 KiB blocks, the share-based trimming decision, and a buddy
  allocator.
- `abi`: the arithmetic behind the C entry points.

`app/` holds the process plumbing: the kernel calls through `rustix`, the
environment, the topology files, the per-thread caches, the trimming
thread, the C entry points (`malloc`, `free`, `free_sized`,
`free_aligned_sized`, `calloc`, `realloc`, `reallocarray`, `recallocarray`,
`malloc_usable_size`, `posix_memalign`, `memalign`, `aligned_alloc`,
`valloc`, `pvalloc`, `malloc_trim`), and the global allocator interface.
