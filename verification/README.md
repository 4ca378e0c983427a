# dios

A bounded page cache for direct file I/O, verified with Verus.

A pool owns a fixed arena of frames. Readers look pages up, pin them under an
epoch, and may keep frames beyond it within a budget. Misses are read once,
however many readers wait; sequential readers are read ahead of within a fixed
number of credits. Staged writes and durability barriers share the same ring.
Capacities are fixed when a pool is built, and nothing waits: every operation is
admitted, refused or pending.

The control plane does no I/O. A host takes submissions from the pool, performs
them, and records their results; `app/` holds such a host, with one worker
thread and handles that give their holds back on drop.

## Layout

- `src/driver.rs` the submission ring and the file table
- `src/pool/frames.rs`, `table.rs`, `clock.rs`, `epoch.rs`, `retention.rs`,
  `release_ring.rs` frames, the page map, victim selection, reader epochs and
  retained handles
- `src/pool/residency.rs` these together: what a guard or a handle protects
  keeps its bytes until it is given back
- `src/pool/miss.rs`, `read_spans.rs`, `prefetch/` misses, vectored reads and
  speculation
- `src/pool/cache.rs`, `span_routing.rs` the cache: one read per page, one
  credit per read, every frame in exactly one place
- `src/pool/control.rs` and the modules around it (`demand`, `routing`,
  `reclaim`, `staging`, `retirement`, `readahead`, `polling`, `host`) the pool
- `src/pool/laws.rs` what the pool promises over several calls, with
  `guidance.rs` on what moves a reader's stream and a frame's second chance
- `src/pool/model.rs`, `span_model.rs`, `prediction_model.rs` a bounded plane
  over the same structures, moved one step at a time
- `tests/` the library run from outside

Public `proof fn` items, there and beside the types they speak of, state what
holds across operations.
