# turbo_gc_hmr

A verified library for two pieces of a persistent incremental build engine:

- **Garbage collection of the task graph.** `src/gc_roots.rs` keeps the persisted map of GC
  roots (tasks without a persistent parent that something outside the graph holds) and refreshes
  it once per pass: live roots stay `MostRecent`, the first pass of a session starts the clock of
  roots that are gone, and roots that stay gone past the TTL are handed to collection.
  `src/gc_pass.rs` holds every decision a pass takes (seed jobs, what a collect job does, how a
  cascade continues, how the roots map is reconciled and whether it must be written back), and
  `src/gc_time.rs` the clock and TTL.
- **Hot module replacement.** `src/hmr.rs` combines per-chunk updates into one update for a
  server session (last writer wins per chunk, merged updates deduplicated in first-seen order,
  any total update restarts the batch); `src/ordered_map.rs` is the insertion-ordered map it
  builds on. `src/file_source.rs` decides how a raw source's content is obtained. The id of an
  aggregate version (a hash over its per-chunk version ids) is not computed by this library.

The functions in `src/` are verified with Verus against their contracts, except three small
trusted wrappers in `src/gc_time.rs` that read the wall clock through `std::time` (their contracts
claim nothing of the reading). The laws the design relies on are stated and proved as `law_*`
proof functions next to the code they are about.

`app/` is ordinary Rust around the library: the bincode-encoded form of the roots map and a pass
driver that runs the jobs on a thread pool against a storage trait. `tests/` exercises the
library on concrete values.
