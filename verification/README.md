# pagecache

A page cache for a log-structured store, written in Verus.

A page is a stack of fragments. Writers add fragments or replace the page;
every write has its place in the log before it is in memory. Readers merge the
fragments. Pages leave memory when they are not needed and come back out of the
log; snapshots of the page table keep recovery short.

The library under `src/` makes the decisions and is verified. It does no input
or output: each operation is a sequence of steps, and the caller carries out
what a step asks for (`step.rs`) before it goes on to the next.

- `page_cache.rs`: the cache and its operations
- `state.rs`, `transitions.rs`: what the cache is, and what each step does to it
- `stack.rs`: the stacks of fragments
- `snapshot.rs`: snapshots, and how they catch up with the log
- `snapshot_file.rs`: the form of snapshot files
- `reservation.rs`: reserved room in the log
- `materializer.rs`: the trait through which pages get their meaning
- `laws/`: what holds of the cache as a whole: of versions, identifiers, values,
  recovery, what reads give back, and of any run of the operations

`app/` is a concurrent page cache on disk, built around the library. Its users
are pinned while they hold versions of pages, and the identifier of a removed
page is used again when everyone who was pinned at its removal has left.
