# wasmalloc

A single-threaded memory allocator for WebAssembly, with proofs. Small requests are served from
pages of equal blocks with a free list of their own; large ones are runs of 64 KiB slices. A free
gets the layout of its block back, so the page is one address mask away. Linear memory arrives
zeroed and only grows, so fresh blocks need no clearing and empty pages are kept for a while before
their slices go back.

- `src/` is the library. Every function has a contract that Verus proves, down to the words of
  memory that hold the free lists. `heap/laws.rs` states what the operations promise together.
- `src/testing/` is a tester that drives any allocator with random operations and checks what it
  promises; `trace.rs` says what a run is, and `repeat.rs` that it can be repeated.
- `src/roofline/` holds the benchmark's workloads, with the requests that each makes, and the simpler
  allocators it compares with; `laws.rs` says what the answers to the requests decide.
- `tests/` runs all of it over a simulated memory.
- `app/` is ordinary Rust: the global allocator over real linear memory, the system's allocator
  under the tester, fuzzing entry points, and the benchmark driver.
