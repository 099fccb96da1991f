//! What an allocation costs at least: the workloads that are timed, and the floors they are timed
//! against.
//!
//! The workloads run against any allocator of the model tester's kind:
//! - [`rng`]: the generator behind them.
//! - [`objects`]: a block that a workload holds.
//! - [`calls`]: the requests a workload makes, and what comes back.
//! - [`workloads`]: fixed-size pairs, batches, a growing vector, reallocation, large blocks.
//! - [`churn`]: a table of objects that are replaced at random.
//! - [`actions`]: random allocations, frees and reallocations.
//! - [`memory`]: growing memory, and counting how often that happens.
//! - [`draws`]: what the random ones draw.
//! - [`rounds`]: what a round of the others asks for.
//! - [`laws`]: what holds of the workloads as wholes.
//! - [`arguments`]: what the driver is asked to measure.
//!
//! The floors are allocators that do less and less of what the heap does:
//! - [`bump`]: a pointer that only moves forward.
//! - [`freelist`]: one list of free blocks of one size.
//! - [`sizeclass`]: a list per size class, with the class taken from the request.
//! - [`pages`]: a list per size class, with the class taken from the page header.
//! - [`mimic`]: a list per page, with the heap's bookkeeping in the header.
//! - [`cells`], [`segregated`], [`paged`]: what they share.
//! - [`floors`]: what they do with a request.
pub mod actions;
pub mod arguments;
pub mod bump;
pub mod calls;
pub mod cells;
pub mod churn;
pub mod draws;
pub mod floors;
pub mod freelist;
pub mod laws;
pub mod memory;
pub mod mimic;
pub mod objects;
pub mod paged;
pub mod pages;
pub mod rng;
pub mod rounds;
pub mod segregated;
pub mod sizeclass;
pub mod workloads;
