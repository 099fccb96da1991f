//! A single-threaded memory allocator for WebAssembly: free lists sharded by size class in aligned
//! pages, over a linear memory that only ever grows.
//!
//! - [`backend`]: the linear memory an allocator works on.
//! - [`layout`], [`arith`], [`bytes`], [`bitmap`]: requests, rounding, words and sets of slices.
//! - [`bins`]: size classes, and which page kind serves them.
//! - [`slices`]: the 64 KiB slices of memory and who has them.
//! - [`page`]: a page of blocks of one size, with its free list.
//! - [`model`]: the state of a heap in the abstract.
//! - [`heap`]: the allocator.
//! - [`testing`]: a tester that drives any allocator and checks what it promises.
//! - [`roofline`]: the workloads that are timed, and the floors they are timed against.
#![allow(unused_imports)]

pub mod arith;
pub mod backend;
pub mod bins;
pub mod bitmap;
pub mod bytes;
pub mod heap;
pub mod layout;
pub mod model;
pub mod page;
pub mod roofline;
pub mod slices;
pub mod testing;
