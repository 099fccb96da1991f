//! The model-based tester and what it needs.
//!
//! - [`rng`]: deterministic entropy (a generator of random numbers and a stream of bytes) behind
//!   one trait, so that the same driver is reproducible from a seed and steered by a fuzzer.
//! - [`choice`]: the next operation, chosen from the entropy and the profile.
//! - [`draws`]: what the words of the entropy come to.
//! - [`intervals`]: the live blocks by address, to see that no two overlap.
//! - [`text`]: the numbers in a failure report.
//! - [`report`]: what a failure says.
//! - [`wording`]: what can be read off a report.
//! - [`pattern`]: what the tester writes into blocks and how it checks it.
//! - [`model`]: a table of live blocks with recomputable contents, driven through an allocator by
//!   a weighted random stream of operations, checking what an allocator promises on every step.
//! - [`trace`]: what a run of the tester is.
//! - [`lifetimes`]: in which order the blocks of a run come and go.
//! - [`repeat`]: that a run can be repeated.
//! - [`fuzz`]: the tester driven by a fuzzer's bytes.
//! - [`sim`]: the heap over a simulated linear memory, ready for the tester.
pub mod choice;
pub mod draws;
pub mod fuzz;
pub mod intervals;
pub mod lifetimes;
pub mod model;
pub mod pattern;
pub mod repeat;
pub mod report;
pub mod rng;
pub mod sim;
pub mod text;
pub mod trace;
pub mod wording;
