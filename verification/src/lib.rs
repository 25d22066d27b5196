//! A segregated-list memory allocator for device memory.
//!
//! The allocator manages large fixed-size memory blocks obtained from a
//! graphics driver and carves them into individually freeable, alignment- and
//! tiling-aware sub-allocations. Free chunks are kept in power-of-two size
//! buckets and served best-fit; adjacent free chunks are coalesced on free.
//!
//! Obtaining and releasing the underlying device memory is the caller's job:
//! the bookkeeping here is pure, and the functions that would need a new
//! block report that need to the caller instead of calling a driver.

pub mod allocator;
pub mod bucket;
pub mod laws;
pub mod math;
pub mod pool;
pub mod seq_sum;
pub mod types;
