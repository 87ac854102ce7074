//! A bitmap-based memory allocator for a single caller-provided region.
//!
//! The allocator tracks free and used state at a fixed four-byte
//! granularity ("slices") using a bitmap stored at the front of the
//! managed region, and serves variable-size, optionally aligned
//! allocations out of the remainder.

pub mod allocator;
pub mod bits;
