//! A policy layer over a platform's native heap allocator.
//!
//! The library decides, for each allocation request, whether the platform's
//! default allocation path already satisfies the requested alignment (the
//! fast path) or whether an alignment-aware primitive, or a manual
//! allocate-copy-free reallocation, is needed (the slow path).  The decisions
//! are pure and fully specified; a deterministic model heap exercises them
//! against a verified model of the platform backend.

pub mod heap;
pub mod layout;
pub mod math;
pub mod policy;
pub mod system;
