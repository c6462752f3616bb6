//! The allocator core: stateless decisions between the platform's fast and
//! slow paths.
//!
//! Every public allocator operation consults the alignment policy once and
//! then issues one or two platform calls.  The decisions are pure functions
//! from the request to a plan; whoever drives the platform — the verified
//! model heap, or an unverified adapter over the native heap — follows the
//! plan it is handed.

use vstd::prelude::*;
use crate::layout::Layout;
use crate::policy::{spec_fits_default, fits_default, MAX_SUPPORTED_ALIGN, MIN_ALIGN};

verus! {

/// Which platform primitive an allocation request should use.
#[derive(Clone, Copy, PartialEq, Eq, Structural, Debug)]
pub enum AllocPlan {
    /// Fast path: the platform's plain sized allocation (or its zero-filling
    /// variant) already satisfies the alignment.
    Default,
    /// Slow path: the platform's aligned-allocation primitive; a zero-filled
    /// request then fills the block itself.
    Aligned,
    /// The alignment exceeds the platform-representable bound: fail with the
    /// sentinel without calling the platform at all.
    UnsupportedAlign,
}

/// Which route a reallocation request should take.
#[derive(Clone, Copy, PartialEq, Eq, Structural, Debug)]
pub enum ReallocPlan {
    /// The old alignment still fits the default path against the new size:
    /// the platform's sized-reallocate primitive may be used directly.
    Native,
    /// Manual allocate-copy-free fallback, preserving the old alignment.
    Fallback,
    /// The alignment exceeds the platform-representable bound: fail with the
    /// sentinel without calling the platform at all.
    UnsupportedAlign,
}

/// The plan an allocation (plain or zero-filled) must follow.
pub open spec fn spec_alloc_plan(layout: Layout) -> AllocPlan {
    if spec_fits_default(layout.size, layout.align) {
        AllocPlan::Default
    } else if layout.align > MAX_SUPPORTED_ALIGN {
        AllocPlan::UnsupportedAlign
    } else {
        AllocPlan::Aligned
    }
}

/// The route a reallocation must take: the native primitive is trusted only
/// when the old alignment fits the default path against the new size.
pub open spec fn spec_realloc_plan(old_layout: Layout, new_size: usize) -> ReallocPlan {
    if old_layout.align <= MIN_ALIGN && old_layout.align <= new_size {
        ReallocPlan::Native
    } else if old_layout.align > MAX_SUPPORTED_ALIGN {
        ReallocPlan::UnsupportedAlign
    } else {
        ReallocPlan::Fallback
    }
}

/// The stateless allocator core.  It owns no memory and retains nothing
/// between calls; it only chooses plans.
pub struct System;

impl System {
    /// Chooses the path for an allocate or allocate-zeroed request.
    pub fn alloc_plan(layout: Layout) -> (p: AllocPlan)
        ensures
            p == spec_alloc_plan(layout),
    {
        if fits_default(layout.size, layout.align) {
            AllocPlan::Default
        } else if layout.align > MAX_SUPPORTED_ALIGN {
            AllocPlan::UnsupportedAlign
        } else {
            AllocPlan::Aligned
        }
    }

    /// Chooses the route for a reallocation request.
    pub fn realloc_plan(old_layout: Layout, new_size: usize) -> (p: ReallocPlan)
        ensures
            p == spec_realloc_plan(old_layout, new_size),
    {
        if fits_default(new_size, old_layout.align) {
            ReallocPlan::Native
        } else if old_layout.align > MAX_SUPPORTED_ALIGN {
            ReallocPlan::UnsupportedAlign
        } else {
            ReallocPlan::Fallback
        }
    }
}

} // verus!
