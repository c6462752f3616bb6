//! A memory request: a size in bytes and a power-of-two alignment.

use vstd::prelude::*;
use crate::math::is_pow2;

verus! {

/// An immutable (size, alignment) pair describing a memory request.
///
/// The alignment must be a power of two; callers are responsible for this
/// invariant, and the core's behavior is specified only when it holds.
#[derive(Clone, Copy, PartialEq, Eq, Structural)]
pub struct Layout {
    pub size: usize,
    pub align: usize,
}

impl Layout {
    /// Well-formed: the alignment is a power of two (hence at least one).
    pub open spec fn wf(self) -> bool {
        is_pow2(self.align)
    }

    /// Builds a layout; the caller must supply a power-of-two alignment.
    pub fn from_size_align(size: usize, align: usize) -> (l: Layout)
        requires
            is_pow2(align),
        ensures
            l.size == size,
            l.align == align,
            l.wf(),
    {
        Layout { size, align }
    }
}

} // verus!
