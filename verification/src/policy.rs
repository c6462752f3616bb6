//! The alignment policy: when does the platform's default allocation path
//! already satisfy an alignment request?

use vstd::prelude::*;
use vstd::arithmetic::power2::{lemma2_to64, pow2};
use crate::math::is_pow2;

verus! {

/// The alignment the platform's default allocation primitive always
/// provides, whatever the request: fixed by the target word size and ABI.
pub const MIN_ALIGN: usize = 16;

/// The largest alignment the platform's aligned-allocation primitive
/// accepts; above this bound a request must fail without reaching the
/// platform.
pub const MAX_SUPPORTED_ALIGN: usize = 0x8000_0000;

/// The default path suffices exactly when the alignment is within the
/// platform minimum and no larger than the size.  Requiring
/// `align <= size` as well is conservative: the default allocator aligns a
/// block to a boundary related to its own size class, so this test accepts
/// only requests the default path is known to satisfy.
pub open spec fn spec_fits_default(size: usize, align: usize) -> bool {
    align <= MIN_ALIGN && align <= size
}

/// The alignment policy, pure and total.
pub fn fits_default(size: usize, align: usize) -> (r: bool)
    ensures
        r == spec_fits_default(size, align),
{
    align <= MIN_ALIGN && align <= size
}

/// The platform minimum alignment is itself a power of two.
pub proof fn lemma_min_align_is_pow2()
    ensures
        is_pow2(MIN_ALIGN),
{
    lemma2_to64();
    assert(4nat < 64 && MIN_ALIGN == pow2(4));
}

} // verus!
