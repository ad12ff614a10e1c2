//! Page and word arithmetic.

use vstd::prelude::*;

verus! {

pub const PAGE_SIZE_BITS: usize = 12;

/// The size in bytes of a page, the unit in which memory is committed.
pub const PAGE_SIZE: usize = 4096;

/// The size in bytes of a machine word.
pub const PTR_WIDTH: usize = 8;

pub open spec fn spec_is_page_aligned(val: usize) -> bool {
    val % PAGE_SIZE == 0
}

/// The least multiple of the page size that is not below `val`.
pub open spec fn spec_page_align(val: int) -> int {
    ((val + PAGE_SIZE - 1) / (PAGE_SIZE as int)) * PAGE_SIZE
}

#[verifier::when_used_as_spec(spec_is_page_aligned)]
pub fn is_page_aligned(val: usize) -> (r: bool)
    ensures
        r == spec_is_page_aligned(val),
{
    val % PAGE_SIZE == 0
}

/// `spec_page_align` rounds up to the next multiple of the page size.
pub proof fn lemma_page_align(val: int)
    requires
        0 <= val,
    ensures
        val <= spec_page_align(val) < val + PAGE_SIZE,
        spec_page_align(val) % (PAGE_SIZE as int) == 0,
{
}

/// Rounds `val` up to a multiple of the page size.
pub fn page_align(val: usize) -> (r: usize)
    requires
        val + PAGE_SIZE - 1 <= usize::MAX,
    ensures
        r == spec_page_align(val as int),
        is_page_aligned(r),
        val <= r < val + PAGE_SIZE,
{
    proof {
        lemma_page_align(val as int);
    }
    ((val + (PAGE_SIZE - 1)) / PAGE_SIZE) * PAGE_SIZE
}

} // verus!
