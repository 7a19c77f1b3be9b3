//! Small generic functions that are known to panic or not to, for the analysis
//! to be tried on from a crate that instantiates them.

use vstd::prelude::*;

verus! {

/// Asserts that a slice is not empty. The assertion is proved rather than
/// tested: every caller is held to it, and none of it is left in the compiled
/// body, which is empty and reaches no panic.
pub fn must_assert_generic<T>(v: &[T])
    requires
        v@.len() > 0,
{
    assert(v@.len() > 0);
}

/// Reaches `divide-by-zero` for a type with no size. What the divisor is worth
/// has no value until the type does, and a type with no size is one of them.
pub fn must_generic_size_divide<T>(a: u64) -> (r: u64)
    requires
        vstd::layout::size_of::<T>() > 0,
    ensures
        r == a as nat / vstd::layout::size_of::<T>(),
{
    a / (core::mem::size_of::<T>() as u64)
}

} // verus!
