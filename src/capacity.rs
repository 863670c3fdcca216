//! `Vec`'s capacity management, which leaves the elements as they are.
use vstd::prelude::*;

verus! {

/// Relies on `Vec::capacity`, which is never below the length.
#[verifier::external_body]
pub(crate) fn vec_capacity<T>(v: &Vec<T>) -> (r: usize)
    ensures
        r >= v@.len(),
{
    v.capacity()
}

/// Room for `additional` more elements of type `T` after `len` of them
/// stays within `usize::MAX` elements and `isize::MAX` bytes, as `Vec`
/// requires of its capacity.
pub open spec fn fits_capacity<T>(len: nat, additional: nat) -> bool {
    &&& len + additional <= usize::MAX
    &&& (len + additional) * vstd::layout::size_of::<T>() <= isize::MAX
}

/// Relies on `Vec::reserve_exact`, which only grows the allocation. It
/// panics when the new capacity overflows `usize` or exceeds `isize::MAX`
/// bytes, which the precondition rules out.
#[verifier::external_body]
pub(crate) fn vec_reserve_exact<T>(v: &mut Vec<T>, additional: usize)
    requires
        fits_capacity::<T>(old(v)@.len(), additional as nat),
    ensures
        final(v)@ == old(v)@,
{
    v.reserve_exact(additional)
}

/// Relies on `Vec::shrink_to_fit`, which only shrinks the allocation.
#[verifier::external_body]
pub(crate) fn vec_shrink_to_fit<T>(v: &mut Vec<T>)
    ensures
        final(v)@ == old(v)@,
{
    v.shrink_to_fit()
}

/// Relies on `Vec::shrink_to`, which only shrinks the allocation.
#[verifier::external_body]
pub(crate) fn vec_shrink_to<T>(v: &mut Vec<T>, min_capacity: usize)
    ensures
        final(v)@ == old(v)@,
{
    v.shrink_to(min_capacity)
}

} // verus!
