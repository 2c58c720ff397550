//! Zero-copy-style size conversions between element counts and byte counts.

use vstd::prelude::*;

verus! {

/// Number of bytes taken by `values_len` values of type `T`.
pub fn to_nbytes<T: Sized>(values_len: usize) -> (r: usize)
    requires
        values_len * vstd::layout::size_of::<T>() <= usize::MAX,
    ensures
        r == values_len * vstd::layout::size_of::<T>(),
{
    values_len * core::mem::size_of::<T>()
}

} // verus!
