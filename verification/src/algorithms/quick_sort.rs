//! The quick-sort placeholder.

use vstd::prelude::*;
use crate::fault::SortError;
use crate::order::SortOrd;

verus! {

/// Quick sort is a selectable variant whose invocation deterministically
/// signals the unimplemented-operation fault — distinguishable from a
/// successful empty result — and leaves both the sequence and the step log
/// untouched.
pub fn quick_sort<T: SortOrd>(data: &mut Vec<T>, steps: &mut Vec<Vec<T>>) -> (r: Result<
    (),
    SortError,
>)
    ensures
        r == Err::<(), SortError>(SortError::Unimplemented),
        final(data)@ == old(data)@,
        final(steps)@ == old(steps)@,
{
    Err(SortError::Unimplemented)
}

} // verus!
