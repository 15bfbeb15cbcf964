//! Step snapshots: full copies of the sequence taken while a sort runs.
//!
//! A step is a value of its own — mutating the live sequence after the copy
//! never changes a previously captured step.

use vstd::prelude::*;
use crate::order::SortOrd;

verus! {

/// Captures the current contents of `data` as an independent copy.
pub fn snapshot<T: SortOrd>(data: &Vec<T>) -> (r: Vec<T>)
    ensures
        r@ == data@,
{
    let mut r: Vec<T> = Vec::new();
    let mut i: usize = 0;
    while i < data.len()
        invariant
            i <= data@.len(),
            r@ == data@.subrange(0, i as int),
        decreases data@.len() - i,
    {
        r.push(data[i]);
        assert(data@.subrange(0, i as int).push(data@[i as int]) =~= data@.subrange(
            0,
            i as int + 1,
        ));
        i += 1;
    }
    assert(data@.subrange(0, data@.len() as int) =~= data@);
    r
}

} // verus!
