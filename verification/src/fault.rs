//! The faults a sorting routine can signal to its caller.

use vstd::prelude::*;

verus! {

/// A fault surfaced directly to the caller of a sorting routine; it is never
/// swallowed or downgraded to a default value.
#[derive(Clone, Copy, Debug, PartialEq, Eq, Structural)]
pub enum SortError {
    /// The selected algorithm is a placeholder with no implementation.
    Unimplemented,
}

} // verus!
