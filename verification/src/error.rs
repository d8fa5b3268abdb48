use vstd::prelude::*;

verus! {

/// Failure kinds reported by the bounded container.
#[derive(Clone, Copy, Debug, PartialEq, Eq, Structural)]
pub enum NoallocError {
    /// The requested final length would exceed the fixed capacity.
    LengthExceed,
    /// Reserved for addressing a position outside the live range; the
    /// container enforces index bounds as preconditions instead of
    /// returning this value.
    IndexExceed,
}

} // verus!
