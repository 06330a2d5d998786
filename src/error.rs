use vstd::prelude::*;

verus! {

/// The failures that the container signals to its caller.
#[derive(Debug, Clone, Copy, PartialEq, Eq, Structural)]
pub enum SplitVecError {
    /// An index at or beyond the current length was asked for.
    IndexOutOfBounds,
    /// A growth strategy was built with a zero capacity or a factor that is not above one.
    InvalidGrowthParameter,
    /// A push was tried on a fragment that is already full.
    CapacityExceeded,
}

} // verus!
