use vstd::prelude::*;

verus! {

/// Raised by indexed access when the index is not below the length:
/// there is no element at that position.
#[derive(Debug, Clone, Copy, PartialEq, Eq, Structural)]
pub struct IndexOutOfRange {
    /// The position that was asked for.
    pub index: usize,
    /// The length of the container at the time of the call.
    pub len: usize,
}

} // verus!
