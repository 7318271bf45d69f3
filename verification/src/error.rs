use vstd::prelude::*;

verus! {

/// Why a network operation was refused.
#[derive(Debug, Clone, Copy, PartialEq, Eq, Structural)]
pub enum NetworkError {
    /// A sequence of states does not have the length of the layer it is meant for.
    ShapeMismatch,
    /// The list of layer sizes is empty or names a layer without neurons.
    InvalidTopology,
}

} // verus!
