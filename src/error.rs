use vstd::prelude::*;

verus! {

/// Failures of the ordering strategies.
#[derive(Clone, Copy, Debug, PartialEq, Eq, Structural)]
pub enum PathError {
    /// Fewer than two points were given to a length or order operation.
    InvalidInput,
    /// No vertex of degree three or more was found within the retry budget.
    GraphTooSparse,
    /// No seed with two mutually adjacent neighbors was found within the retry budget.
    NoTriangleFound,
    /// A selection pool ran out before all draws were served.
    EmptyPool,
}

} // verus!
