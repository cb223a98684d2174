//! The failures an operation on a graph can report.

use vstd::prelude::*;

verus! {

/// Why an operation on a graph was rejected.
#[derive(Clone, Copy, Debug, PartialEq, Eq, Structural)]
pub enum GraphError {
    /// An edge endpoint, a start vertex or a source vertex is not a vertex of
    /// the graph.
    InvalidVertexIndex,
    /// A cycle of negative total weight can be reached from the source, so no
    /// shortest distances exist.
    NegativeWeightCycle,
    /// A tentative distance fell below the smallest representable distance.
    DistanceOverflow,
}

impl GraphError {
    /// A short human-readable description of the failure.
    pub fn message(&self) -> (text: &'static str)
        ensures
            text@ == match *self {
                GraphError::InvalidVertexIndex => "vertex index out of range"@,
                GraphError::NegativeWeightCycle => "Negative weight cycle detected"@,
                GraphError::DistanceOverflow => "distance below the representable range"@,
            },
    {
        match self {
            GraphError::InvalidVertexIndex => "vertex index out of range",
            GraphError::NegativeWeightCycle => "Negative weight cycle detected",
            GraphError::DistanceOverflow => "distance below the representable range",
        }
    }
}

/// Two results are alike: both are the same error, or both hold the same
/// values in the same order.
pub open spec fn same_outcome<T>(
    r1: Result<Vec<T>, GraphError>,
    r2: Result<Vec<T>, GraphError>,
) -> bool {
    match (r1, r2) {
        (Ok(a), Ok(b)) => a@ == b@,
        (Err(a), Err(b)) => a == b,
        _ => false,
    }
}

} // verus!
