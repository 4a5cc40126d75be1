//! Why an operation on a graph was refused.

use vstd::prelude::*;

verus! {

/// A reference that the graph could not follow. The graph is left as it was.
#[derive(Clone, Copy, Debug, PartialEq, Eq, Structural, Hash)]
pub enum GraphError {
    /// The operation names a node that the graph does not hold.
    NodeNotFound,
    /// The operation names an edge that the graph does not hold.
    EdgeNotFound,
}

} // verus!
