//! The ways in which an operation on a graph can fail.

use vstd::prelude::*;

verus! {

/// Why an operation on a graph gave no result.
#[derive(Clone, Copy, Debug, PartialEq, Eq, Structural)]
pub enum GraphError {
    /// The node is not in the store.
    NodeNotFound(u32),
    /// The parents do not lead from the target back to the source.
    BrokenPath,
    /// The text is not the JSON text of a graph.
    Malformed,
}

} // verus!
