//! The ways in which a query on a network fails.

use vstd::prelude::*;

verus! {

/// Why a query could not be answered.
#[derive(Clone, Copy, Debug, PartialEq, Eq, Structural)]
pub enum GraphError {
    /// No node of the graph carries the identifier that was asked for.
    InvalidSource,
    /// A component without nodes was handed in.
    EmptyComponent,
    /// An empty list of components was handed in.
    NoComponents,
    /// A node of a component has no entry in the score map.
    MissingScore,
}

} // verus!
