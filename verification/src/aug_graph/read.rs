//! Reading neighbours from the service graph.
use vstd::prelude::*;

verus! {

/// Which edges of a node count as its neighbours.
#[derive(Debug, Clone, Copy, PartialEq, Eq, Structural)]
pub enum NeighborDirection {
    All,
    Outbound,
    Inbound,
}

} // verus!
