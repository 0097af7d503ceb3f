//! Request and response records of the service protocol, and the kinds of nodes.
use vstd::prelude::*;

verus! {

/// Direction code of a neighbours request: both directions.
pub const NEIGHBORS_ALL: i64 = 0;

/// Direction code of a neighbours request: edges leaving the focus.
pub const NEIGHBORS_OUTBOUND: i64 = 1;

/// Direction code of a neighbours request: edges entering the focus.
pub const NEIGHBORS_INBOUND: i64 = 2;

/// The kind of a node, told by the first letter of its name.
#[derive(Debug, PartialEq, Eq, Structural, Clone, Copy, Hash)]
pub enum NodeKind {
    User,
    Beacon,
    Comment,
    Opinion,
    PollVariant,
    Poll,
}

/// Request: recompute the walks of an ego.
#[derive(Debug, Clone)]
pub struct OpWriteCalculate {
    pub ego: String,
}

/// Request: the score of one target as seen by an ego.
#[derive(Debug, Clone)]
pub struct OpReadNodeScore {
    pub ego: String,
    pub target: String,
}

/// Request: the graph around a focus node, as seen by an ego, one page of it.
#[derive(Debug, Clone)]
pub struct OpReadGraph {
    pub ego: String,
    pub focus: String,
    pub positive_only: bool,
    pub index: u64,
    pub count: u64,
}

/// Request: the nodes connected to a node.
#[derive(Debug, Clone)]
pub struct OpReadConnected {
    pub node: String,
}

/// Request: the mutual scores of an ego.
#[derive(Debug, Clone)]
pub struct OpReadMutualScores {
    pub ego: String,
}

/// Request: the new-edges filter of a node.
#[derive(Debug, Clone)]
pub struct OpReadNewEdgesFilter {
    pub src: String,
}

/// Request: delete an edge.
#[derive(Debug, Clone)]
pub struct OpWriteDeleteEdge {
    pub src: String,
    pub dst: String,
    pub index: i64,
}

/// Request: delete a node.
#[derive(Debug, Clone)]
pub struct OpWriteDeleteNode {
    pub node: String,
    pub index: i64,
}

/// Request: store the new-edges filter of a node.
#[derive(Debug, Clone)]
pub struct OpWriteNewEdgesFilter {
    pub src: String,
    pub filter: Vec<u8>,
}

/// Request: the new edges of a node whose names start with a prefix.
#[derive(Debug, Clone)]
pub struct OpWriteFetchNewEdges {
    pub src: String,
    pub prefix: String,
}

/// Response item: one connection between two nodes.
#[derive(Debug)]
pub struct ConnectionResult {
    pub src: String,
    pub dst: String,
}

/// Response: a list of node names.
#[derive(Debug)]
pub struct ResNodeList {
    pub nodes: Vec<(String,)>,
}

/// Response: the bytes of a new-edges filter.
#[derive(Debug)]
pub struct ResNewEdgesFilter {
    pub bytes: Vec<u8>,
}

/// Response: a list of connections.
#[derive(Debug)]
pub struct ResConnections {
    pub connections: Vec<ConnectionResult>,
}

/// Response: the queue and processing-time statistics of a processor.
#[derive(Debug, Clone)]
pub struct ResStats {
    pub pending: usize,
    pub median_us: u64,
    pub p95_us: u64,
    pub p99_us: u64,
    pub min_us: u64,
    pub max_us: u64,
    pub count: usize,
}

impl Default for ResStats {
    /// All statistics zero.
    fn default() -> (stats: Self)
        ensures
            stats.pending == 0,
            stats.median_us == 0,
            stats.p95_us == 0,
            stats.p99_us == 0,
            stats.min_us == 0,
            stats.max_us == 0,
            stats.count == 0,
    {
        ResStats { pending: 0, median_us: 0, p95_us: 0, p99_us: 0, min_us: 0, max_us: 0, count: 0 }
    }
}

} // verus!
