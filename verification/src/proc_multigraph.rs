//! The processor that serves several subgraphs: its settings, and where a written
//! edge goes.
use vstd::prelude::*;

use crate::data::NodeKind;
use crate::node_registry::{kind_of_name, node_kind_from_prefix};

verus! {

/// How long a subgraph processor sleeps after publishing its state, and how many
/// operations its queue holds.
pub struct MultiGraphProcessorSettings {
    pub sleep_duration_after_publish_ms: u64,
    pub subgraph_queue_capacity: usize,
}

impl Default for MultiGraphProcessorSettings {
    /// A sleep of 100 ms and a queue of 1024 operations.
    fn default() -> (settings: Self)
        ensures
            settings.sleep_duration_after_publish_ms == 100,
            settings.subgraph_queue_capacity == 1024,
    {
        MultiGraphProcessorSettings { sleep_duration_after_publish_ms: 100, subgraph_queue_capacity: 1024 }
    }
}

/// Where a written edge goes, by the kinds of its two nodes.
#[derive(Debug, Clone, Copy, PartialEq, Eq, Structural)]
pub enum WriteEdgeRoute {
    /// The edge leads from a node to itself: refused.
    SelfReference,
    /// Between two users: the edge is written to every subgraph.
    UserToUser,
    /// From a user to a poll variant: the user's vote.
    UserVote,
    /// From a poll variant to a poll: the variant joins the poll.
    PollVariant,
    /// Any other edge from or to a poll or a poll variant: refused.
    UnexpectedPollEdge,
    /// Any other edge: written to its own subgraph.
    Plain,
}

/// Whether a node of kind `kind` belongs to a poll.
pub open spec fn is_poll_kind(kind: NodeKind) -> bool {
    kind == NodeKind::PollVariant || kind == NodeKind::Poll
}

/// Where an edge from `src` to `dst` goes.
pub open spec fn route_of(src: Seq<char>, dst: Seq<char>) -> WriteEdgeRoute {
    if src == dst {
        WriteEdgeRoute::SelfReference
    } else {
        match (kind_of_name(src), kind_of_name(dst)) {
            (Some(NodeKind::User), Some(NodeKind::User)) => WriteEdgeRoute::UserToUser,
            (Some(NodeKind::User), Some(NodeKind::PollVariant)) => WriteEdgeRoute::UserVote,
            (Some(NodeKind::PollVariant), Some(NodeKind::Poll)) => WriteEdgeRoute::PollVariant,
            (Some(s), Some(d)) => if is_poll_kind(s) || is_poll_kind(d) {
                WriteEdgeRoute::UnexpectedPollEdge
            } else {
                WriteEdgeRoute::Plain
            },
            _ => WriteEdgeRoute::Plain,
        }
    }
}

/// Where an edge from `src` to `dst` goes: a self-reference is refused, an edge
/// between users goes to every subgraph, a user's edge to a poll variant is a vote,
/// a variant's edge to a poll adds the variant to it, any other edge that touches a
/// poll or a variant is refused, and every other edge is written to its subgraph.
pub fn write_edge_route(src: &String, dst: &String) -> (route: WriteEdgeRoute)
    ensures
        route == route_of(src@, dst@),
{
    if src.eq(dst) {
        return WriteEdgeRoute::SelfReference;
    }
    let src_kind = node_kind_from_prefix(src.as_str());
    let dst_kind = node_kind_from_prefix(dst.as_str());
    match (src_kind, dst_kind) {
        (Some(NodeKind::User), Some(NodeKind::User)) => WriteEdgeRoute::UserToUser,
        (Some(NodeKind::User), Some(NodeKind::PollVariant)) => WriteEdgeRoute::UserVote,
        (Some(NodeKind::PollVariant), Some(NodeKind::Poll)) => WriteEdgeRoute::PollVariant,
        (Some(s), Some(d)) => {
            let s_poll = match s {
                NodeKind::PollVariant | NodeKind::Poll => true,
                _ => false,
            };
            let d_poll = match d {
                NodeKind::PollVariant | NodeKind::Poll => true,
                _ => false,
            };
            if s_poll || d_poll {
                WriteEdgeRoute::UnexpectedPollEdge
            } else {
                WriteEdgeRoute::Plain
            }
        },
        _ => WriteEdgeRoute::Plain,
    }
}

} // verus!
