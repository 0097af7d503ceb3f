//! The graph of named nodes that the service keeps.
pub mod read;

use vstd::prelude::*;

use crate::data::NodeKind;
use crate::node_registry::{NodeRegistry, RegistryView};
use crate::random_walk::NodeId;

verus! {

/// The owner of `node`: the owner recorded for it; for an opinion without one, the
/// first node with an edge into it (`first_inbound`), if there is one; any other
/// node, and a node the registry does not know, owns itself.
pub open spec fn object_owner(r: RegistryView, node: NodeId, first_inbound: Option<NodeId>) -> Option<
    NodeId,
> {
    if node < r.infos.len() {
        let info = r.infos[node as int];
        match info.owner {
            Some(id) => Some(id),
            None => if info.kind == NodeKind::Opinion {
                first_inbound
            } else {
                Some(node)
            },
        }
    } else {
        Some(node)
    }
}

/// The owner of `node`, where `first_inbound` is the first node of the graph with
/// an edge into `node`, if any.
pub fn get_object_owner(nodes: &NodeRegistry, node: NodeId, first_inbound: Option<NodeId>) -> (owner:
    Option<NodeId>)
    ensures
        owner == object_owner(nodes@, node, first_inbound),
{
    match nodes.get_by_id(node) {
        Some(info) => match info.owner {
            Some(id) => Some(id),
            None => {
                if info.kind == NodeKind::Opinion {
                    first_inbound
                } else {
                    Some(node)
                }
            },
        },
        None => Some(node),
    }
}

} // verus!
