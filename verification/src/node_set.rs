//! Sets of node ids, kept in a `tinyset::SetUsize`.
use tinyset::SetUsize;
use vstd::prelude::*;

use crate::random_walk::NodeId;

verus! {

#[verifier::external_type_specification]
#[verifier::external_body]
pub struct ExSetUsize(SetUsize);

/// The node ids that a set holds.
pub uninterp spec fn node_set_items(set: SetUsize) -> Set<NodeId>;

/// `SetUsize::from_iter`: the set of the given ids, each held once however often
/// it is given.
#[verifier::external_body]
pub(crate) fn node_set_from(items: &[NodeId]) -> (set: SetUsize)
    ensures
        node_set_items(set) == items@.to_set(),
{
    items.iter().copied().collect()
}

/// `SetUsize::contains`: whether the set holds `node`.
#[verifier::external_body]
pub(crate) fn node_set_contains(set: &SetUsize, node: NodeId) -> (held: bool)
    ensures
        held == node_set_items(*set).contains(node),
{
    set.contains(node)
}

/// `SetUsize::iter`: the ids that the set holds, each once, in the set's order.
#[verifier::external_body]
pub(crate) fn node_set_values(set: &SetUsize) -> (values: Vec<NodeId>)
    ensures
        values@.no_duplicates(),
        values@.to_set() == node_set_items(*set),
{
    set.iter().collect()
}

} // verus!
