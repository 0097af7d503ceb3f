use vstd::prelude::*;

use crate::counter::lemma_seq_to_set_contains;
use crate::node_set::{node_set_contains, node_set_from, node_set_items};

verus! {

/// Identifier of a node in the graph.
pub type NodeId = usize;

/// A random walk through the graph: the visited nodes in order, and the index at
/// which the negative segment starts, if the walk has followed a negative edge.
///
/// Nodes before `negative_segment_start` form the positive subsegment; the node at
/// that index and all nodes after it form the negative subsegment.
pub struct RandomWalk {
    pub nodes: Vec<NodeId>,
    pub negative_segment_start: Option<usize>,
}

/// The contents of a walk: its nodes and the start of its negative segment.
pub struct WalkView {
    pub nodes: Seq<NodeId>,
    pub negative_segment_start: Option<usize>,
}

impl View for RandomWalk {
    type V = WalkView;

    open spec fn view(&self) -> WalkView {
        WalkView { nodes: self.nodes@, negative_segment_start: self.negative_segment_start }
    }
}

impl Clone for RandomWalk {
    fn clone(&self) -> (copy: Self)
        ensures
            copy.nodes@ == self.nodes@,
            copy.negative_segment_start == self.negative_segment_start,
    {
        RandomWalk { nodes: self.nodes.clone(), negative_segment_start: self.negative_segment_start }
    }
}

/// Index at which the positive subsegment ends, given the walk length and the
/// start of the negative segment.
pub open spec fn positive_end(len: nat, negative_segment_start: Option<usize>) -> nat {
    match negative_segment_start {
        Some(start) => if start <= len { start as nat } else { len },
        None => len,
    }
}

/// The start of the negative segment of a walk of length `len` whose own negative
/// segment starts at `own`, after a segment whose negative segment starts at
/// `appended` has been appended to it.
pub open spec fn extended_negative_start(
    len: nat,
    own: Option<usize>,
    appended: Option<usize>,
) -> Option<usize> {
    match appended {
        Some(start) => Some((len + start) as usize),
        None => own,
    }
}

/// The start of the negative segment of the part of a walk that is kept when the
/// walk is cut at `at`.
pub open spec fn kept_negative_start(negative_segment_start: Option<usize>, at: usize) -> Option<
    usize,
> {
    match negative_segment_start {
        Some(start) => if at <= start { None } else { Some(start) },
        None => None,
    }
}

/// The start of the negative segment of the part of a walk that is cut off at `at`.
pub open spec fn cut_negative_start(negative_segment_start: Option<usize>, at: usize) -> Option<
    usize,
> {
    match negative_segment_start {
        Some(start) => if at <= start { Some((start - at) as usize) } else { None },
        None => None,
    }
}

impl RandomWalk {
    /// The nodes of the positive subsegment.
    pub open spec fn positive_part(&self) -> Seq<NodeId> {
        self.nodes@.subrange(0, positive_end(self.nodes@.len(), self.negative_segment_start) as int)
    }

    /// The nodes of the negative subsegment.
    pub open spec fn negative_part(&self) -> Seq<NodeId> {
        self.nodes@.subrange(
            positive_end(self.nodes@.len(), self.negative_segment_start) as int,
            self.nodes@.len() as int,
        )
    }

    /// Whether the walk is well formed: it never steps from a node to the same node,
    /// and its negative segment, if any, starts at one of its nodes.
    pub open spec fn is_well_formed(&self) -> bool {
        &&& forall|i: int|
            0 <= i < self.nodes@.len() - 1 ==> #[trigger] self.nodes@[i] != self.nodes@[i + 1]
        &&& self.negative_segment_start matches Some(start) ==> start < self.nodes@.len()
    }

    /// Whether a step to `node_id` may be appended: the walk never steps from a node
    /// to the same node, and it enters its negative segment at most once.
    pub open spec fn can_push(&self, node_id: NodeId, step_is_positive: bool) -> bool {
        &&& self.nodes@.len() > 0 ==> self.nodes@.last() != node_id
        &&& !step_is_positive ==> self.negative_segment_start is None
        &&& self.nodes@.len() < usize::MAX
    }

    /// Creates an empty walk.
    pub fn new() -> (w: Self)
        ensures
            w.nodes@ == Seq::<NodeId>::empty(),
            w.negative_segment_start is None,
            w.is_well_formed(),
    {
        RandomWalk { nodes: Vec::new(), negative_segment_start: None }
    }

    /// Creates a walk through the given nodes, with no negative segment.
    pub fn from_nodes(nodes: Vec<NodeId>) -> (w: Self)
        ensures
            w.nodes@ == nodes@,
            w.negative_segment_start is None,
    {
        RandomWalk { nodes, negative_segment_start: None }
    }

    /// Appends a node without touching the negative segment marker.
    pub fn _add_node(&mut self, node_id: NodeId)
        ensures
            final(self).nodes@ == old(self).nodes@.push(node_id),
            final(self).negative_segment_start == old(self).negative_segment_start,
    {
        self.nodes.push(node_id);
    }

    /// The nodes of the walk.
    pub fn get_nodes(&self) -> (nodes: &[NodeId])
        ensures
            nodes@ == self.nodes@,
    {
        self.nodes.as_slice()
    }

    /// Number of nodes in the walk.
    pub fn len(&self) -> (n: usize)
        ensures
            n == self.nodes@.len(),
    {
        self.nodes.len()
    }

    /// Whether the walk visits `node_id`.
    pub fn contains(&self, node_id: &NodeId) -> (b: bool)
        ensures
            b == self.nodes@.contains(*node_id),
    {
        let mut i: usize = 0;
        while i < self.nodes.len()
            invariant
                0 <= i <= self.nodes@.len(),
                forall|j: int| 0 <= j < i ==> self.nodes@[j] != *node_id,
            decreases self.nodes@.len() - i,
        {
            if self.nodes[i] == *node_id {
                return true;
            }
            i = i + 1;
        }
        false
    }

    /// Whether the walk visits at least one of the given nodes.
    pub fn intersects_nodes(&self, nodes: &[NodeId]) -> (b: bool)
        ensures
            b == exists|j: int| 0 <= j < nodes@.len() && self.nodes@.contains(#[trigger] nodes@[j]),
    {
        let visited = node_set_from(self.nodes.as_slice());
        proof {
            assert forall|x: NodeId| node_set_items(visited).contains(x) <==> self.nodes@.contains(x) by {
                lemma_seq_to_set_contains(self.nodes@, x);
            }
        }
        let mut k: usize = 0;
        while k < nodes.len()
            invariant
                0 <= k <= nodes@.len(),
                forall|x: NodeId| node_set_items(visited).contains(x) <==> self.nodes@.contains(x),
                forall|j: int| 0 <= j < k ==> !self.nodes@.contains(#[trigger] nodes@[j]),
            decreases nodes@.len() - k,
        {
            if node_set_contains(&visited, nodes[k]) {
                return true;
            }
            k = k + 1;
        }
        false
    }

    /// Mutable access to the node list.
    pub fn _get_nodes_mut(&mut self) -> (nodes: &mut Vec<NodeId>)
        ensures
            *nodes == old(self).nodes,
            final(self).nodes == *final(nodes),
            final(self).negative_segment_start == old(self).negative_segment_start,
    {
        &mut self.nodes
    }

    /// Whether the walk has no nodes.
    pub fn is_empty(&self) -> (b: bool)
        ensures
            b == (self.nodes@.len() == 0),
    {
        self.nodes.len() == 0
    }

    /// The first node of the walk, if any.
    pub fn first_node(&self) -> (n: Option<NodeId>)
        ensures
            self.nodes@.len() == 0 ==> n is None,
            self.nodes@.len() > 0 ==> n == Some(self.nodes@[0]),
    {
        if self.nodes.len() == 0 {
            None
        } else {
            Some(self.nodes[0])
        }
    }

    /// The last node of the walk, if any.
    pub fn last_node(&self) -> (n: Option<NodeId>)
        ensures
            self.nodes@.len() == 0 ==> n is None,
            self.nodes@.len() > 0 ==> n == Some(self.nodes@.last()),
    {
        if self.nodes.len() == 0 {
            None
        } else {
            Some(self.nodes[self.nodes.len() - 1])
        }
    }

    /// Removes all nodes; the negative segment marker is left as it is.
    pub fn clear(&mut self)
        ensures
            final(self).nodes@ == Seq::<NodeId>::empty(),
            final(self).negative_segment_start == old(self).negative_segment_start,
    {
        self.nodes.clear();
    }

    /// Iterates over the nodes of the walk in order.
    pub fn iter(&self) -> (it: std::slice::Iter<'_, NodeId>)
        ensures
            vstd::std_specs::iter::IteratorSpec::remaining(&it).unref() == self.nodes@,
    {
        self.nodes.as_slice().iter()
    }

    /// Appends a step to `node_id`. A negative step marks the start of the negative
    /// segment at the new node.
    pub fn push(&mut self, node_id: NodeId, step_is_positive: bool)
        requires
            old(self).can_push(node_id, step_is_positive),
        ensures
            final(self).nodes@ == old(self).nodes@.push(node_id),
            final(self).negative_segment_start == (if step_is_positive {
                old(self).negative_segment_start
            } else {
                Some(old(self).nodes@.len() as usize)
            }),
            old(self).is_well_formed() ==> final(self).is_well_formed(),
    {
        let index = self.nodes.len();
        self.nodes.push(node_id);
        if !step_is_positive {
            self.negative_segment_start = Some(index);
        }
        proof {
            if old(self).is_well_formed() {
                assert forall|i: int| 0 <= i < self.nodes@.len() - 1 implies #[trigger] self.nodes@[i]
                    != self.nodes@[i + 1] by {
                    if i + 1 < old(self).nodes@.len() {
                        assert(old(self).nodes@[i] != old(self).nodes@[i + 1]);
                    }
                }
            }
        }
    }

    /// Inserts `node_id` at the front of the walk; the negative segment marker is
    /// left as it is.
    pub fn insert_first(&mut self, node_id: NodeId)
        ensures
            final(self).nodes@ == seq![node_id] + old(self).nodes@,
            final(self).negative_segment_start == old(self).negative_segment_start,
    {
        self.nodes.insert(0, node_id);
        proof {
            assert(self.nodes@ =~= seq![node_id] + old(self).nodes@);
        }
    }

    /// The nodes before the negative segment start.
    pub fn positive_subsegment(&self) -> (part: &[NodeId])
        ensures
            part@ == self.positive_part(),
    {
        let end = match self.negative_segment_start {
            Some(start) => if start <= self.nodes.len() {
                start
            } else {
                self.nodes.len()
            },
            None => self.nodes.len(),
        };
        self.nodes.as_slice().split_at(end).0
    }

    /// The nodes from the negative segment start on.
    pub fn negative_subsegment(&self) -> (part: &[NodeId])
        ensures
            part@ == self.negative_part(),
    {
        let end = match self.negative_segment_start {
            Some(start) => if start <= self.nodes.len() {
                start
            } else {
                self.nodes.len()
            },
            None => self.nodes.len(),
        };
        self.nodes.as_slice().split_at(end).1
    }

    /// Appends `new_segment` to the walk. A negative segment of `new_segment` becomes
    /// the negative segment of the walk; at most one of the two may have one.
    pub fn extend(&mut self, new_segment: &RandomWalk)
        requires
            !(old(self).negative_segment_start is Some
                && new_segment.negative_segment_start is Some),
            old(self).nodes@.len() + new_segment.nodes@.len() <= usize::MAX,
            new_segment.negative_segment_start matches Some(start) ==> old(self).nodes@.len()
                + start <= usize::MAX,
        ensures
            final(self).nodes@ == old(self).nodes@ + new_segment.nodes@,
            final(self).negative_segment_start == extended_negative_start(
                old(self).nodes@.len(),
                old(self).negative_segment_start,
                new_segment.negative_segment_start,
            ),
            old(self).is_well_formed() && new_segment.is_well_formed() && (old(self).nodes@.len()
                > 0 && new_segment.nodes@.len() > 0 ==> old(self).nodes@.last()
                != new_segment.nodes@[0]) ==> final(self).is_well_formed(),
    {
        if let Some(new_neg_start) = new_segment.negative_segment_start {
            self.negative_segment_start = Some(self.nodes.len() + new_neg_start);
        }
        let mut i: usize = 0;
        while i < new_segment.nodes.len()
            invariant
                0 <= i <= new_segment.nodes@.len(),
                self.nodes@ == old(self).nodes@ + new_segment.nodes@.subrange(0, i as int),
                self.negative_segment_start == extended_negative_start(
                    old(self).nodes@.len(),
                    old(self).negative_segment_start,
                    new_segment.negative_segment_start,
                ),
                old(self).nodes@.len() + new_segment.nodes@.len() <= usize::MAX,
            decreases new_segment.nodes@.len() - i,
        {
            self.nodes.push(new_segment.nodes[i]);
            proof {
                assert(new_segment.nodes@.subrange(0, i + 1) == new_segment.nodes@.subrange(
                    0,
                    i as int,
                ).push(new_segment.nodes@[i as int]));
            }
            i = i + 1;
        }
        proof {
            assert(new_segment.nodes@.subrange(0, new_segment.nodes@.len() as int)
                == new_segment.nodes@);
            let a = old(self).nodes@;
            let b = new_segment.nodes@;
            if old(self).is_well_formed() && new_segment.is_well_formed() && (a.len() > 0 && b.len()
                > 0 ==> a.last() != b[0]) {
                assert forall|i: int| 0 <= i < self.nodes@.len() - 1 implies #[trigger] self.nodes@[i]
                    != self.nodes@[i + 1] by {
                    if i + 1 < a.len() {
                        assert(a[i] != a[i + 1]);
                    } else if i + 1 == a.len() {
                        assert(self.nodes@[i] == a.last());
                        assert(self.nodes@[i + 1] == b[0]);
                    } else {
                        let j = i - a.len();
                        assert(b[j] != b[j + 1]);
                    }
                }
            }
        }
    }

    /// Cuts the walk at index `at`: the walk keeps the nodes before `at` and the cut-off
    /// nodes are returned as a new walk. A negative segment that starts at or after
    /// `at` moves to the returned walk.
    pub fn split_from(&mut self, at: usize) -> (segment: RandomWalk)
        requires
            at <= old(self).nodes@.len(),
        ensures
            final(self).nodes@ == old(self).nodes@.subrange(0, at as int),
            segment.nodes@ == old(self).nodes@.subrange(at as int, old(self).nodes@.len() as int),
            final(self).negative_segment_start == kept_negative_start(
                old(self).negative_segment_start,
                at,
            ),
            segment.negative_segment_start == cut_negative_start(
                old(self).negative_segment_start,
                at,
            ),
            old(self).is_well_formed() ==> final(self).is_well_formed()
                && segment.is_well_formed(),
    {
        let new_segment_neg_start = match self.negative_segment_start {
            Some(neg_start) => if at <= neg_start {
                self.negative_segment_start = None;
                Some(neg_start - at)
            } else {
                None
            },
            None => None,
        };
        let split_segment = self.nodes.split_off(at);
        let segment = RandomWalk { nodes: split_segment, negative_segment_start: new_segment_neg_start };
        proof {
            let a = old(self).nodes@;
            if old(self).is_well_formed() {
                assert forall|i: int| 0 <= i < self.nodes@.len() - 1 implies #[trigger] self.nodes@[i]
                    != self.nodes@[i + 1] by {
                    assert(a[i] != a[i + 1]);
                }
                assert forall|i: int| 0 <= i < segment.nodes@.len() - 1 implies #[trigger] segment.nodes@[i]
                    != segment.nodes@[i + 1] by {
                    assert(a[i + at] != a[i + at + 1]);
                }
            }
        }
        segment
    }

    /// Consumes the walk and returns its nodes.
    pub fn into_nodes(self) -> (nodes: Vec<NodeId>)
        ensures
            nodes@ == self.nodes@,
    {
        self.nodes
    }
}

/// Cutting a walk at any index and appending the cut-off part again gives back the
/// walk as it was, nodes and negative segment marker alike.
pub proof fn lemma_split_then_extend_restores(walk: RandomWalk, at: usize)
    requires
        at <= walk.nodes@.len(),
    ensures
        ({
            let kept = walk.nodes@.subrange(0, at as int);
            let cut = walk.nodes@.subrange(at as int, walk.nodes@.len() as int);
            let kept_neg = kept_negative_start(walk.negative_segment_start, at);
            let cut_neg = cut_negative_start(walk.negative_segment_start, at);
            &&& !(kept_neg is Some && cut_neg is Some)
            &&& kept + cut == walk.nodes@
            &&& extended_negative_start(kept.len(), kept_neg, cut_neg)
                == walk.negative_segment_start
        }),
{
    assert(walk.nodes@.subrange(0, at as int) + walk.nodes@.subrange(
        at as int,
        walk.nodes@.len() as int,
    ) =~= walk.nodes@);
}

/// The positive and the negative subsegment of a walk together are the whole walk,
/// in order.
pub proof fn lemma_subsegments_partition(walk: RandomWalk)
    ensures
        walk.positive_part() + walk.negative_part() == walk.nodes@,
        walk.positive_part().len() + walk.negative_part().len() == walk.nodes@.len(),
{
    assert(walk.positive_part() + walk.negative_part() =~= walk.nodes@);
}

/// After a negative step, the new node is the first node of the negative subsegment
/// and every earlier node is in the positive subsegment.
pub proof fn lemma_negative_step_starts_negative_segment(
    walk: RandomWalk,
    node_id: NodeId,
)
    requires
        walk.can_push(node_id, false),
    ensures
        ({
            let pushed = RandomWalk {
                nodes: walk.nodes,
                negative_segment_start: Some(walk.nodes@.len() as usize),
            };
            let nodes = walk.nodes@.push(node_id);
            &&& nodes.subrange(
                0,
                positive_end(nodes.len(), pushed.negative_segment_start) as int,
            ) == walk.nodes@
            &&& nodes.subrange(
                positive_end(nodes.len(), pushed.negative_segment_start) as int,
                nodes.len() as int,
            ) == seq![node_id]
        }),
{
    let nodes = walk.nodes@.push(node_id);
    assert(nodes.subrange(0, walk.nodes@.len() as int) =~= walk.nodes@);
    assert(nodes.subrange(walk.nodes@.len() as int, nodes.len() as int) =~= seq![node_id]);
}

} // verus!
