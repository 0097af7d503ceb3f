//! Iterative A* graph search.
//!
//! The search never looks at the graph itself: each call of [`iteration`] either
//! finishes, asks for more memory, or asks the caller for the `index`-th neighbor of a
//! node, which the caller hands to the next call. The caller owns the open and the
//! closed buffers and may grow them when the search reports `OUT_OF_MEMORY`.
//!
//! The search runs on integer node ids and integer costs.
use vstd::prelude::*;

verus! {

/// A request for the `index`-th neighbor of `node`.
#[allow(non_camel_case_types)]
#[derive(Debug, Clone, PartialEq, Default)]
pub struct Neighbor_Request<Node_Id> {
    pub node: Node_Id,
    pub index: usize,
}

/// Outcome of one search step.
#[allow(non_camel_case_types)]
#[derive(Debug, Clone, PartialEq)]
pub enum Status<Node_Id> {
    PROGRESS,
    SUCCESS,
    FAIL,
    OUT_OF_MEMORY,
    NEIGHBOR(Neighbor_Request<Node_Id>),
}

/// A neighbor handed to the search: its id, the cost of the edge to it, and the
/// estimated remaining cost from it to the destination.
#[allow(non_camel_case_types)]
#[derive(Debug, Clone, Default)]
pub struct Link<Node_Id, Cost> {
    pub neighbor: Node_Id,
    pub exact_distance: Cost,
    pub estimate: Cost,
}

/// A node of the open or the closed set.
#[allow(non_camel_case_types)]
#[derive(Debug, Clone, Default)]
pub struct Node<Node_Id, Cost> {
    pub id: Node_Id,
    pub previous: Option<Node_Id>,
    pub exact_distance: Cost,
    pub estimate: Cost,
    pub count: usize,
}

/// Whether the search looks for the nearest open node or enumerates its neighbors.
#[allow(non_camel_case_types)]
#[derive(Debug, Clone, PartialEq)]
pub enum Stage {
    SEARCH_NEAREST,
    ENUM_NEIGHBORS,
}

/// The state of a search.
#[allow(non_camel_case_types)]
#[derive(Clone)]
pub struct State<Node_Id, Cost> {
    pub stage: Stage,
    pub num_open: usize,
    pub num_closed: usize,
    pub source: Node_Id,
    pub destination: Node_Id,
    pub closest_index: usize,
    pub closest_estimate: Cost,
    pub node: Option<Node<Node_Id, Cost>>,
    pub neighbor_index: usize,
}

/// A node with integer ids and costs.
pub type IntNode = Node<i64, i64>;

/// A search state with integer ids and costs.
pub type IntState = State<i64, i64>;

/// The ordering key of an open node: known distance plus estimated rest.
pub open spec fn total(n: IntNode) -> int {
    n.exact_distance + n.estimate
}

/// Index of the first node with the smallest key among the first `n` nodes.
pub open spec fn nearest_index(nodes: Seq<IntNode>, n: int) -> int
    decreases n,
{
    if n <= 1 {
        0
    } else {
        let k = nearest_index(nodes, n - 1);
        if total(nodes[n - 1]) < total(nodes[k]) {
            n - 1
        } else {
            k
        }
    }
}

/// The node that the nearest-node stage takes has the least known distance plus
/// estimated rest among the first `n` nodes, and no node before it has as little.
pub proof fn lemma_nearest_index_is_least(nodes: Seq<IntNode>, n: int)
    requires
        n >= 1,
    ensures
        0 <= nearest_index(nodes, n) < n,
        forall|j: int|
            0 <= j < n ==> nodes[nearest_index(nodes, n)].exact_distance + nodes[nearest_index(
                nodes,
                n,
            )].estimate <= (#[trigger] nodes[j]).exact_distance + nodes[j].estimate,
        forall|j: int|
            0 <= j < nearest_index(nodes, n) ==> (#[trigger] nodes[j]).exact_distance
                + nodes[j].estimate > nodes[nearest_index(nodes, n)].exact_distance
                + nodes[nearest_index(nodes, n)].estimate,
    decreases n,
{
    if n > 1 {
        lemma_nearest_index_is_least(nodes, n - 1);
    }
}

/// Index of the first node with id `id` among the first `n` nodes.
pub open spec fn index_of_id(nodes: Seq<IntNode>, n: int, id: i64) -> Option<int>
    decreases n,
{
    if n <= 0 {
        None
    } else {
        match index_of_id(nodes, n - 1, id) {
            Some(i) => Some(i),
            None => if nodes[n - 1].id == id {
                Some(n - 1)
            } else {
                None
            },
        }
    }
}

/// The chain of ids from `closed[current]` back to `source`, following `previous`
/// links, each resolved to the first closed node with that id; at most `budget` links
/// are followed.
pub open spec fn back_chain(
    closed: Seq<IntNode>,
    num_closed: int,
    source: i64,
    current: int,
    budget: nat,
) -> Option<Seq<i64>>
    decreases budget,
{
    let id = closed[current].id;
    if id == source {
        Some(seq![id])
    } else if budget == 0 {
        None
    } else {
        match closed[current].previous {
            None => None,
            Some(p) => match index_of_id(closed, num_closed, p) {
                None => None,
                Some(i) => match back_chain(closed, num_closed, source, i, (budget - 1) as nat) {
                    None => None,
                    Some(rest) => Some(seq![id] + rest),
                },
            },
        }
    }
}

/// Whether a search for `id` among the first `n` nodes stays within `nodes`: the
/// `n` nodes are there, or a node with that id comes before the end.
pub open spec fn scan_in_range(nodes: Seq<IntNode>, n: int, id: i64) -> bool {
    n <= nodes.len() || index_of_id(nodes, nodes.len() as int, id) is Some
}

/// Whether following the back links from `current`, as [`back_chain`] does, reads
/// only closed nodes that are there.
pub open spec fn chain_in_range(
    closed: Seq<IntNode>,
    num_closed: int,
    source: i64,
    current: int,
    budget: nat,
) -> bool
    decreases budget,
{
    &&& 0 <= current < closed.len()
    &&& closed[current].id != source && budget > 0 ==> match closed[current].previous {
        None => true,
        Some(p) => scan_in_range(closed, num_closed, p) && match index_of_id(closed, num_closed, p) {
            None => true,
            Some(i) => chain_in_range(closed, num_closed, source, i, (budget - 1) as nat),
        },
    }
}

/// With all closed nodes in the buffer, following back links from a closed node
/// stays within it.
pub proof fn lemma_chain_in_range(
    closed: Seq<IntNode>,
    num_closed: int,
    source: i64,
    current: int,
    budget: nat,
)
    requires
        num_closed <= closed.len(),
        0 <= current < num_closed,
    ensures
        chain_in_range(closed, num_closed, source, current, budget),
    decreases budget,
{
    if closed[current].id != source && budget > 0 {
        match closed[current].previous {
            None => {},
            Some(p) => {
                lemma_index_of_id(closed, num_closed, num_closed, p);
                match index_of_id(closed, num_closed, p) {
                    None => {},
                    Some(i) => {
                        lemma_chain_in_range(closed, num_closed, source, i, (budget - 1) as nat);
                    },
                }
            },
        }
    }
}

/// The node reached through `link` from `from`.
pub open spec fn node_via(from: IntNode, link: Link<i64, i64>) -> IntNode {
    Node {
        id: link.neighbor,
        previous: Some(from.id),
        exact_distance: (from.exact_distance + link.exact_distance) as i64,
        estimate: link.estimate,
        count: (from.count + 1) as usize,
    }
}

/// The bookkeeping that every state produced by [`init`] and [`iteration`] keeps,
/// given the lengths of the open and the closed buffer.
pub open spec fn well_formed(open_len: nat, closed_len: nat, state: IntState) -> bool {
    &&& state.num_open <= open_len
    &&& state.num_closed <= closed_len
    &&& state.num_open < usize::MAX
    &&& state.num_closed + 2 <= usize::MAX
    &&& state.stage == Stage::ENUM_NEIGHBORS ==> {
        &&& state.node is Some
        &&& state.num_closed + 2 < closed_len
        &&& state.num_open < open_len
    }
}

/// Whether one search step can run on this state and neighbor: in the neighbor
/// stage there is a current node, and the closed buffer holds what the step reads
/// and has room for what it closes (the current node when no neighbor is left; the
/// current node and the destination when the neighbor is the destination and the
/// open buffer has room; the closed count, which is searched, for another
/// neighbor).
pub open spec fn can_step(
    open_len: nat,
    closed_len: nat,
    state: IntState,
    neighbor: Option<Link<i64, i64>>,
) -> bool {
    &&& state.stage == Stage::ENUM_NEIGHBORS ==> {
        &&& state.node is Some
        &&& match neighbor {
            None => state.num_closed < closed_len,
            Some(link) => state.num_open + 1 < open_len ==> if link.neighbor == state.destination {
                state.num_closed + 2 <= closed_len
            } else {
                state.num_closed <= closed_len
            },
        }
    }
}

/// Whether the keys of the first `n` open nodes fit in an `i64`.
pub open spec fn keys_fit(open: Seq<IntNode>, n: int) -> bool {
    forall|i: int| 0 <= i < n ==> i64::MIN <= #[trigger] total(open[i]) <= i64::MAX
}

/// Whether one search step on these inputs stays within `i64` and `usize` arithmetic:
/// the open and closed counts and their room checks, the keys of the open nodes
/// that are compared, and the distance, hop count and
/// neighbor index of a node reached through `neighbor`.
pub open spec fn step_fits(
    open: Seq<IntNode>,
    state: IntState,
    neighbor: Option<Link<i64, i64>>,
) -> bool {
    &&& state.num_open < usize::MAX
    &&& state.num_closed + 2 <= usize::MAX
    &&& (state.stage == Stage::SEARCH_NEAREST && state.num_open >= 2 && state.num_open + 1
        < open.len()) ==> keys_fit(
        open,
        state.num_open as int,
    )
    &&& (state.stage == Stage::ENUM_NEIGHBORS && state.num_open + 1 < open.len()) ==> match (
        state.node,
        neighbor,
    ) {
        (Some(from), Some(link)) => {
            &&& i64::MIN <= from.exact_distance + link.exact_distance <= i64::MAX
            &&& from.count < usize::MAX
            &&& link.neighbor != state.destination ==> state.neighbor_index < usize::MAX
        },
        _ => true,
    }
}

/// Starts a search from `source` to `destination`: the source becomes the only open
/// node (if the open buffer has room for it) and `max_cost` the initial estimate.
pub fn init(open: &mut [IntNode], source: i64, destination: i64, max_cost: i64) -> (state:
    IntState)
    ensures
        old(open)@.len() == 0 ==> final(open)@ == old(open)@,
        old(open)@.len() != 0 ==> final(open)@ == old(open)@.update(
            0,
            Node { id: source, previous: None, exact_distance: 0, estimate: max_cost, count: 1 },
        ),
        state == (State {
            stage: Stage::SEARCH_NEAREST,
            num_open: if old(open)@.len() != 0 {
                1usize
            } else {
                0usize
            },
            num_closed: 0,
            source,
            destination,
            closest_index: 0,
            closest_estimate: max_cost,
            node: None,
            neighbor_index: 0,
        }),
{
    if open.len() != 0 {
        open[0] = Node {
            id: source,
            previous: None,
            exact_distance: 0,
            estimate: max_cost,
            count: 1,
        };
    }
    State {
        stage: Stage::SEARCH_NEAREST,
        num_open: if open.len() != 0 {
            1
        } else {
            0
        },
        num_closed: 0,
        source,
        destination,
        closest_index: 0,
        closest_estimate: max_cost,
        node: None,
        neighbor_index: 0,
    }
}

/// A found index is within range and names a node with the given id, and it stays
/// the first one when more nodes are considered.
proof fn lemma_index_of_id(nodes: Seq<IntNode>, n: int, m: int, id: i64)
    requires
        0 <= n <= m,
    ensures
        index_of_id(nodes, n, id) matches Some(i) ==> 0 <= i < n && nodes[i].id == id
            && index_of_id(nodes, m, id) == Some(i),
    decreases m,
{
    if n < m {
        lemma_index_of_id(nodes, n, m - 1, id);
    } else if n > 0 {
        lemma_index_of_id(nodes, n - 1, n - 1, id);
    }
}

/// Index of the first of the first `n` nodes with id `id`.
fn find_id(nodes: &[IntNode], n: usize, id: i64) -> (index: Option<usize>)
    requires
        scan_in_range(nodes@, n as int, id),
    ensures
        match index {
            Some(i) => index_of_id(nodes@, n as int, id) == Some(i as int) && i < n && i
                < nodes@.len() && nodes@[i as int].id == id,
            None => index_of_id(nodes@, n as int, id) is None,
        },
{
    proof {
        if n > nodes@.len() {
            lemma_index_of_id(nodes@, nodes@.len() as int, nodes@.len() as int, id);
        }
    }
    let mut i: usize = 0;
    while i < n
        invariant
            0 <= i <= n,
            scan_in_range(nodes@, n as int, id),
            n > nodes@.len() ==> (index_of_id(nodes@, nodes@.len() as int, id) matches Some(f) && i
                <= f < nodes@.len() && nodes@[f].id == id),
            index_of_id(nodes@, i as int, id) is None,
        decreases n - i,
    {
        if nodes[i].id == id {
            proof {
                assert(index_of_id(nodes@, i + 1, id) == Some(i as int));
                lemma_index_of_id(nodes@, i + 1, n as int, id);
            }
            return Some(i);
        }
        proof {
            assert(index_of_id(nodes@, i + 1, id) is None);
        }
        i = i + 1;
    }
    None
}

/// Writes the ids of the path from the source to the closest closed node into the
/// front of `node_ids` and returns its length, or returns 0 when there is no such
/// path in the closed set, or `node_ids` is shorter than the closed set.
pub fn path(closed: &[IntNode], state: &IntState, node_ids: &mut [i64]) -> (len: usize)
    requires
        !(closed@.len() == 0 || state.closest_index >= state.num_closed || old(node_ids)@.len()
            < state.num_closed) ==> chain_in_range(
            closed@,
            state.num_closed as int,
            state.source,
            state.closest_index as int,
            (state.num_closed - 1) as nat,
        ),
    ensures
        final(node_ids)@.len() == old(node_ids)@.len(),
        (closed@.len() == 0 || state.closest_index >= state.num_closed || old(node_ids)@.len()
            < state.num_closed) ==> len == 0 && final(node_ids)@ == old(node_ids)@,
        !(closed@.len() == 0 || state.closest_index >= state.num_closed || old(node_ids)@.len()
            < state.num_closed) ==> match back_chain(
            closed@,
            state.num_closed as int,
            state.source,
            state.closest_index as int,
            (state.num_closed - 1) as nat,
        ) {
            None => len == 0,
            Some(chain) => {
                &&& len == chain.len()
                &&& final(node_ids)@.subrange(0, len as int) == chain.reverse()
                &&& final(node_ids)@.subrange(len as int, final(node_ids)@.len() as int)
                    == old(node_ids)@.subrange(len as int, old(node_ids)@.len() as int)
            },
        },
{
    if closed.len() == 0 || state.closest_index >= state.num_closed || node_ids.len()
        < state.num_closed {
        return 0;
    }
    let ghost nc = state.num_closed as int;
    let ghost whole = back_chain(
        closed@,
        nc,
        state.source,
        state.closest_index as int,
        (nc - 1) as nat,
    );
    let mut current: usize = state.closest_index;
    let mut num_nodes: usize = 1;
    node_ids[0] = closed[current].id;
    loop
        invariant_except_break
            !(closed@.len() == 0 || state.closest_index >= state.num_closed || old(node_ids)@.len() < state.num_closed),
            1 <= num_nodes <= nc,
            whole == back_chain(
                closed@,
                nc,
                state.source,
                state.closest_index as int,
                (nc - 1) as nat,
            ),
            0 <= current < nc,
            nc == state.num_closed,
            chain_in_range(closed@, nc, state.source, current as int, (nc - num_nodes) as nat),
            nc <= node_ids@.len(),
            node_ids@.len() == old(node_ids)@.len(),
            node_ids@[num_nodes - 1] == closed@[current as int].id,
            whole == match back_chain(
                closed@,
                nc,
                state.source,
                current as int,
                (nc - num_nodes) as nat,
            ) {
                None => None,
                Some(rest) => Some(node_ids@.subrange(0, num_nodes - 1) + rest),
            },
            forall|j: int| num_nodes <= j < node_ids@.len() ==> node_ids@[j] == old(node_ids)@[j],
        ensures
            1 <= num_nodes <= nc,
            node_ids@.len() == old(node_ids)@.len(),
            whole == Some(node_ids@.subrange(0, num_nodes as int)),
            forall|j: int| num_nodes <= j < node_ids@.len() ==> node_ids@[j] == old(node_ids)@[j],
        decreases nc - num_nodes,
    {
        if node_ids[num_nodes - 1] == state.source {
            proof {
                assert(node_ids@.subrange(0, num_nodes - 1) + seq![closed@[current as int].id]
                    =~= node_ids@.subrange(0, num_nodes as int));
            }
            break;
        }
        if num_nodes >= state.num_closed {
            proof {
                assert(back_chain(closed@, nc, state.source, current as int, 0) is None);
                assert(whole is None);
            }
            return 0;
        }
        let index = match closed[current].previous {
            Some(p) => find_id(closed, state.num_closed, p),
            None => None,
        };
        match index {
            None => {
                proof {
                    assert(back_chain(
                        closed@,
                        nc,
                        state.source,
                        current as int,
                        (nc - num_nodes) as nat,
                    ) is None);
                    assert(whole is None);
                }
                return 0;
            },
            Some(i) => {
                let ghost prefix = node_ids@.subrange(0, num_nodes - 1);
                let ghost id = closed@[current as int].id;
                node_ids[num_nodes] = closed[i].id;
                proof {
                    assert(node_ids@.subrange(0, num_nodes as int) =~= prefix + seq![id]);
                    match back_chain(
                        closed@,
                        nc,
                        state.source,
                        i as int,
                        (nc - num_nodes - 1) as nat,
                    ) {
                        None => {},
                        Some(rest) => {
                            assert(prefix + (seq![id] + rest) =~= (prefix + seq![id]) + rest);
                        },
                    }
                }
                num_nodes = num_nodes + 1;
                current = i;
            },
        }
    }
    let ghost chain = node_ids@.subrange(0, num_nodes as int);
    let mut i: usize = 0;
    while i < num_nodes / 2
        invariant
            0 <= i <= num_nodes / 2,
            num_nodes <= node_ids@.len(),
            node_ids@.len() == old(node_ids)@.len(),
            forall|j: int| 0 <= j < i ==> node_ids@[j] == chain[num_nodes - 1 - j],
            forall|j: int| 0 <= j < i ==> node_ids@[num_nodes - 1 - j] == chain[j],
            forall|j: int| i <= j < num_nodes - i ==> node_ids@[j] == chain[j],
            forall|j: int| num_nodes <= j < node_ids@.len() ==> node_ids@[j] == old(node_ids)@[j],
        decreases num_nodes / 2 - i,
    {
        let x = node_ids[i];
        let y = node_ids[num_nodes - 1 - i];
        node_ids[i] = y;
        node_ids[num_nodes - 1 - i] = x;
        i = i + 1;
    }
    proof {
        assert(node_ids@.subrange(0, num_nodes as int) =~= chain.reverse());
        assert(node_ids@.subrange(num_nodes as int, node_ids@.len() as int) =~= old(node_ids)@.subrange(num_nodes as int, old(node_ids)@.len() as int));
    }
    num_nodes
}

/// Index of the first node with the smallest key among the first `n` open nodes.
fn find_nearest(open: &[IntNode], n: usize) -> (index: usize)
    requires
        1 <= n <= open@.len(),
        n >= 2 ==> keys_fit(open@, n as int),
    ensures
        index == nearest_index(open@, n as int),
        index < n,
        forall|j: int|
            0 <= j < n ==> open@[index as int].exact_distance + open@[index as int].estimate <= (
            #[trigger] open@[j]).exact_distance + open@[j].estimate,
        forall|j: int|
            0 <= j < index ==> (#[trigger] open@[j]).exact_distance + open@[j].estimate
                > open@[index as int].exact_distance + open@[index as int].estimate,
{
    proof {
        lemma_nearest_index_is_least(open@, n as int);
    }
    let mut index_in_open: usize = 0;
    let mut index: usize = 1;
    while index < n
        invariant
            1 <= index <= n <= open@.len(),
            n >= 2 ==> keys_fit(open@, n as int),
            index_in_open == nearest_index(open@, index as int),
            index_in_open < index,
        decreases n - index,
    {
        proof {
            assert(i64::MIN <= total(open@[index as int]) <= i64::MAX);
            assert(i64::MIN <= total(open@[index_in_open as int]) <= i64::MAX);
        }
        let node_key = open[index].exact_distance + open[index].estimate;
        let nearest_key = open[index_in_open].exact_distance + open[index_in_open].estimate;
        if node_key < nearest_key {
            index_in_open = index;
        }
        index = index + 1;
    }
    index_in_open
}

/// One step of the search.
///
/// In the nearest-node stage: fails when no node is open; asks for memory when the
/// open buffer cannot take one more node or the closed buffer two more; otherwise
/// takes the open node with the smallest key out of the open set and either
/// succeeds (it is the destination, and it is closed) or asks for its first
/// neighbor.
///
/// In the neighbor stage, with a neighbor: asks for memory when the open buffer
/// cannot take one more node; succeeds when the neighbor is the destination (the
/// current node and the neighbor are closed); otherwise updates a closed or open
/// node with the neighbor's id if the new distance is shorter, or opens the neighbor,
/// and asks for the next neighbor. Without a neighbor: closes the current node,
/// remembers it as the closest one if its estimate is the smallest so far, and goes
/// back to the nearest-node stage.
pub fn iteration(
    open: &mut [IntNode],
    closed: &mut [IntNode],
    state: &mut IntState,
    neighbor: Option<Link<i64, i64>>,
) -> (status: Status<i64>)
    requires
        can_step(old(open)@.len(), old(closed)@.len(), *old(state), neighbor),
        step_fits(old(open)@, *old(state), neighbor),
    ensures
        final(open)@.len() == old(open)@.len(),
        final(closed)@.len() == old(closed)@.len(),
        final(state).source == old(state).source,
        final(state).destination == old(state).destination,
        well_formed(old(open)@.len(), old(closed)@.len(), *old(state)) && status
            != Status::<i64>::SUCCESS ==> well_formed(
            final(open)@.len(),
            final(closed)@.len(),
            *final(state),
        ),
        // nearest-node stage
        old(state).stage == Stage::SEARCH_NEAREST && old(state).num_open == 0 ==> status
            == Status::<i64>::FAIL && final(open)@ == old(open)@ && final(closed)@ == old(closed)@
            && *final(state) == *old(state),
        old(state).stage == Stage::SEARCH_NEAREST && old(state).num_open != 0 && (old(state).num_open + 1 >= old(open)@.len() || old(state).num_closed + 2 >= old(closed)@.len())
            ==> status == Status::<i64>::OUT_OF_MEMORY && final(open)@ == old(open)@ && final(closed)@ == old(closed)@ && *final(state) == *old(state),
        old(state).stage == Stage::SEARCH_NEAREST && old(state).num_open != 0 && old(state).num_open + 1 < old(open)@.len() && old(state).num_closed + 2 < old(closed)@.len() ==> {
            let k = nearest_index(old(open)@, old(state).num_open as int);
            let nearest = old(open)@[k];
            let last = old(state).num_open - 1;
            &&& final(open)@ == old(open)@.update(k, old(open)@[last])
            &&& if nearest.id == old(state).destination {
                &&& status == Status::<i64>::SUCCESS
                &&& final(closed)@ == old(closed)@.update(old(state).num_closed as int, nearest)
                &&& *final(state) == (State {
                    num_open: last as usize,
                    num_closed: (old(state).num_closed + 1) as usize,
                    closest_index: old(state).num_closed,
                    closest_estimate: 0,
                    node: Some(nearest),
                    ..*old(state)
                })
            } else {
                &&& status == Status::NEIGHBOR(Neighbor_Request { node: nearest.id, index: 0 })
                &&& final(closed)@ == old(closed)@
                &&& *final(state) == (State {
                    stage: Stage::ENUM_NEIGHBORS,
                    num_open: last as usize,
                    node: Some(nearest),
                    neighbor_index: 0,
                    ..*old(state)
                })
            }
        },
        old(state).stage == Stage::SEARCH_NEAREST && old(state).num_open != 0 && old(state).num_open
            + 1 < old(open)@.len() && old(state).num_closed + 2 < old(closed)@.len()
            ==> (final(state).node matches Some(taken) && forall|j: int|
            0 <= j < old(state).num_open ==> taken.exact_distance + taken.estimate <= (
            #[trigger] old(open)@[j]).exact_distance + old(open)@[j].estimate),
        // neighbor stage, no more neighbors
        old(state).stage == Stage::ENUM_NEIGHBORS && neighbor is None ==> {
            let current = old(state).node->0;
            let better = current.estimate < old(state).closest_estimate;
            &&& status == Status::<i64>::PROGRESS
            &&& final(open)@ == old(open)@
            &&& final(closed)@ == old(closed)@.update(old(state).num_closed as int, current)
            &&& *final(state) == (State {
                stage: Stage::SEARCH_NEAREST,
                num_closed: (old(state).num_closed + 1) as usize,
                closest_index: if better {
                    old(state).num_closed
                } else {
                    old(state).closest_index
                },
                closest_estimate: if better {
                    current.estimate
                } else {
                    old(state).closest_estimate
                },
                node: None,
                ..*old(state)
            })
        },
        // neighbor stage, with a neighbor
        old(state).stage == Stage::ENUM_NEIGHBORS && neighbor is Some && old(state).num_open + 1
            >= old(open)@.len() ==> status == Status::<i64>::OUT_OF_MEMORY && final(open)@ == old(open)@ && final(closed)@ == old(closed)@ && *final(state) == *old(state),
        old(state).stage == Stage::ENUM_NEIGHBORS && neighbor is Some && old(state).num_open + 1
            < old(open)@.len() ==> {
            let current = old(state).node->0;
            let reached = node_via(current, neighbor->0);
            let nc = old(state).num_closed as int;
            let no = old(state).num_open as int;
            let next = Status::NEIGHBOR(
                Neighbor_Request { node: current.id, index: (old(state).neighbor_index + 1) as usize },
            );
            if reached.id == old(state).destination {
                &&& status == Status::<i64>::SUCCESS
                &&& final(open)@ == old(open)@
                &&& final(closed)@ == old(closed)@.update(nc, current).update(nc + 1, reached)
                &&& *final(state) == (State {
                    num_closed: (nc + 2) as usize,
                    closest_index: (nc + 1) as usize,
                    closest_estimate: 0,
                    node: None,
                    ..*old(state)
                })
            } else {
                &&& status == next
                &&& match index_of_id(old(closed)@, nc, reached.id) {
                    Some(ic) => {
                        let shorter = reached.exact_distance < old(closed)@[ic].exact_distance;
                        let closer = shorter && reached.estimate < old(state).closest_estimate;
                        &&& final(open)@ == old(open)@
                        &&& final(closed)@ == if shorter {
                            old(closed)@.update(ic, reached)
                        } else {
                            old(closed)@
                        }
                        &&& *final(state) == (State {
                            closest_index: if closer {
                                ic as usize
                            } else {
                                old(state).closest_index
                            },
                            closest_estimate: if closer {
                                reached.estimate
                            } else {
                                old(state).closest_estimate
                            },
                            neighbor_index: (old(state).neighbor_index + 1) as usize,
                            ..*old(state)
                        })
                    },
                    None => {
                        &&& final(closed)@ == old(closed)@
                        &&& match index_of_id(old(open)@, no, reached.id) {
                            Some(io) => {
                                &&& final(open)@ == if reached.exact_distance < old(open)@[io].exact_distance {
                                    old(open)@.update(io, reached)
                                } else {
                                    old(open)@
                                }
                                &&& *final(state) == (State {
                                    neighbor_index: (old(state).neighbor_index + 1) as usize,
                                    ..*old(state)
                                })
                            },
                            None => {
                                &&& final(open)@ == old(open)@.update(no, reached)
                                &&& *final(state) == (State {
                                    num_open: (no + 1) as usize,
                                    neighbor_index: (old(state).neighbor_index + 1) as usize,
                                    ..*old(state)
                                })
                            },
                        }
                    },
                }
            }
        },
{
    match state.stage {
        Stage::SEARCH_NEAREST => {
            if state.num_open == 0 {
                return Status::FAIL;
            }
            if state.num_open + 1 >= open.len() || state.num_closed + 2 >= closed.len() {
                return Status::OUT_OF_MEMORY;
            }
            let index_in_open = find_nearest(open, state.num_open);
            let nearest = Node {
                id: open[index_in_open].id,
                previous: open[index_in_open].previous,
                exact_distance: open[index_in_open].exact_distance,
                estimate: open[index_in_open].estimate,
                count: open[index_in_open].count,
            };
            let last = state.num_open - 1;
            let moved = Node {
                id: open[last].id,
                previous: open[last].previous,
                exact_distance: open[last].exact_distance,
                estimate: open[last].estimate,
                count: open[last].count,
            };
            state.node = Some(Node {
                id: nearest.id,
                previous: nearest.previous,
                exact_distance: nearest.exact_distance,
                estimate: nearest.estimate,
                count: nearest.count,
            });
            if index_in_open != last {
                open[index_in_open] = moved;
            }
            proof {
                assert(open@ =~= old(open)@.update(index_in_open as int, old(open)@[last as int]));
            }
            state.num_open = last;
            if nearest.id == state.destination {
                state.closest_index = state.num_closed;
                state.closest_estimate = 0;
                closed[state.num_closed] = nearest;
                state.num_closed = state.num_closed + 1;
                return Status::SUCCESS;
            }
            state.stage = Stage::ENUM_NEIGHBORS;
            state.neighbor_index = 0;
            Status::NEIGHBOR(Neighbor_Request { node: nearest.id, index: 0 })
        },
        Stage::ENUM_NEIGHBORS => {
            let current = match &state.node {
                Some(n) => Node {
                    id: n.id,
                    previous: n.previous,
                    exact_distance: n.exact_distance,
                    estimate: n.estimate,
                    count: n.count,
                },
                None => {
                    // excluded by `can_step`
                    return Status::FAIL;
                },
            };
            match neighbor {
                Some(link) => {
                    if state.num_open + 1 >= open.len() {
                        return Status::OUT_OF_MEMORY;
                    }
                    let reached = Node {
                        id: link.neighbor,
                        previous: Some(current.id),
                        exact_distance: current.exact_distance + link.exact_distance,
                        estimate: link.estimate,
                        count: current.count + 1,
                    };
                    if reached.id == state.destination {
                        state.closest_index = state.num_closed + 1;
                        state.closest_estimate = 0;
                        let nc = state.num_closed;
                        closed[nc] = current;
                        closed[nc + 1] = reached;
                        state.node = None;
                        state.num_closed = nc + 2;
                        return Status::SUCCESS;
                    }
                    let next_index = state.neighbor_index + 1;
                    match find_id(closed, state.num_closed, reached.id) {
                        Some(ic) => {
                            if reached.exact_distance < closed[ic].exact_distance {
                                if reached.estimate < state.closest_estimate {
                                    state.closest_index = ic;
                                    state.closest_estimate = reached.estimate;
                                }
                                closed[ic] = reached;
                            }
                            state.neighbor_index = next_index;
                            return Status::NEIGHBOR(
                                Neighbor_Request { node: current.id, index: next_index },
                            );
                        },
                        None => {},
                    }
                    match find_id(open, state.num_open, reached.id) {
                        Some(io) => {
                            if reached.exact_distance < open[io].exact_distance {
                                open[io] = reached;
                            }
                            state.neighbor_index = next_index;
                            return Status::NEIGHBOR(
                                Neighbor_Request { node: current.id, index: next_index },
                            );
                        },
                        None => {},
                    }
                    let no = state.num_open;
                    open[no] = reached;
                    state.num_open = no + 1;
                    state.neighbor_index = next_index;
                    Status::NEIGHBOR(Neighbor_Request { node: current.id, index: next_index })
                },
                None => {
                    if current.estimate < state.closest_estimate {
                        state.closest_index = state.num_closed;
                        state.closest_estimate = current.estimate;
                    }
                    let nc = state.num_closed;
                    closed[nc] = current;
                    state.node = None;
                    state.num_closed = nc + 1;
                    state.stage = Stage::SEARCH_NEAREST;
                    Status::PROGRESS
                },
            }
        },
    }
}

} // verus!
