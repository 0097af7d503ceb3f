//! Short tags naming the site of an internal fatal error.
use vstd::prelude::*;

verus! {

// ranking
pub const RANK_CALCULATE_GET_WALK_MUT: &'static str = "rank::calculate get_walk_mut None";
pub const RANK_SET_EDGE_GET_NODE_DATA_SRC: &'static str = "rank::set_edge_ get_node_data(src) None";
pub const RANK_SET_EDGE_GET_WALK: &'static str = "rank::set_edge_ get_walk None";
pub const RANK_SET_EDGE_FIRST_NODE: &'static str = "rank::set_edge_ walk first_node None";
pub const RANK_SET_EDGE_GET_WALK_MUT: &'static str = "rank::set_edge_ get_walk_mut None";
pub const RANK_ASSERT_GET_VISITS: &'static str = "rank::assert_counters get_visits_through_node None";
pub const RANK_ASSERT_POS_HITS_COUNT: &'static str = "rank::assert_counters pos_hits count mismatch";
pub const RANK_ASSERT_NEG_HITS_COUNT: &'static str = "rank::assert_counters neg_hits count mismatch";
pub const RANK_HIT_COUNT_OVERFLOW: &'static str = "rank::set_edge_ hit count overflow";
// graph
pub const GRAPH_NODEDATA_POS_WEIGHTED_INDEX: &'static str = "graph::NodeData random_neighbor pos WeightedIndex::new Err";
pub const GRAPH_NODEDATA_POS_DISTR_CACHE: &'static str = "graph::NodeData pos_distr_cache None";
pub const GRAPH_NODEDATA_POS_KEYS_NTH: &'static str = "graph::NodeData pos_edges.keys().nth None";
pub const GRAPH_NODEDATA_ABS_WEIGHTED_INDEX: &'static str = "graph::NodeData random_neighbor abs WeightedIndex::new Err";
pub const GRAPH_NODEDATA_ABS_DISTR_CACHE: &'static str = "graph::NodeData abs_distr_cache None";
pub const GRAPH_GET_NODE_AT_INDEX_POS: &'static str = "graph::get_node_at_index pos_edges.keys().nth None";
pub const GRAPH_GET_NODE_AT_INDEX_NEG: &'static str = "graph::get_node_at_index neg_edges.keys().nth None";
pub const GRAPH_SET_EDGE_REMOVE_FAILED: &'static str = "graph::set_edge remove_edge failed";
pub const GRAPH_GENERATE_WALK_GET_NODE_DATA: &'static str = "graph::generate_walk_segment get_node_data_mut None";
pub const GRAPH_CONTINUE_WALK_LAST_NODE: &'static str = "graph::continue_walk last_node None";
// walk storage
pub const WALK_STORAGE_DROP_WALKS_GET_MUT: &'static str = "walk_storage::drop_walks_from_node get_mut None";
pub const WALK_STORAGE_ASSERT_VISITS: &'static str = "walk_storage::assert_visits_consistency";
pub const WALK_STORAGE_FIND_AFFECTED_GET_WALK: &'static str = "walk_storage::find_affected_walkids get_walk None";
pub const WALK_STORAGE_FIND_AFFECTED_DST_NONE: &'static str = "walk_storage::find_affected_walkids dst_node None";
pub const WALK_STORAGE_SPLIT_GET_MUT: &'static str = "walk_storage::split_and_remove_from_bookkeeping get_mut None";
pub const WALK_DECIDE_SKIP_DELETION_POS: &'static str = "decide_skip_invalidation_on_edge_deletion pos >= walk.len";
pub const WALK_DECIDE_SKIP_ADDITION_POS: &'static str = "decide_skip_invalidation_on_edge_addition pos >= walk.len";
// random walks
pub const RANDOM_WALK_PUSH_SELF_LOOP: &'static str = "random_walk::push self-loop";
pub const RANDOM_WALK_PUSH_NEG_SEGMENT: &'static str = "random_walk::push negative_segment_start already Some";
pub const RANDOM_WALK_EXTEND_TWO_NEG: &'static str = "random_walk::extend two negative segments";

} // verus!
