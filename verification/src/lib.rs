use vstd::prelude::*;

pub mod astar;
pub mod aug_graph;
pub mod bookkeeping;
pub mod consistency;
pub mod counter;
pub mod data;
pub mod errors;
pub mod helpers;
pub mod legacy_request_handler;
pub mod lrgraph;
pub mod new_server_ops;
pub mod node_registry;
pub mod node_set;
pub mod nodes;
pub mod operations;
pub mod proc_multigraph;
pub mod poll;
pub mod processor_stats;
pub mod protocol;
pub mod random_walk;
pub mod rank;
pub mod ranking;
pub mod rpc;
pub mod types;
pub mod walk_storage;

verus! {

} // verus!
