use meritrank::aug_graph::read::NeighborDirection;
use meritrank::data::{self, ResStats, NEIGHBORS_ALL, NEIGHBORS_INBOUND, NEIGHBORS_OUTBOUND};
use meritrank::lrgraph::{absorb_first, absorb_second, sync_with, CounterAddOp};
use meritrank::new_server_ops;
use meritrank::node_registry;
use meritrank::nodes::{node_kind_from_prefix, NodeKind};
use meritrank::operations::{read_version, write_log_level, VERSION};
use meritrank::proc_multigraph::{write_edge_route, MultiGraphProcessorSettings, WriteEdgeRoute};
use meritrank::processor_stats::ProcessorStats;
use meritrank::protocol::ServiceRequestOpcode;
use meritrank::rpc::{edge_magnitude, kind_from_prefix, strip_scheme};
use meritrank::types::{ctx, require, timeout_u64};

#[test]
fn strip_scheme_removes_tcp_prefix() {
    assert_eq!(strip_scheme("tcp://127.0.0.1:8080"), "127.0.0.1:8080");
    assert_eq!(strip_scheme("127.0.0.1:8080"), "127.0.0.1:8080");
}

#[test]
fn strip_scheme_keeps_other_addresses() {
    assert_eq!(strip_scheme("tcp:/x"), "tcp:/x");
    assert_eq!(strip_scheme("tcp://"), "");
    assert_eq!(strip_scheme("udp://h:1"), "udp://h:1");
    assert_eq!(strip_scheme(""), "");
}

#[test]
fn kind_from_prefix_examples() {
    assert_eq!(kind_from_prefix("U1"), Some(data::NodeKind::User));
    assert_eq!(kind_from_prefix("B1"), Some(data::NodeKind::Beacon));
    assert_eq!(kind_from_prefix(""), None);
    assert_eq!(kind_from_prefix("?"), None);
}

#[test]
fn magnitude_mapping() {
    assert_eq!(edge_magnitude(-1), 0);
    assert_eq!(edge_magnitude(3), 3);
}

#[test]
fn magnitude_keeps_the_low_bits_of_a_large_index() {
    assert_eq!(edge_magnitude(0x1_0000_0005), 5);
    assert_eq!(edge_magnitude(i64::MIN), 0);
}

#[test]
fn node_kinds_by_first_letter() {
    assert_eq!(node_kind_from_prefix("U1"), Some(NodeKind::User));
    assert_eq!(node_kind_from_prefix("Bx"), Some(NodeKind::Beacon));
    assert_eq!(node_kind_from_prefix("C"), Some(NodeKind::Comment));
    assert_eq!(node_kind_from_prefix("O7"), Some(NodeKind::Opinion));
    assert_eq!(node_kind_from_prefix("V2"), Some(NodeKind::PollVariant));
    assert_eq!(node_kind_from_prefix("P3"), Some(NodeKind::Poll));
    assert_eq!(node_kind_from_prefix("u1"), None);
    assert_eq!(node_kind_from_prefix(""), None);
    assert_eq!(node_registry::node_kind_from_prefix("Opinion"), Some(data::NodeKind::Opinion));
    assert_eq!(node_registry::node_kind_from_prefix(""), None);
    assert_eq!(node_registry::node_kind_from_prefix("X"), None);
}

#[test]
fn node_kind_names() {
    assert_eq!(NodeKind::User.to_string(), "User");
    assert_eq!(NodeKind::PollVariant.to_string(), "PollVariant");
    assert_eq!(NodeKind::Poll.to_string(), "Poll");
}

#[test]
fn opcodes_that_read() {
    assert!(ServiceRequestOpcode::ReadScores.is_read());
    assert!(!ServiceRequestOpcode::WriteEdge.is_read());
    assert!(new_server_ops::ServiceRequestOpcode::ReadRank.is_read());
    assert!(!new_server_ops::ServiceRequestOpcode::WriteEdge.is_read());
}

#[test]
fn argument_helpers() {
    assert_eq!(ctx(Some("ctx1")), "ctx1");
    assert_eq!(ctx(None), "");
    assert_eq!(require(Some(5), "limit"), Ok(5));
    assert_eq!(require::<i32>(None, "limit"), Err("limit should not be null".to_string()));
    assert_eq!(timeout_u64(None), None);
    assert_eq!(timeout_u64(Some(250)), Some(250));
    assert_eq!(timeout_u64(Some(-1)), Some(u64::MAX));
}

#[test]
fn log_levels_by_threshold() {
    let none = write_log_level(0);
    assert!(!none.error && !none.warning && !none.info && !none.verbose && !none.trace);
    let three = write_log_level(3);
    assert!(three.error && three.warning && three.info && !three.verbose && !three.trace);
    let all = write_log_level(9);
    assert!(all.error && all.warning && all.info && all.verbose && all.trace);
    assert_eq!(read_version(), VERSION);
}

#[test]
fn settings_and_records() {
    let s = MultiGraphProcessorSettings::default();
    assert_eq!(s.sleep_duration_after_publish_ms, 100);
    assert_eq!(s.subgraph_queue_capacity, 1024);
    let r = ResStats::default();
    assert_eq!((r.pending, r.median_us, r.count), (0, 0, 0));
    assert_eq!(CounterAddOp::new().amount(), 0);
    assert_eq!((NEIGHBORS_ALL, NEIGHBORS_OUTBOUND, NEIGHBORS_INBOUND), (0, 1, 2));
    assert_ne!(NeighborDirection::All, NeighborDirection::Inbound);
}

#[test]
fn stats_snapshot_of_nothing_is_zero() {
    let s = ProcessorStats::new(10);
    let snap = s.snapshot();
    assert_eq!(snap.count, 0);
    assert_eq!(snap.pending, 0);
    assert_eq!((snap.median_us, snap.p95_us, snap.p99_us, snap.min_us, snap.max_us), (0, 0, 0, 0, 0));
}

#[test]
fn stats_percentiles_of_sorted_times() {
    let mut s = ProcessorStats::new(100);
    for t in [50u64, 10, 40, 20, 30] {
        s.record_enqueue();
        s.record_applied(t);
    }
    s.record_enqueue();
    let snap = s.snapshot();
    assert_eq!(snap.pending, 1);
    assert_eq!(snap.count, 5);
    assert_eq!(snap.median_us, 30);
    assert_eq!(snap.min_us, 10);
    assert_eq!(snap.max_us, 50);
    // 5 * 95 / 100 = 4 and 5 * 99 / 100 = 4: the greatest
    assert_eq!(snap.p95_us, 50);
    assert_eq!(snap.p99_us, 50);
}

#[test]
fn stats_percentile_positions_of_twenty_times() {
    let mut s = ProcessorStats::new(100);
    for t in 1u64..=20 {
        s.record_applied(t * 10);
    }
    let snap = s.snapshot();
    // median at (20 - 1) / 2 = 9, p95 at 19, p99 at min(19, 19)
    assert_eq!(snap.median_us, 100);
    assert_eq!(snap.p95_us, 200);
    assert_eq!(snap.p99_us, 200);
    // pending wrapped below zero, as a counter does
    assert_eq!(snap.pending, usize::MAX - 19);
}

#[test]
fn stats_keep_the_latest_times_only() {
    let mut s = ProcessorStats::new(3);
    for t in [1u64, 2, 3, 4, 5] {
        s.record_applied(t);
    }
    let snap = s.snapshot();
    assert_eq!(snap.count, 3);
    assert_eq!(snap.min_us, 3);
    assert_eq!(snap.max_us, 5);
    s.reset();
    assert_eq!(s.snapshot().count, 0);
    assert_eq!(s.ops_pending, 0);
    assert_eq!(s.pending(), 0);
}

#[test]
fn stats_with_no_room_keep_nothing() {
    let mut s = ProcessorStats::new(0);
    s.record_applied(7);
    assert_eq!(s.snapshot().count, 0);
}

#[test]
fn written_edges_are_routed_by_node_kinds() {
    let r = |a: &str, b: &str| write_edge_route(&a.to_string(), &b.to_string());
    assert_eq!(r("U1", "U1"), WriteEdgeRoute::SelfReference);
    assert_eq!(r("U1", "U2"), WriteEdgeRoute::UserToUser);
    assert_eq!(r("U1", "V1"), WriteEdgeRoute::UserVote);
    assert_eq!(r("V1", "P1"), WriteEdgeRoute::PollVariant);
    assert_eq!(r("P1", "V1"), WriteEdgeRoute::UnexpectedPollEdge);
    assert_eq!(r("B1", "P1"), WriteEdgeRoute::UnexpectedPollEdge);
    assert_eq!(r("U1", "B1"), WriteEdgeRoute::Plain);
    assert_eq!(r("x1", "P1"), WriteEdgeRoute::Plain);
    assert_eq!(r("O1", "C2"), WriteEdgeRoute::Plain);
}

#[test]
fn stats_pending_is_enqueued_less_applied() {
    let mut s = ProcessorStats::new(2);
    for _ in 0..7 {
        s.record_enqueue();
    }
    for t in 0u64..4 {
        s.record_applied(t);
    }
    let snap = s.snapshot();
    assert_eq!(snap.pending, 3);
    assert!(snap.count <= 2);
    for t in 0u64..5 {
        s.record_applied(t);
    }
    assert_eq!(s.snapshot().pending, 3usize.wrapping_sub(5));
    assert_eq!(s.snapshot().count, 2);
}

#[test]
fn absorbing_a_new_operation_changes_nothing() {
    let mut first: i32 = 5;
    absorb_first(&mut first, &CounterAddOp::new());
    assert_eq!(first, 5);
    let mut second: i32 = -3;
    absorb_second(&mut second, CounterAddOp::new());
    assert_eq!(second, -3);
    sync_with(&mut second, &first);
    assert_eq!(second, 5);
}
