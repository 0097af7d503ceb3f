use meritrank::legacy_request_handler::{
    legacy_command_step, LegacyAction, LegacyCommand, CONTEXT_NOT_EMPTY, INVALID_PAYLOAD,
};
use vstd::hash_set::StringHashSet;

fn edge(a: &str, b: &str) -> Option<(String, String)> {
    Some((a.to_string(), b.to_string()))
}

fn egos(action: LegacyAction) -> Vec<String> {
    match action {
        LegacyAction::Process(e) => e,
        other => panic!("not processed: {:?}", other),
    }
}

#[test]
fn context_is_refused_for_global_commands() {
    let mut known = StringHashSet::new();
    for c in [
        LegacyCommand::Version,
        LegacyCommand::LogLevel,
        LegacyCommand::Reset,
        LegacyCommand::RecalculateZero,
        LegacyCommand::RecalculateClustering,
        LegacyCommand::NodeList,
        LegacyCommand::ReadNewEdgesFilter,
        LegacyCommand::WriteNewEdgesFilter,
        LegacyCommand::FetchNewEdges,
    ] {
        assert!(matches!(
            legacy_command_step(&mut known, c, false, true, None),
            LegacyAction::Fail(m) if m == CONTEXT_NOT_EMPTY
        ));
    }
    assert!(matches!(
        legacy_command_step(&mut known, LegacyCommand::Sync, false, true, None),
        LegacyAction::AnswerEmpty
    ));
    assert!(egos(legacy_command_step(&mut known, LegacyCommand::Other, false, true, None)).is_empty());
}

#[test]
fn version_and_log_level_requests() {
    let mut known = StringHashSet::new();
    assert!(matches!(
        legacy_command_step(&mut known, LegacyCommand::Version, true, true, None),
        LegacyAction::AnswerVersion
    ));
    assert!(matches!(
        legacy_command_step(&mut known, LegacyCommand::Version, true, false, None),
        LegacyAction::Fail(m) if m == INVALID_PAYLOAD
    ));
    assert!(matches!(
        legacy_command_step(&mut known, LegacyCommand::LogLevel, true, true, None),
        LegacyAction::Fail(m) if m == INVALID_PAYLOAD
    ));
}

#[test]
fn new_edge_ends_are_recalculated_once() {
    let mut known = StringHashSet::new();
    let first = egos(legacy_command_step(&mut known, LegacyCommand::Other, true, false, edge("U1", "U2")));
    assert_eq!(first, vec!["U1".to_string(), "U2".to_string()]);
    let second = egos(legacy_command_step(&mut known, LegacyCommand::Other, false, false, edge("U2", "U3")));
    assert_eq!(second, vec!["U3".to_string()]);
    let third = egos(legacy_command_step(&mut known, LegacyCommand::Other, true, false, edge("U4", "U4")));
    assert_eq!(third, vec!["U4".to_string()]);
    assert!(known.contains("U1") && known.contains("U3") && known.contains("U4"));
}

#[test]
fn reset_forgets_known_names() {
    let mut known = StringHashSet::new();
    egos(legacy_command_step(&mut known, LegacyCommand::Other, true, false, edge("U1", "U2")));
    assert!(egos(legacy_command_step(&mut known, LegacyCommand::Reset, true, false, None)).is_empty());
    assert!(!known.contains("U1"));
    let again = egos(legacy_command_step(&mut known, LegacyCommand::Other, true, false, edge("U1", "U2")));
    assert_eq!(again, vec!["U1".to_string(), "U2".to_string()]);
}
