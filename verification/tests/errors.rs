use meritrank::errors::MeritRankError;

#[test]
fn test_meritrank_error_display() {
    let error = MeritRankError::NodeDoesNotExist;
    assert_eq!(error.message(), "Node does not exist");

    let error = MeritRankError::SelfReferenceNotAllowed;
    assert_eq!(error.message(), "Self-reference is not allowed");

    let error = MeritRankError::RandomChoiceError;
    assert_eq!(error.message(), "Random choice error");

    let error = MeritRankError::InternalFatalError(None);
    assert_eq!(error.message(), "Internal fatal error");

    let error = MeritRankError::InternalFatalError(Some("rank::set_edge_ get_node_data(src) None"));
    assert_eq!(error.message(), "Internal fatal error: rank::set_edge_ get_node_data(src) None");
}

#[test]
fn every_error_has_its_text() {
    assert_eq!(MeritRankError::InfWeightEncountered.message(), "Edge with infinite weights are not allowed");
    assert_eq!(MeritRankError::NaNWeightEncountered.message(), "Edge with NaN weights are not allowed");
    assert_eq!(MeritRankError::ZeroWeightEncountered.message(), "Edge with zero weights are not allowed");
    assert_eq!(MeritRankError::NoPathExists.message(), "No path exists");
    assert_eq!(MeritRankError::NodeIdParseError.message(), "Node ID parse error");
    assert_eq!(MeritRankError::NodeIsNotCalculated.message(), "Node is not calculated");
    assert_eq!(MeritRankError::InvalidWalkLength.message(), "Invalid walk length");
    assert_eq!(MeritRankError::NodeNotFound.message(), "Can't find the node with the given ID");
    assert_eq!(MeritRankError::WalkNotFound.message(), "Can't find the walk with the given ID");
    assert_eq!(MeritRankError::EdgeNotFound.message(), "Can't find the edge between given nodes");
}
