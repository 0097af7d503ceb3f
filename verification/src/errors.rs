//! Errors of the ranking library.
use vstd::prelude::*;

pub mod internal_fatal;

verus! {

/// What can go wrong when building walks and ranking nodes.
#[derive(Debug, Clone)]
pub enum MeritRankError {
    InfWeightEncountered,
    NaNWeightEncountered,
    ZeroWeightEncountered,
    NodeDoesNotExist,
    SelfReferenceNotAllowed,
    RandomChoiceError,
    NoPathExists,
    NodeIdParseError,
    NodeIsNotCalculated,
    InvalidWalkLength,
    NodeNotFound,
    WalkNotFound,
    EdgeNotFound,
    /// A broken internal invariant, with a tag naming the site where it was found.
    InternalFatalError(Option<&'static str>),
}

/// The human-readable text of an error.
pub open spec fn error_text(error: MeritRankError) -> Seq<char> {
    match error {
        MeritRankError::InfWeightEncountered => "Edge with infinite weights are not allowed"@,
        MeritRankError::NaNWeightEncountered => "Edge with NaN weights are not allowed"@,
        MeritRankError::ZeroWeightEncountered => "Edge with zero weights are not allowed"@,
        MeritRankError::NodeDoesNotExist => "Node does not exist"@,
        MeritRankError::SelfReferenceNotAllowed => "Self-reference is not allowed"@,
        MeritRankError::RandomChoiceError => "Random choice error"@,
        MeritRankError::NoPathExists => "No path exists"@,
        MeritRankError::NodeIdParseError => "Node ID parse error"@,
        MeritRankError::NodeIsNotCalculated => "Node is not calculated"@,
        MeritRankError::InvalidWalkLength => "Invalid walk length"@,
        MeritRankError::NodeNotFound => "Can't find the node with the given ID"@,
        MeritRankError::WalkNotFound => "Can't find the walk with the given ID"@,
        MeritRankError::EdgeNotFound => "Can't find the edge between given nodes"@,
        MeritRankError::InternalFatalError(None) => "Internal fatal error"@,
        MeritRankError::InternalFatalError(Some(site)) => "Internal fatal error: "@ + site@,
    }
}

impl MeritRankError {
    /// The human-readable text of the error.
    pub fn message(&self) -> (text: String)
        ensures
            text@ == error_text(*self),
    {
        match self {
            MeritRankError::InfWeightEncountered => String::from_str(
                "Edge with infinite weights are not allowed",
            ),
            MeritRankError::NaNWeightEncountered => String::from_str(
                "Edge with NaN weights are not allowed",
            ),
            MeritRankError::ZeroWeightEncountered => String::from_str(
                "Edge with zero weights are not allowed",
            ),
            MeritRankError::NodeDoesNotExist => String::from_str("Node does not exist"),
            MeritRankError::SelfReferenceNotAllowed => String::from_str(
                "Self-reference is not allowed",
            ),
            MeritRankError::RandomChoiceError => String::from_str("Random choice error"),
            MeritRankError::NoPathExists => String::from_str("No path exists"),
            MeritRankError::NodeIdParseError => String::from_str("Node ID parse error"),
            MeritRankError::NodeIsNotCalculated => String::from_str("Node is not calculated"),
            MeritRankError::InvalidWalkLength => String::from_str("Invalid walk length"),
            MeritRankError::NodeNotFound => String::from_str("Can't find the node with the given ID"),
            MeritRankError::WalkNotFound => String::from_str("Can't find the walk with the given ID"),
            MeritRankError::EdgeNotFound => String::from_str(
                "Can't find the edge between given nodes",
            ),
            MeritRankError::InternalFatalError(None) => String::from_str("Internal fatal error"),
            MeritRankError::InternalFatalError(Some(site)) => {
                let mut text = String::from_str("Internal fatal error: ");
                text.append(site);
                text
            },
        }
    }
}

} // verus!
