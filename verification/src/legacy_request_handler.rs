//! The server that answers requests of the older protocol: its settings, and what
//! it decides about a command before the command is processed.
use vstd::hash_set::StringHashSet;
use vstd::prelude::*;

verus! {

/// The address the server listens on and the number of its worker threads.
pub struct Settings {
    pub url: String,
    pub num_threads: usize,
}

/// The commands of the older protocol that the server treats itself before it hands
/// a request on; every other command is `Other`.
#[derive(Debug, Clone, Copy, PartialEq, Eq, Structural)]
pub enum LegacyCommand {
    Version,
    LogLevel,
    Sync,
    Reset,
    RecalculateZero,
    RecalculateClustering,
    NodeList,
    ReadNewEdgesFilter,
    WriteNewEdgesFilter,
    FetchNewEdges,
    Other,
}

/// The version the server reports.
pub const LEGACY_VERSION: &'static str = "0.3.0";

/// The error for a command that takes no context but was given one.
pub const CONTEXT_NOT_EMPTY: &'static str = "Context should be empty.";

/// The error for a payload that the command cannot read.
pub const INVALID_PAYLOAD: &'static str = "Invalid payload.";

/// What the server does with a command.
#[derive(Debug)]
pub enum LegacyAction {
    /// Answers with an error message.
    Fail(&'static str),
    /// Answers with [`LEGACY_VERSION`].
    AnswerVersion,
    /// Answers with an empty value.
    AnswerEmpty,
    /// Recalculates for each of these egos, in order, then processes the request.
    Process(Vec<String>),
}

/// Whether `command` must come without a context.
pub open spec fn takes_no_context(command: LegacyCommand) -> bool {
    match command {
        LegacyCommand::Version | LegacyCommand::LogLevel | LegacyCommand::Reset
        | LegacyCommand::RecalculateZero | LegacyCommand::RecalculateClustering
        | LegacyCommand::NodeList | LegacyCommand::ReadNewEdgesFilter
        | LegacyCommand::WriteNewEdgesFilter | LegacyCommand::FetchNewEdges => true,
        LegacyCommand::Sync | LegacyCommand::Other => false,
    }
}

/// The names of an edge's ends that `known` does not hold, source first, each once.
pub open spec fn first_seen(known: Set<Seq<char>>, edge: Option<(String, String)>) -> Seq<Seq<char>> {
    match edge {
        None => Seq::empty(),
        Some((src, dst)) => {
            let from_src = if known.contains(src@) {
                Seq::<Seq<char>>::empty()
            } else {
                seq![src@]
            };
            let from_dst = if known.insert(src@).contains(dst@) {
                Seq::<Seq<char>>::empty()
            } else {
                seq![dst@]
            };
            from_src + from_dst
        },
    }
}

/// The known names after `edge`'s ends have been seen.
pub open spec fn seen_after(known: Set<Seq<char>>, edge: Option<(String, String)>) -> Set<Seq<char>> {
    match edge {
        None => known,
        Some((src, dst)) => known.insert(src@).insert(dst@),
    }
}

/// Decides about a command of the older protocol, given whether its context is
/// empty, whether its payload reads as an empty value, and the ends of the edge
/// it writes, if it writes one. A command that takes no context fails when it has
/// one. A version request is answered when its payload is empty and fails
/// otherwise; a log level request fails; a sync is answered with nothing. Any
/// other command is processed (a reset first forgets the known names), after a
/// recalculation for each end of a written edge that is not known yet, which then
/// becomes known.
pub fn legacy_command_step(
    known: &mut StringHashSet,
    command: LegacyCommand,
    context_empty: bool,
    unit_payload: bool,
    edge: Option<(String, String)>,
) -> (action: LegacyAction)
    ensures
        !context_empty && takes_no_context(command) ==> action == LegacyAction::Fail(
            CONTEXT_NOT_EMPTY,
        ) && final(known)@ == old(known)@,
        !(!context_empty && takes_no_context(command)) ==> match command {
            LegacyCommand::Version => final(known)@ == old(known)@ && action == if unit_payload {
                LegacyAction::AnswerVersion
            } else {
                LegacyAction::Fail(INVALID_PAYLOAD)
            },
            LegacyCommand::LogLevel => final(known)@ == old(known)@ && action == LegacyAction::Fail(
                INVALID_PAYLOAD,
            ),
            LegacyCommand::Sync => final(known)@ == old(known)@ && action
                == LegacyAction::AnswerEmpty,
            _ => {
                let base = if command == LegacyCommand::Reset {
                    Set::<Seq<char>>::empty()
                } else {
                    old(known)@
                };
                &&& action matches LegacyAction::Process(egos) && egos@.map_values(
                    |s: String| s@,
                ) == first_seen(base, edge)
                &&& final(known)@ == seen_after(base, edge)
            },
        },
{
    let no_context = match command {
        LegacyCommand::Sync | LegacyCommand::Other => false,
        _ => true,
    };
    if !context_empty && no_context {
        return LegacyAction::Fail(CONTEXT_NOT_EMPTY);
    }
    match command {
        LegacyCommand::Version => {
            if unit_payload {
                return LegacyAction::AnswerVersion;
            }
            return LegacyAction::Fail(INVALID_PAYLOAD);
        },
        LegacyCommand::LogLevel => {
            return LegacyAction::Fail(INVALID_PAYLOAD);
        },
        LegacyCommand::Sync => {
            return LegacyAction::AnswerEmpty;
        },
        LegacyCommand::Reset => {
            known.clear();
        },
        _ => {},
    }
    let ghost base = known@;
    let mut egos: Vec<String> = Vec::new();
    match edge {
        Some((src, dst)) => {
            if !known.contains(src.as_str()) {
                egos.push(src.clone());
                known.insert(src.clone());
            }
            let ghost mid = known@;
            if !known.contains(dst.as_str()) {
                egos.push(dst.clone());
                known.insert(dst);
            }
            proof {
                assert(mid == base.insert(src@));
                assert(known@ =~= base.insert(src@).insert(dst@));
                assert(egos@.map_values(|s: String| s@) =~= first_seen(base, Some((src, dst))));
            }
        },
        None => {
            proof {
                assert(egos@.map_values(|s: String| s@) =~= first_seen(base, None));
            }
        },
    }
    LegacyAction::Process(egos)
}

} // verus!
