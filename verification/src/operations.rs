//! Commands of the service that concern the service itself: its version and how
//! much it logs.
use vstd::prelude::*;

verus! {

/// The version of the service.
pub const VERSION: &'static str = "0.1.0";

/// Which kinds of log messages are written.
#[derive(Debug, Clone, Copy, PartialEq, Eq, Structural)]
pub struct LogLevels {
    pub error: bool,
    pub warning: bool,
    pub info: bool,
    pub verbose: bool,
    pub trace: bool,
}

/// The version of the service.
pub fn read_version() -> (version: &'static str)
    ensures
        version@ == VERSION@,
{
    VERSION
}

/// The kinds of log messages that log level `log_level` writes: errors from level
/// 1 on, warnings from 2, information from 3, verbose messages from 4 and traces
/// from 5.
pub fn write_log_level(log_level: u32) -> (levels: LogLevels)
    ensures
        levels.error == (log_level > 0),
        levels.warning == (log_level > 1),
        levels.info == (log_level > 2),
        levels.verbose == (log_level > 3),
        levels.trace == (log_level > 4),
{
    LogLevels {
        error: log_level > 0,
        warning: log_level > 1,
        info: log_level > 2,
        verbose: log_level > 3,
        trace: log_level > 4,
    }
}

} // verus!
