//! Logging verbosity: the mapping from the command line's repeated
//! verbosity flag to the maximum level that should be printed. Attaching
//! the level to an actual logging sink is the embedding program's job.

use vstd::prelude::*;

verus! {

/// The maximum level of messages to print.
#[derive(Debug, Clone, Copy, PartialEq, Eq, Structural)]
pub enum LevelFilter {
    Error,
    Warn,
    Info,
    Debug,
}

/// The level selected by a verbosity count: zero prints only errors, and
/// each step up to three adds warnings, information and debug output.
pub fn init(verbosity: u64) -> (r: LevelFilter)
    ensures
        r == (match verbosity {
            0u64 => LevelFilter::Error,
            1u64 => LevelFilter::Warn,
            2u64 => LevelFilter::Info,
            _ => LevelFilter::Debug,
        }),
{
    match verbosity {
        0 => LevelFilter::Error,
        1 => LevelFilter::Warn,
        2 => LevelFilter::Info,
        _ => LevelFilter::Debug,
    }
}

} // verus!
