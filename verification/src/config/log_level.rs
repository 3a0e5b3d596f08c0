//! How much the supervisor logs.
use vstd::prelude::*;

verus! {

/// The least severe level of messages that are logged.
#[derive(Clone, Copy, Debug, PartialEq, Eq, Structural)]
pub enum LogLevel {
    Trace,
    Debug,
    Info,
    Warn,
    Error,
}

/// The default log level: `Info`.
pub fn default_log_level() -> (l: LogLevel)
    ensures
        l == LogLevel::Info,
{
    LogLevel::Info
}

} // verus!
