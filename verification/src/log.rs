use vstd::prelude::*;

verus! {

/// A log request sent by a guest: a numeric level and a message text.
///
/// Levels 0 through 4 map to the five severities (trace, debug, info,
/// warn, error); any other level is reported as an error-severity line
/// that quotes the literal level value together with the message.
#[derive(Debug, Clone, PartialEq, Eq)]
pub struct LogMessage {
    pub level: u8,
    pub message: String,
}

/// The five severities a host log line can carry.
#[derive(Debug, Clone, Copy, PartialEq, Eq, Structural)]
pub enum Severity {
    Trace,
    Debug,
    Info,
    Warn,
    Error,
}

/// One line of host log output, produced while handling guest actions.
///
/// The library computes log lines as values; emitting them to a terminal
/// or a log collector is left to the embedding program.
#[derive(Debug, Clone, PartialEq, Eq)]
pub struct LogLine {
    pub severity: Severity,
    pub text: String,
}

} // verus!
