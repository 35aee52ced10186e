//! The standard logger's filtering rule: messages at informational
//! severity or above are kept, debug and trace chatter is dropped.

use vstd::prelude::*;

verus! {

/// A log message's severity, most severe first.
pub enum LogLevel {
    Error,
    Warn,
    Info,
    Debug,
    Trace,
}

/// The logger that prints to standard output.
pub struct StdLooger {}

impl StdLooger {
    /// Whether a message at `level` is printed: informational severity or
    /// above, never debug or trace.
    pub fn enabled(&self, level: &LogLevel) -> (r: bool)
        ensures
            r == (level is Error || level is Warn || level is Info),
    {
        match level {
            LogLevel::Error => true,
            LogLevel::Warn => true,
            LogLevel::Info => true,
            LogLevel::Debug => false,
            LogLevel::Trace => false,
        }
    }
}

} // verus!
