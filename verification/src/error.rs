use vstd::prelude::*;

verus! {

/// Why an operation on the log failed.
#[derive(Debug, Clone, Copy, PartialEq, Eq, Structural)]
pub enum LogError {
    /// The backing file could not be opened, read, created or written.
    Io,
    /// The persisted text is not JSON, or not a list of log entries.
    Serialization,
    /// The system clock reports a time before the Unix epoch.
    Clock,
}

impl LogError {
    /// A short description of the failure, for messages to the user.
    pub fn message(&self) -> (text: &'static str)
        ensures
            text@ == match *self {
                LogError::Io => "log file i/o error"@,
                LogError::Serialization => "log file is not a valid query log"@,
                LogError::Clock => "system clock is before the Unix epoch"@,
            },
    {
        match self {
            LogError::Io => "log file i/o error",
            LogError::Serialization => "log file is not a valid query log",
            LogError::Clock => "system clock is before the Unix epoch",
        }
    }
}

} // verus!
