//! Log levels, and which messages a level lets through.

use crate::text::str_eq;
use vstd::prelude::*;

verus! {

/// How important a message is.
#[derive(Clone, Copy, Debug, PartialEq, Eq, Structural)]
pub enum LogLevel {
    Debug,
    Info,
    Log,
    Warn,
    Error,
}

/// The rank of a level: a higher rank is more important.
pub open spec fn rank_of(level: LogLevel) -> int {
    match level {
        LogLevel::Debug => 0,
        LogLevel::Info => 1,
        LogLevel::Log => 2,
        LogLevel::Warn => 3,
        LogLevel::Error => 4,
    }
}

/// The level that is named `name`; a name that names none means `Log`.
pub open spec fn level_named(name: Seq<char>) -> LogLevel {
    if name == "Debug"@ {
        LogLevel::Debug
    } else if name == "Info"@ {
        LogLevel::Info
    } else if name == "Log"@ {
        LogLevel::Log
    } else if name == "Warn"@ {
        LogLevel::Warn
    } else if name == "Error"@ {
        LogLevel::Error
    } else {
        LogLevel::Log
    }
}

/// What a line of the log begins with.
pub open spec fn prefix_of(level: LogLevel) -> Seq<char> {
    match level {
        LogLevel::Debug => "[DEBUG]"@,
        LogLevel::Info => "[INFO]"@,
        LogLevel::Log => "[LOG]"@,
        LogLevel::Warn => "[WARN]"@,
        LogLevel::Error => "[ERROR]"@,
    }
}

/// A message of the level `level` is shown when the log is set to
/// `threshold`: set to `Debug`, the log shows debug messages, warnings and
/// errors; set to another level, it shows what is at least as important.
pub open spec fn shown(level: LogLevel, threshold: LogLevel) -> bool {
    if threshold == LogLevel::Debug {
        level == LogLevel::Debug || level == LogLevel::Warn || level == LogLevel::Error
    } else {
        rank_of(level) >= rank_of(threshold)
    }
}

impl LogLevel {
    /// The rank of the level.
    pub fn rank(self) -> (r: u8)
        ensures
            r == rank_of(self),
    {
        match self {
            LogLevel::Debug => 0,
            LogLevel::Info => 1,
            LogLevel::Log => 2,
            LogLevel::Warn => 3,
            LogLevel::Error => 4,
        }
    }

    /// The level that is named `name`.
    pub fn from_name(name: &str) -> (level: LogLevel)
        ensures
            level == level_named(name@),
    {
        if str_eq(name, "Debug") {
            LogLevel::Debug
        } else if str_eq(name, "Info") {
            LogLevel::Info
        } else if str_eq(name, "Log") {
            LogLevel::Log
        } else if str_eq(name, "Warn") {
            LogLevel::Warn
        } else if str_eq(name, "Error") {
            LogLevel::Error
        } else {
            LogLevel::Log
        }
    }

    /// What a line of the log for this level begins with.
    pub fn prefix(self) -> (text: &'static str)
        ensures
            text@ == prefix_of(self),
    {
        match self {
            LogLevel::Debug => "[DEBUG]",
            LogLevel::Info => "[INFO]",
            LogLevel::Log => "[LOG]",
            LogLevel::Warn => "[WARN]",
            LogLevel::Error => "[ERROR]",
        }
    }
}

/// Tells whether a message of the level `level` is shown when the log is set
/// to `threshold`.
pub fn should_log(level: LogLevel, threshold: LogLevel) -> (yes: bool)
    ensures
        yes == shown(level, threshold),
{
    match threshold {
        LogLevel::Debug => match level {
            LogLevel::Debug => true,
            LogLevel::Warn => true,
            LogLevel::Error => true,
            _ => false,
        },
        _ => level.rank() >= threshold.rank(),
    }
}

/// The line that the log shows for `message`, if the log, set to
/// `threshold`, shows it: the prefix of the level, a space and the message.
pub fn log(level: LogLevel, message: &str, threshold: LogLevel) -> (line: Option<String>)
    ensures
        line is Some <==> shown(level, threshold),
        line matches Some(text) ==> text@ == prefix_of(level) + " "@ + message@,
{
    if should_log(level, threshold) {
        let mut text = String::from_str(level.prefix());
        text.append(" ");
        text.append(message);
        Some(text)
    } else {
        None
    }
}

} // verus!
