//! Log levels and formats.

use crate::text::{quote, quoted, text_eq};
use vstd::prelude::*;

verus! {

/// How much is logged.
#[derive(Debug, Clone, Copy, PartialEq, Eq, Structural)]
pub enum LogLevel {
    Trace,
    Debug,
    Info,
    Warn,
    Error,
}

/// How log lines are written.
#[derive(Debug, Clone, Copy, PartialEq, Eq, Structural)]
pub enum LogFormat {
    Text,
    Json,
}

/// The level that a name stands for.
pub open spec fn level_named(name: Seq<char>) -> Result<LogLevel, Seq<char>> {
    if name == "trace"@ {
        Ok(LogLevel::Trace)
    } else if name == "debug"@ {
        Ok(LogLevel::Debug)
    } else if name == "info"@ {
        Ok(LogLevel::Info)
    } else if name == "warn"@ {
        Ok(LogLevel::Warn)
    } else if name == "error"@ {
        Ok(LogLevel::Error)
    } else {
        Err("unknown log level "@ + quoted(name))
    }
}

/// The format that a name stands for.
pub open spec fn format_named(name: Seq<char>) -> Result<LogFormat, Seq<char>> {
    if name == "text"@ {
        Ok(LogFormat::Text)
    } else if name == "json"@ {
        Ok(LogFormat::Json)
    } else {
        Err("unknown log format "@ + quoted(name))
    }
}

impl LogLevel {
    /// The level that a name stands for.
    pub fn parse(name: &str) -> (level: Result<LogLevel, String>)
        ensures
            match level {
                Ok(level) => level_named(name@) == Ok::<LogLevel, Seq<char>>(level),
                Err(message) => level_named(name@) == Err::<LogLevel, Seq<char>>(message@),
            },
    {
        if text_eq(name, "trace") {
            Ok(LogLevel::Trace)
        } else if text_eq(name, "debug") {
            Ok(LogLevel::Debug)
        } else if text_eq(name, "info") {
            Ok(LogLevel::Info)
        } else if text_eq(name, "warn") {
            Ok(LogLevel::Warn)
        } else if text_eq(name, "error") {
            Ok(LogLevel::Error)
        } else {
            Err("unknown log level ".to_owned().concat(quote(name).as_str()))
        }
    }
}

impl LogFormat {
    /// The format that a name stands for.
    pub fn parse(name: &str) -> (format: Result<LogFormat, String>)
        ensures
            match format {
                Ok(format) => format_named(name@) == Ok::<LogFormat, Seq<char>>(format),
                Err(message) => format_named(name@) == Err::<LogFormat, Seq<char>>(message@),
            },
    {
        if text_eq(name, "text") {
            Ok(LogFormat::Text)
        } else if text_eq(name, "json") {
            Ok(LogFormat::Json)
        } else {
            Err("unknown log format ".to_owned().concat(quote(name).as_str()))
        }
    }
}

} // verus!
