//! Which settings hold.

use crate::config::{file_to_read, setting};
use crate::logging::{format_named, level_named, LogFormat, LogLevel};
use vstd::prelude::*;

verus! {

/// A setting of the command line holds whatever the file says; one of the file holds where the
/// command line says nothing; the default holds where neither says anything.
pub proof fn law_command_line_holds_before_the_file(
    given: Seq<char>,
    file: Option<Seq<char>>,
    default: Seq<char>,
)
    ensures
        setting(Some(given), file, default) == given,
        setting(None, Some(given), default) == given,
        setting(None, None, default) == default,
{
}

/// A file that is named is read whether or not there is a default one; without a name the default
/// file is read where there is one, and otherwise none.
pub proof fn law_named_file_is_read(path: Seq<char>, default_exists: bool)
    ensures
        file_to_read(Some(path), default_exists) == Some(path),
        file_to_read(None, true) == Some("config.toml"@),
        file_to_read(None, false) is None,
{
}

/// The name of a level.
pub open spec fn name_of_level(level: LogLevel) -> Seq<char> {
    match level {
        LogLevel::Trace => "trace"@,
        LogLevel::Debug => "debug"@,
        LogLevel::Info => "info"@,
        LogLevel::Warn => "warn"@,
        LogLevel::Error => "error"@,
    }
}

/// The name of a format.
pub open spec fn name_of_format(format: LogFormat) -> Seq<char> {
    match format {
        LogFormat::Text => "text"@,
        LogFormat::Json => "json"@,
    }
}

/// A level is read from its name and from nothing else, and a format likewise.
pub proof fn law_levels_and_formats_are_read_from_their_names(
    level: LogLevel,
    format: LogFormat,
    name: Seq<char>,
)
    ensures
        level_named(name) == Ok::<LogLevel, Seq<char>>(level) <==> name == name_of_level(level),
        format_named(name) == Ok::<LogFormat, Seq<char>>(format) <==> name == name_of_format(
            format,
        ),
{
    reveal_strlit("trace");
    reveal_strlit("debug");
    reveal_strlit("info");
    reveal_strlit("warn");
    reveal_strlit("error");
    reveal_strlit("text");
    reveal_strlit("json");
    assert("trace"@.len() == 5 && "trace"@[0] == 't');
    assert("debug"@.len() == 5 && "debug"@[0] == 'd');
    assert("error"@.len() == 5 && "error"@[0] == 'e');
    assert("info"@.len() == 4 && "info"@[0] == 'i');
    assert("warn"@.len() == 4 && "warn"@[0] == 'w');
    assert("text"@[0] == 't' && "json"@[0] == 'j');
}

} // verus!
