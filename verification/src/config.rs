//! Configuration from the command line and the configuration file.

use crate::logging::{format_named, level_named, LogFormat, LogLevel};
use crate::strmap::StrMap;
use crate::text::{quote, quoted};
use crate::views::option_view;
use vstd::prelude::*;

verus! {

/// Why the configuration could not be had.
#[derive(Debug, PartialEq)]
pub enum ConfigError {
    FileRead { path: String, source: String },
    Parse { path: String, source: String },
    Validation(String),
}

/// What a [`ConfigError`] stands for.
pub enum ConfigErrorView {
    FileRead { path: Seq<char>, source: Seq<char> },
    Parse { path: Seq<char>, source: Seq<char> },
    Validation(Seq<char>),
}

impl View for ConfigError {
    type V = ConfigErrorView;

    open spec fn view(&self) -> ConfigErrorView {
        match self {
            ConfigError::FileRead { path, source } => ConfigErrorView::FileRead {
                path: path@,
                source: source@,
            },
            ConfigError::Parse { path, source } => ConfigErrorView::Parse {
                path: path@,
                source: source@,
            },
            ConfigError::Validation(message) => ConfigErrorView::Validation(message@),
        }
    }
}

impl ConfigErrorView {
    /// The message of this error.
    pub open spec fn message(self) -> Seq<char> {
        match self {
            ConfigErrorView::FileRead { path, source } =>
                "Failed to read configuration file at "@ + quoted(path) + " during startup: "@
                + source,
            ConfigErrorView::Parse { path, source } => "Failed to parse configuration file at "@
                + quoted(path) + ": "@ + source,
            ConfigErrorView::Validation(message) => "Configuration validation failed: "@ + message,
        }
    }
}

impl ConfigError {
    /// The message of this error.
    pub fn message(&self) -> (message: String)
        ensures
            message@ == self@.message(),
    {
        match self {
            ConfigError::FileRead { path, source } => {
                "Failed to read configuration file at ".to_owned().concat(
                    quote(path.as_str()).as_str(),
                ).concat(" during startup: ").concat(source.as_str())
            }
            ConfigError::Parse { path, source } => {
                "Failed to parse configuration file at ".to_owned().concat(
                    quote(path.as_str()).as_str(),
                ).concat(": ").concat(source.as_str())
            }
            ConfigError::Validation(message) => {
                "Configuration validation failed: ".to_owned().concat(message.as_str())
            }
        }
    }
}

/// What the command line and the environment say.
#[derive(Debug, PartialEq)]
pub struct CliRaw {
    /// Log level (trace, debug, info, warn, error).
    pub log_level: Option<String>,
    /// Log format (text, json).
    pub log_format: Option<String>,
    /// Path to the configuration file.
    pub config: Option<String>,
}

/// What the configuration file says.
#[derive(Debug, PartialEq)]
pub struct ConfigFileRaw {
    pub log_level: Option<String>,
    pub log_format: Option<String>,
    /// The path of the provider binary by provider type.
    pub providers: StrMap<String>,
}

impl Default for ConfigFileRaw {
    fn default() -> (file: ConfigFileRaw)
        ensures
            file.log_level is None,
            file.log_format is None,
            file.providers@.len() == 0,
    {
        ConfigFileRaw { log_level: None, log_format: None, providers: StrMap::new() }
    }
}

/// The configuration of a run.
#[derive(Debug, PartialEq)]
pub struct Config {
    pub log_level: LogLevel,
    pub log_format: LogFormat,
    /// The path of the provider binary by provider type.
    pub providers: StrMap<String>,
}

/// The configuration file that is read: the one that is named, or `config.toml` if it exists.
pub open spec fn file_to_read(named: Option<Seq<char>>, default_exists: bool) -> Option<
    Seq<char>,
> {
    match named {
        Some(path) => Some(path),
        None => if default_exists {
            Some("config.toml"@)
        } else {
            None
        },
    }
}

/// What holds: the command line before the file before the default.
pub open spec fn setting(
    cli: Option<Seq<char>>,
    file: Option<Seq<char>>,
    default: Seq<char>,
) -> Seq<char> {
    match cli {
        Some(text) => text,
        None => match file {
            Some(text) => text,
            None => default,
        },
    }
}

fn choose_setting(cli: Option<String>, file: Option<String>, default: &str) -> (chosen: String)
    ensures
        chosen@ == setting(option_view(cli), option_view(file), default@),
{
    match cli {
        Some(text) => text,
        None => match file {
            Some(text) => text,
            None => default.to_owned(),
        },
    }
}

impl CliRaw {
    /// The configuration file that is to be read: the one that is named, or `config.toml` if it
    /// exists.
    pub fn config_file(&self, default_exists: bool) -> (path: Option<String>)
        ensures
            option_view(path) == file_to_read(option_view(self.config), default_exists),
    {
        match &self.config {
            Some(path) => Some(path.clone()),
            None => if default_exists {
                Some("config.toml".to_owned())
            } else {
                None
            },
        }
    }
}

impl Config {
    /// The configuration of a run: settings of the command line hold before those of the file;
    /// without either, the log level is `info` and the log format `text`.
    pub fn from_cli_and_file(cli: CliRaw, file: ConfigFileRaw) -> (config: Result<
        Config,
        ConfigError,
    >)
        ensures
            ({
                let level = level_named(
                    setting(option_view(cli.log_level), option_view(file.log_level), "info"@),
                );
                let format = format_named(
                    setting(option_view(cli.log_format), option_view(file.log_format), "text"@),
                );
                match config {
                    Ok(config) => {
                        &&& level == Ok::<LogLevel, Seq<char>>(config.log_level)
                        &&& format == Ok::<LogFormat, Seq<char>>(config.log_format)
                        &&& config.providers == file.providers
                    },
                    Err(error) => match (level, format) {
                        (Err(message), _) => error@ == ConfigErrorView::Validation(message),
                        (Ok(_), Err(message)) => error@ == ConfigErrorView::Validation(message),
                        (Ok(_), Ok(_)) => false,
                    },
                }
            }),
    {
        let level = choose_setting(cli.log_level, file.log_level, "info");
        let log_level = match LogLevel::parse(level.as_str()) {
            Ok(log_level) => log_level,
            Err(message) => {
                return Err(ConfigError::Validation(message));
            }
        };
        let format = choose_setting(cli.log_format, file.log_format, "text");
        let log_format = match LogFormat::parse(format.as_str()) {
            Ok(log_format) => log_format,
            Err(message) => {
                return Err(ConfigError::Validation(message));
            }
        };
        Ok(Config { log_level, log_format, providers: file.providers })
    }
}

} // verus!
