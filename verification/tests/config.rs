use nix_hapi::config::{CliRaw, Config, ConfigError, ConfigFileRaw};
use nix_hapi::logging::{LogFormat, LogLevel};
use nix_hapi::strmap::StrMap;

fn cli(level: Option<&str>, format: Option<&str>, config: Option<&str>) -> CliRaw {
    CliRaw {
        log_level: level.map(str::to_string),
        log_format: format.map(str::to_string),
        config: config.map(str::to_string),
    }
}

fn file(level: Option<&str>, format: Option<&str>) -> ConfigFileRaw {
    ConfigFileRaw {
        log_level: level.map(str::to_string),
        log_format: format.map(str::to_string),
        providers: StrMap::new().put("fake".to_string(), "/bin/fake".to_string()),
    }
}

#[test]
fn settings_have_defaults() {
    let config = Config::from_cli_and_file(cli(None, None, None), ConfigFileRaw::default()).unwrap();
    assert_eq!(config.log_level, LogLevel::Info);
    assert_eq!(config.log_format, LogFormat::Text);
    assert_eq!(config.providers.len(), 0);
}

#[test]
fn the_command_line_holds_before_the_file() {
    let config =
        Config::from_cli_and_file(cli(Some("debug"), None, None), file(Some("warn"), Some("json")))
            .unwrap();
    assert_eq!(config.log_level, LogLevel::Debug);
    assert_eq!(config.log_format, LogFormat::Json);
    assert_eq!(config.providers.get("fake"), Some(&"/bin/fake".to_string()));
}

#[test]
fn unknown_settings_are_refused() {
    let level = Config::from_cli_and_file(cli(Some("loud"), None, None), file(None, None));
    assert_eq!(
        level.unwrap_err().message(),
        r#"Configuration validation failed: unknown log level "loud""#
    );
    let format = Config::from_cli_and_file(cli(None, None, None), file(None, Some("xml")));
    assert_eq!(
        format.unwrap_err(),
        ConfigError::Validation(r#"unknown log format "xml""#.to_string())
    );
    let both = Config::from_cli_and_file(cli(Some("loud"), Some("xml"), None), file(None, None));
    assert_eq!(
        both.unwrap_err(),
        ConfigError::Validation(r#"unknown log level "loud""#.to_string())
    );
}

#[test]
fn levels_and_formats_have_names() {
    for (name, level) in [
        ("trace", LogLevel::Trace),
        ("debug", LogLevel::Debug),
        ("info", LogLevel::Info),
        ("warn", LogLevel::Warn),
        ("error", LogLevel::Error),
    ] {
        assert_eq!(LogLevel::parse(name), Ok(level));
    }
    assert_eq!(LogFormat::parse("text"), Ok(LogFormat::Text));
    assert_eq!(LogFormat::parse("json"), Ok(LogFormat::Json));
    assert!(LogFormat::parse("").is_err());
}

#[test]
fn the_configuration_file_is_chosen() {
    assert_eq!(cli(None, None, Some("x.toml")).config_file(true), Some("x.toml".to_string()));
    assert_eq!(cli(None, None, Some("x.toml")).config_file(false), Some("x.toml".to_string()));
    assert_eq!(cli(None, None, None).config_file(true), Some("config.toml".to_string()));
    assert_eq!(cli(None, None, None).config_file(false), None);
}

#[test]
fn configuration_errors_have_messages() {
    let path = || "c.toml".to_string();
    assert_eq!(
        ConfigError::FileRead { path: path(), source: "s".to_string() }.message(),
        r#"Failed to read configuration file at "c.toml" during startup: s"#
    );
    assert_eq!(
        ConfigError::Parse { path: path(), source: "s".to_string() }.message(),
        r#"Failed to parse configuration file at "c.toml": s"#
    );
}
