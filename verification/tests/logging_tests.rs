use chimera::logging::{LogFormat, LogLevel, LoggingConfig};

#[test]
fn test_log_level_from_str() {
    assert_eq!("info".parse::<LogLevel>().unwrap(), LogLevel::Info);
    assert_eq!("debug".parse::<LogLevel>().unwrap(), LogLevel::Debug);
    assert_eq!("warn".parse::<LogLevel>().unwrap(), LogLevel::Warn);
    assert_eq!("error".parse::<LogLevel>().unwrap(), LogLevel::Error);
    assert_eq!("trace".parse::<LogLevel>().unwrap(), LogLevel::Trace);
}

#[test]
fn test_log_format_from_str() {
    assert_eq!("compact".parse::<LogFormat>().unwrap(), LogFormat::Compact);
    assert_eq!("full".parse::<LogFormat>().unwrap(), LogFormat::Full);
    assert_eq!("json".parse::<LogFormat>().unwrap(), LogFormat::Json);
    assert_eq!("pretty".parse::<LogFormat>().unwrap(), LogFormat::Pretty);
}

#[test]
fn test_logging_config_builder() {
    let config = LoggingConfig::new()
        .level(LogLevel::Debug)
        .format(LogFormat::Json)
        .show_timestamp(false)
        .show_target(true);

    assert_eq!(config.level, LogLevel::Debug);
    assert_eq!(config.format, LogFormat::Json);
    assert!(!config.show_timestamp);
    assert!(config.show_target);
}

#[test]
fn level_names_ignore_case_and_accept_warning() {
    assert_eq!(LogLevel::parse("INFO").unwrap(), LogLevel::Info);
    assert_eq!(LogLevel::parse("Warning").unwrap(), LogLevel::Warn);
    assert_eq!(LogFormat::parse("JSON").unwrap(), LogFormat::Json);
}

#[test]
fn unknown_names_are_refused_with_the_name_given() {
    assert_eq!(LogLevel::parse("Loud").unwrap_err(), "Invalid log level: Loud");
    assert_eq!(LogFormat::parse("xml").unwrap_err(), "Invalid log format: xml");
}

#[test]
fn names_read_back() {
    for l in [LogLevel::Trace, LogLevel::Debug, LogLevel::Info, LogLevel::Warn, LogLevel::Error] {
        assert_eq!(LogLevel::parse(l.as_str()).unwrap(), l);
    }
    for f in [LogFormat::Compact, LogFormat::Full, LogFormat::Json, LogFormat::Pretty] {
        assert_eq!(LogFormat::parse(f.as_str()).unwrap(), f);
    }
    assert_eq!(LogLevel::Warn.as_str(), "warn");
}

#[test]
fn default_settings() {
    let c = LoggingConfig::default();
    assert_eq!(c.level, LogLevel::Info);
    assert_eq!(c.format, LogFormat::Compact);
    assert!(c.show_timestamp);
    assert!(!c.show_target);
    assert!(!c.show_thread_ids);
    assert!(!c.show_thread_names);
    assert!(c.filter.is_none());
    let f = LoggingConfig::new().filter("app=debug".to_string());
    assert_eq!(f.filter.as_deref(), Some("app=debug"));
}

#[test]
fn settings_from_variable_values() {
    let c = LoggingConfig::from_env_values(
        Some("app=trace".to_string()),
        Some("ERROR".to_string()),
        Some("bogus".to_string()),
    );
    assert_eq!(c.filter.as_deref(), Some("app=trace"));
    assert_eq!(c.level, LogLevel::Error);
    assert_eq!(c.format, LogFormat::Compact);
    let d = LoggingConfig::from_env_values(None, None, Some("pretty".to_string()));
    assert!(d.filter.is_none());
    assert_eq!(d.level, LogLevel::Info);
    assert_eq!(d.format, LogFormat::Pretty);
}
