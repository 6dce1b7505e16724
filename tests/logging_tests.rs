use biolens::logging::{apply_overrides, build_config_from_args, LogConfig, LogLevel};
use tracing::Level;

fn tracing_level(l: LogLevel) -> Level {
    match l {
        LogLevel::Info => Level::INFO,
        LogLevel::Debug => Level::DEBUG,
        LogLevel::Trace => Level::TRACE,
    }
}

#[test]
fn test_build_config_from_args() {
    let config = build_config_from_args(2, true, true);
    assert_eq!(config.verbosity, 2);
    assert!(config.log_to_file);
    assert!(config.json_format);
    assert_eq!(config.max_log_files, Some(5));
}

#[test]
fn test_config_default() {
    let config = LogConfig::default();
    assert_eq!(config.verbosity, 0);
    assert!(!config.log_to_file);
    assert!(!config.json_format);
    assert_eq!(config.max_log_files, Some(5));
}

#[test]
fn test_get_log_directory() {
    let config = LogConfig::default();
    let default_dir = config.get_log_directory();

    let config = LogConfig { log_directory: Some("/custom/path".to_string()), ..Default::default() };
    let custom_dir = config.get_log_directory();

    assert_ne!(default_dir, custom_dir);
    assert_eq!(custom_dir, "/custom/path");
}

#[test]
fn test_get_log_level() {
    let config = LogConfig { verbosity: 0, ..Default::default() };
    assert_eq!(tracing_level(config.get_log_level()), Level::INFO);

    let config = LogConfig { verbosity: 1, ..Default::default() };
    assert_eq!(tracing_level(config.get_log_level()), Level::DEBUG);

    let config = LogConfig { verbosity: 2, ..Default::default() };
    assert_eq!(tracing_level(config.get_log_level()), Level::TRACE);

    let config = LogConfig { verbosity: 3, ..Default::default() };
    assert_eq!(tracing_level(config.get_log_level()), Level::TRACE);
}

#[test]
fn log_directory_joins_logs_under_data_dir() {
    let config = LogConfig::default();
    assert_eq!(config.log_directory_from(Some("/home/u/.local/share/biolens".to_string())), "/home/u/.local/share/biolens/logs");
    assert_eq!(config.log_directory_from(Some("/data/".to_string())), "/data/logs");
    assert_eq!(config.log_directory_from(None), "./logs");
}

#[test]
fn overrides_replace_only_given_switches() {
    let base = LogConfig { log_directory: Some("d".to_string()), ..Default::default() };
    let c = apply_overrides(base.clone(), Some(3), None, Some(true));
    assert_eq!(c.verbosity, 3);
    assert!(!c.log_to_file);
    assert!(c.json_format);
    assert_eq!(c.log_directory, Some("d".to_string()));
    let c = apply_overrides(base, None, Some(true), None);
    assert_eq!(c.verbosity, 0);
    assert!(c.log_to_file);
    assert!(!c.json_format);
}
