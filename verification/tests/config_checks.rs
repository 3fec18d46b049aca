use log4rs::config::{Appender, Config, ConfigError, Logger, Root};
use log4rs::{init_config, Append, AppendError, LogLevel, LogLevelFilter, LogRecord};

struct NullAppender;

impl Append for NullAppender {
    fn append(&mut self, _record: &LogRecord) -> Result<(), AppendError> {
        Ok(())
    }
}

#[test]
fn duplicate_appender_names_are_rejected() {
    let appenders = vec![
        Appender::new("a".to_string(), NullAppender),
        Appender::new("a".to_string(), NullAppender),
    ];
    let r = Config::new(appenders, Root::new(LogLevelFilter::Debug), vec![]);
    assert!(matches!(r, Err(ConfigError::DuplicateAppender)));
}

#[test]
fn unknown_appender_reference_is_rejected() {
    let appenders = vec![Appender::new("a".to_string(), NullAppender)];
    let root = Root::with_appenders(LogLevelFilter::Debug, vec!["missing".to_string()]);
    let r = Config::new(appenders, root, vec![]);
    assert!(matches!(r, Err(ConfigError::UnknownAppender)));

    let appenders = vec![Appender::new("a".to_string(), NullAppender)];
    let loggers = vec![Logger::with_appenders(
        "foo".to_string(),
        LogLevelFilter::Info,
        vec!["missing".to_string()],
        true,
    )];
    let r = Config::new(appenders, Root::new(LogLevelFilter::Debug), loggers);
    assert!(matches!(r, Err(ConfigError::UnknownAppender)));
}

#[test]
fn max_severity_covers_every_reachable_node() {
    let appenders: Vec<Appender<NullAppender>> = vec![];
    let root = Root::new(LogLevelFilter::Warn);
    let loggers = vec![
        Logger::new("quiet".to_string(), LogLevelFilter::Off),
        Logger::new("deep::noisy::module".to_string(), LogLevelFilter::Trace),
    ];
    let config = Config::new(appenders, root, loggers).unwrap();
    let (logger, max) = init_config(config);
    assert_eq!(max, LogLevelFilter::Trace);
    assert_eq!(logger.max_log_level(), LogLevelFilter::Trace);

    let appenders: Vec<Appender<NullAppender>> = vec![];
    let config = Config::new(appenders, Root::new(LogLevelFilter::Error), vec![]).unwrap();
    let (_, max) = init_config(config);
    assert_eq!(max, LogLevelFilter::Error);
}

#[test]
fn exact_rule_path_reports_its_own_threshold() {
    let appenders: Vec<Appender<NullAppender>> = vec![];
    let root = Root::new(LogLevelFilter::Warn);
    let loggers = vec![Logger::new("a::b::c".to_string(), LogLevelFilter::Trace)];
    let config = Config::new(appenders, root, loggers).unwrap();
    let (logger, _) = init_config(config);
    assert!(logger.enabled(LogLevel::Trace, "a::b::c"));
    assert!(logger.enabled(LogLevel::Trace, "a::b::c::d"));
    assert!(!logger.enabled(LogLevel::Debug, "a::b"));
    assert!(!logger.enabled(LogLevel::Info, "a"));
    assert!(logger.enabled(LogLevel::Warn, "a"));
}
