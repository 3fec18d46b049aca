use log4rs::config;
use log4rs::{Append, AppendError, LogLevel, LogLevelFilter, LogRecord, Logger};

struct NullAppender;

impl Append for NullAppender {
    fn append(&mut self, _record: &LogRecord) -> Result<(), AppendError> {
        Ok(())
    }
}

#[test]
fn enabled() {
    let appenders: Vec<config::Appender<NullAppender>> = vec![];
    let root = config::Root::new(LogLevelFilter::Debug);
    let loggers = vec![
        config::Logger::new("foo::bar".to_string(), LogLevelFilter::Trace),
        config::Logger::new("foo::bar::baz".to_string(), LogLevelFilter::Off),
        config::Logger::new("foo::baz::buz".to_string(), LogLevelFilter::Error),
    ];
    let config = config::Config::new(appenders, root, loggers).unwrap();

    let logger = Logger::new(config);

    assert!(logger.enabled(LogLevel::Warn, "bar"));
    assert!(!logger.enabled(LogLevel::Trace, "bar"));
    assert!(logger.enabled(LogLevel::Debug, "foo"));
    assert!(logger.enabled(LogLevel::Trace, "foo::bar"));
    assert!(!logger.enabled(LogLevel::Error, "foo::bar::baz"));
    assert!(logger.enabled(LogLevel::Debug, "foo::bar::bazbuz"));
    assert!(!logger.enabled(LogLevel::Error, "foo::bar::baz::buz"));
    assert!(!logger.enabled(LogLevel::Warn, "foo::baz::buz"));
    assert!(!logger.enabled(LogLevel::Warn, "foo::baz::buz::bar"));
    assert!(logger.enabled(LogLevel::Error, "foo::baz::buz::bar"));
}
