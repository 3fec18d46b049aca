use log4rs::config::{Appender, Config, Root};
use log4rs::reload::ReloadPolicy;
use log4rs::{Append, AppendError, LogLevel, LogLevelFilter, LogRecord, Logger, SharedLogger};

struct NullAppender;

impl Append for NullAppender {
    fn append(&mut self, _record: &LogRecord) -> Result<(), AppendError> {
        Ok(())
    }
}

fn config_with_root(level: LogLevelFilter) -> Config<NullAppender> {
    let appenders: Vec<Appender<NullAppender>> = vec![];
    Config::new(appenders, Root::new(level), vec![]).unwrap()
}

#[test]
fn unchanged_signature_never_starts_an_attempt() {
    let mut policy = ReloadPolicy::new(10);
    assert!(!policy.observe(Some(10)));
    assert!(!policy.observe(Some(10)));
    assert!(!policy.observe(None));
    assert_eq!(policy.last_signature, 10);
}

#[test]
fn failed_attempt_is_not_retried_until_the_source_changes_again() {
    let mut policy = ReloadPolicy::new(10);
    assert!(policy.observe(Some(11)));
    assert!(!policy.observe(Some(11)));
    assert!(!policy.observe(Some(11)));
    assert!(!policy.observe(None));
    assert!(policy.observe(Some(12)));
    assert_eq!(policy.last_signature, 12);
}

#[test]
fn read_failure_leaves_the_stored_signature_unchanged() {
    let mut policy = ReloadPolicy::new(7);
    assert!(!policy.observe(None));
    assert_eq!(policy.last_signature, 7);
    assert!(policy.observe(Some(8)));
    assert_eq!(policy.last_signature, 8);
}

#[test]
fn replace_swaps_the_whole_state() {
    let logger = Logger::new(config_with_root(LogLevelFilter::Off));
    assert!(!logger.enabled(LogLevel::Error, "any::path"));
    logger.replace(SharedLogger::new(config_with_root(LogLevelFilter::Debug)));
    assert!(logger.enabled(LogLevel::Error, "any::path"));
    assert!(logger.enabled(LogLevel::Debug, "any::path"));
    assert!(!logger.enabled(LogLevel::Trace, "any::path"));
}
