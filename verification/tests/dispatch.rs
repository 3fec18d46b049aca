use log4rs::config::{Appender, Config, Logger, Root};
use log4rs::{Append, AppendError, LogLevel, LogLevelFilter, LogRecord, SharedLogger};

enum TestAppender {
    Failing,
    Recording(Vec<String>),
}

impl Append for TestAppender {
    fn append(&mut self, record: &LogRecord) -> Result<(), AppendError> {
        match self {
            TestAppender::Failing => Err(AppendError { message: "sink failed".to_string() }),
            TestAppender::Recording(seen) => {
                seen.push(record.message.clone());
                Ok(())
            }
        }
    }
}

fn record(level: LogLevel, path: &str, message: &str) -> LogRecord {
    LogRecord { level, path: path.to_string(), message: message.to_string() }
}

fn two_sink_config() -> Config<TestAppender> {
    let appenders = vec![
        Appender::new("a".to_string(), TestAppender::Recording(vec![])),
        Appender::new("b".to_string(), TestAppender::Recording(vec![])),
    ];
    let root = Root::with_appenders(LogLevelFilter::Debug, vec!["a".to_string()]);
    let loggers = vec![
        Logger::with_appenders(
            "foo".to_string(),
            LogLevelFilter::Debug,
            vec!["b".to_string()],
            true,
        ),
        Logger::with_appenders(
            "iso".to_string(),
            LogLevelFilter::Debug,
            vec!["b".to_string()],
            false,
        ),
    ];
    Config::new(appenders, root, loggers).unwrap()
}

#[test]
fn additive_rule_inherits_ancestor_sinks_after_its_own() {
    let shared = SharedLogger::new(two_sink_config());
    assert_eq!(shared.dispatch_targets(LogLevel::Info, "foo"), vec![1, 0]);
    assert_eq!(shared.dispatch_targets(LogLevel::Info, "foo::deep::path"), vec![1, 0]);
}

#[test]
fn non_additive_rule_is_isolated_from_ancestor_sinks() {
    let shared = SharedLogger::new(two_sink_config());
    assert_eq!(shared.dispatch_targets(LogLevel::Info, "iso"), vec![1]);
}

#[test]
fn root_sinks_receive_unmatched_paths() {
    let shared = SharedLogger::new(two_sink_config());
    assert_eq!(shared.dispatch_targets(LogLevel::Info, "other"), vec![0]);
    assert_eq!(shared.dispatch_targets(LogLevel::Info, ""), vec![0]);
}

#[test]
fn disabled_event_reaches_no_sink() {
    let shared = SharedLogger::new(two_sink_config());
    assert_eq!(shared.dispatch_targets(LogLevel::Trace, "foo"), Vec::<usize>::new());
}

#[test]
fn dispatch_is_deterministic_against_unchanged_state() {
    let mut shared = SharedLogger::new(two_sink_config());
    let first = shared.dispatch_targets(LogLevel::Info, "foo");
    let second = shared.dispatch_targets(LogLevel::Info, "foo");
    assert_eq!(first, second);
    shared.log(&record(LogLevel::Info, "foo", "one"));
    shared.log(&record(LogLevel::Info, "foo", "one"));
    for sink in &shared.appenders {
        match sink {
            TestAppender::Recording(seen) => assert_eq!(seen, &vec!["one".to_string(); 2]),
            TestAppender::Failing => panic!("unexpected sink"),
        }
    }
}

#[test]
fn failed_append_does_not_stop_dispatch_to_remaining_sinks() {
    let appenders = vec![
        Appender::new("bad".to_string(), TestAppender::Failing),
        Appender::new("good".to_string(), TestAppender::Recording(vec![])),
    ];
    let root = Root::with_appenders(
        LogLevelFilter::Debug,
        vec!["bad".to_string(), "good".to_string()],
    );
    let config = Config::new(appenders, root, vec![]).unwrap();
    let mut shared = SharedLogger::new(config);
    shared.log(&record(LogLevel::Info, "anything", "survives"));
    match &shared.appenders[1] {
        TestAppender::Recording(seen) => assert_eq!(seen, &vec!["survives".to_string()]),
        TestAppender::Failing => panic!("unexpected sink"),
    }
}

#[test]
fn rule_with_trailing_separator_configures_its_own_path() {
    let appenders: Vec<Appender<TestAppender>> = vec![];
    let root = Root::new(LogLevelFilter::Debug);
    let loggers = vec![Logger::new("foo::".to_string(), LogLevelFilter::Trace)];
    let shared = SharedLogger::new(Config::new(appenders, root, loggers).unwrap());
    assert!(shared.enabled(LogLevel::Trace, "foo"));
    assert!(!shared.enabled(LogLevel::Trace, "bar"));
}
