use std::io::Write;
use vstd::prelude::*;

pub mod level;
pub mod paths;
pub mod tree;
pub mod config;
pub mod state;
pub mod handle;
pub mod reload;

pub use handle::Logger;
pub use level::{LogLevel, LogLevelFilter};
pub use state::SharedLogger;

verus! {

use crate::state::spec_built;

/// One log event: its severity, the namespace path of its origin, and its
/// message text.
pub struct LogRecord {
    pub level: LogLevel,
    pub path: String,
    pub message: String,
}

/// Why an appender rejected one record.
pub struct AppendError {
    pub message: String,
}

/// An output sink: a capability that records or forwards one log event.
/// Implementations live outside this crate; a failed append is reported and
/// never stops dispatch to the remaining sinks.
pub trait Append: Sized {
    fn append(&mut self, record: &LogRecord) -> Result<(), AppendError>;
}

/// Relies on std::io::Stderr::write_fmt, through the writeln macro: writes
/// one diagnostic line on the standard error stream, which is where failures
/// inside the logging machinery are reported.
#[verifier::external_body]
pub fn handle_error(err: &AppendError) {
    let _ = writeln!(&mut std::io::stderr(), "{}", err.message);
}

/// Builds the logging state described by `config` and returns the shared
/// handle together with the process-wide maximum enabled severity, the
/// pre-filter value to install beside the handle.
pub fn init_config<A: Append>(config: config::Config<A>) -> (r: (Logger<A>, LogLevelFilter))
    requires
        config.wf(),
    ensures
        r.1 == spec_built(config).spec_max(),
{
    let state = SharedLogger::new(config);
    let max = state.root.max_log_level();
    (Logger::from_state(state), max)
}

} // verus!
