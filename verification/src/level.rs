use vstd::prelude::*;

verus! {

/// Severity of a single log event, from most severe (`Error`) to most verbose
/// (`Trace`).
#[derive(Clone, Copy, Debug, PartialEq, Eq, Structural)]
pub enum LogLevel {
    Error,
    Warn,
    Info,
    Debug,
    Trace,
}

/// Severity threshold of a logger: `Off` admits nothing, `Trace` admits
/// everything.  Thresholds are totally ordered, `Off` lowest.
#[derive(Clone, Copy, Debug, PartialEq, Eq, Structural)]
pub enum LogLevelFilter {
    Off,
    Error,
    Warn,
    Info,
    Debug,
    Trace,
}

impl LogLevel {
    /// Rank in the shared severity order (`Error` = 1 ... `Trace` = 5).
    pub open spec fn as_int(self) -> int {
        match self {
            LogLevel::Error => 1,
            LogLevel::Warn => 2,
            LogLevel::Info => 3,
            LogLevel::Debug => 4,
            LogLevel::Trace => 5,
        }
    }

    pub fn rank(self) -> (r: usize)
        ensures
            r == self.as_int(),
    {
        match self {
            LogLevel::Error => 1,
            LogLevel::Warn => 2,
            LogLevel::Info => 3,
            LogLevel::Debug => 4,
            LogLevel::Trace => 5,
        }
    }
}

impl LogLevelFilter {
    /// Rank in the shared severity order (`Off` = 0 ... `Trace` = 5).
    pub open spec fn as_int(self) -> int {
        match self {
            LogLevelFilter::Off => 0,
            LogLevelFilter::Error => 1,
            LogLevelFilter::Warn => 2,
            LogLevelFilter::Info => 3,
            LogLevelFilter::Debug => 4,
            LogLevelFilter::Trace => 5,
        }
    }

    pub fn rank(self) -> (r: usize)
        ensures
            r == self.as_int(),
    {
        match self {
            LogLevelFilter::Off => 0,
            LogLevelFilter::Error => 1,
            LogLevelFilter::Warn => 2,
            LogLevelFilter::Info => 3,
            LogLevelFilter::Debug => 4,
            LogLevelFilter::Trace => 5,
        }
    }

    /// Whether an event at `level` passes this threshold: the threshold must be
    /// at least as verbose as the event's severity.
    pub open spec fn spec_admits(self, level: LogLevel) -> bool {
        self.as_int() >= level.as_int()
    }

    pub fn admits(self, level: LogLevel) -> (r: bool)
        ensures
            r == self.spec_admits(level),
    {
        self.rank() >= level.rank()
    }

    /// The more verbose of two thresholds.
    pub open spec fn spec_max(self, other: LogLevelFilter) -> LogLevelFilter {
        if self.as_int() >= other.as_int() {
            self
        } else {
            other
        }
    }

    pub fn max_with(self, other: LogLevelFilter) -> (r: LogLevelFilter)
        ensures
            r == self.spec_max(other),
    {
        if self.rank() >= other.rank() {
            self
        } else {
            other
        }
    }
}

} // verus!
