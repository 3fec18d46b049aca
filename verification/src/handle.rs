use vstd::prelude::*;
use vstd::rwlock::{RwLock, RwLockPredicate};
use vstd::string::StringSliceAdditionalSpecFns;
use crate::config::Config;
use crate::level::{LogLevel, LogLevelFilter};
use crate::state::{spec_enabled, SharedLogger, SharedModel};
use crate::{Append, LogRecord};

verus! {

/// The lock's invariant: every state the handle ever holds, and so every
/// state a reader can observe, is well formed.
#[verifier::ext_equal]
pub ghost struct StatePred {}

impl<A: Append> RwLockPredicate<SharedLogger<A>> for StatePred {
    open spec fn inv(self, v: SharedLogger<A>) -> bool {
        v.wf()
    }
}

/// The concurrency-safe handle around the active logging state.  Readers
/// resolve and dispatch against one whole state observed under the lock; a
/// reload swaps the state wholesale under the write lock, the sole mutation
/// boundary.  Each call answers for the single state current at that call:
/// a concurrent reload may change the state between two calls, never within
/// one.
pub struct Logger<A: Append> {
    inner: RwLock<SharedLogger<A>, StatePred>,
}

impl<A: Append> Logger<A> {
    /// Builds the logging state for `config` and wraps it.
    pub fn new(config: Config<A>) -> Logger<A>
        requires
            config.wf(),
    {
        Logger::from_state(SharedLogger::new(config))
    }

    /// Wraps an already-built state.
    pub fn from_state(state: SharedLogger<A>) -> Logger<A>
        requires
            state.wf(),
    {
        Logger { inner: RwLock::new(state, Ghost(StatePred {  })) }
    }

    /// Whether an event at `level` from `path` is enabled in the state
    /// current at this call.
    pub fn enabled(&self, level: LogLevel, path: &str) -> (r: bool)
        ensures
            exists|m: SharedModel| r == spec_enabled(m, level, path.spec_bytes()),
    {
        let handle = self.inner.acquire_read();
        let state = handle.borrow();
        let r = state.enabled(level, path);
        proof {
            assert(r == spec_enabled(state@, level, path.spec_bytes()));
        }
        handle.release_read();
        r
    }

    /// The most verbose threshold anywhere in the state current at this
    /// call: the process-wide pre-filter value.
    pub fn max_log_level(&self) -> (r: LogLevelFilter)
        ensures
            exists|m: SharedModel| r == m.tree.spec_max(),
    {
        let handle = self.inner.acquire_read();
        let state = handle.borrow();
        let r = state.root.max_log_level();
        proof {
            assert(r == state@.tree.spec_max());
        }
        handle.release_read();
        r
    }

    /// Dispatches one record against the state current at this call.
    pub fn log(&self, record: &LogRecord) {
        let (mut state, write_handle) = self.inner.acquire_write();
        proof {
            assert(self.inner.pred() =~= (StatePred {  }));
        }
        state.log(record);
        write_handle.release_write(state);
    }

    /// Installs a freshly built state: the single mutation boundary.  The
    /// old state is discarded whole; no reader can observe a mix.
    pub fn replace(&self, state: SharedLogger<A>)
        requires
            state.wf(),
    {
        proof {
            assert(self.inner.pred() =~= (StatePred {  }));
        }
        let (discarded, write_handle) = self.inner.acquire_write();
        write_handle.release_write(state);
    }
}

} // verus!
