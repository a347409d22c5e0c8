//! Configuration of session affinity.
use vstd::prelude::*;

verus! {

pub const DEFAULT_SLACK_REQUESTS: usize = 4;

pub const DEFAULT_MAX_SESSIONS: usize = 65_536;

#[derive(Debug, Clone, Copy, PartialEq, Eq)]
pub enum ConfigError {
    Invalid(&'static str),
}

/// Parameters for the session-affinity worker-selection policy.
///
/// `slack_requests` is the load gate: the remembered worker is kept only while its in-flight
/// request count is at most `slack_requests` above the least-loaded eligible worker. `0` keeps a
/// session on its worker only while that worker is the least loaded; a very large value never
/// migrates.
#[derive(Debug, Clone, Copy, PartialEq, Eq, Structural)]
pub struct SessionAffinityConfig {
    pub slack_requests: usize,
    pub max_sessions: usize,
}

impl Default for SessionAffinityConfig {
    fn default() -> (config: Self)
        ensures
            config.slack_requests == DEFAULT_SLACK_REQUESTS,
            config.max_sessions == DEFAULT_MAX_SESSIONS,
            config.slack_requests == 4,
            config.max_sessions == 65_536,
    {
        SessionAffinityConfig {
            slack_requests: DEFAULT_SLACK_REQUESTS,
            max_sessions: DEFAULT_MAX_SESSIONS,
        }
    }
}

impl SessionAffinityConfig {
    /// Check that sessions can be remembered.
    pub fn validate(&self) -> (checked: Result<(), ConfigError>)
        ensures
            match checked {
                Ok(()) => self.max_sessions > 0,
                Err(ConfigError::Invalid(reason)) => self.max_sessions == 0 && reason@
                    == "max_sessions must be at least 1"@,
            },
    {
        if self.max_sessions == 0 {
            return Err(ConfigError::Invalid("max_sessions must be at least 1"));
        }
        Ok(())
    }

    /// The number of sessions to remember: at least one.
    pub fn max_sessions(&self) -> (count: usize)
        ensures
            count == (if self.max_sessions == 0 {
                1
            } else {
                self.max_sessions
            }),
    {
        if self.max_sessions == 0 {
            1
        } else {
            self.max_sessions
        }
    }
}

} // verus!
