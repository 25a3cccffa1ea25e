//! Runner configuration stored under `.runner/state/config.toml`.

use vstd::prelude::*;

use crate::scan::{trim, trim_str, is_blank};

verus! {

/// Limits and defaults for runner iterations.
#[derive(Debug, Clone, PartialEq, Eq)]
pub struct RunnerConfig {
    /// Highest iteration number a run may reach.
    pub max_iterations: u32,
    /// Default `max_attempts` for nodes the runner creates.
    pub max_attempts_default: u32,
    /// Wall-clock budget of one iteration, in seconds.
    pub iteration_timeout_secs: u64,
    /// Cap on captured executor output, in bytes.
    pub executor_output_limit_bytes: usize,
    /// Cap on captured guard output, in bytes.
    pub guard_output_limit_bytes: usize,
    /// Guard command settings.
    pub guard: GuardConfig,
}

/// The guard command the runner executes.
#[derive(Debug, Clone, PartialEq, Eq)]
pub struct GuardConfig {
    /// Program and arguments.
    pub command: Vec<String>,
}

impl Default for GuardConfig {
    /// `just ci`.
    fn default() -> (r: Self)
        ensures
            r.command@.len() == 2,
            r.command@[0]@ == "just"@,
            r.command@[1]@ == "ci"@,
    {
        let mut command: Vec<String> = Vec::new();
        command.push(String::from_str("just"));
        command.push(String::from_str("ci"));
        GuardConfig { command }
    }
}

impl Default for RunnerConfig {
    /// The documented defaults.
    fn default() -> (r: Self)
        ensures
            r.max_iterations == 100,
            r.max_attempts_default == 3,
            r.iteration_timeout_secs == 1800,
            r.executor_output_limit_bytes == 100_000,
            r.guard_output_limit_bytes == 100_000,
            r.guard.command@.len() == 2,
            r.guard.command@[0]@ == "just"@,
            r.guard.command@[1]@ == "ci"@,
    {
        RunnerConfig {
            max_iterations: 100,
            max_attempts_default: 3,
            iteration_timeout_secs: 30 * 60,
            executor_output_limit_bytes: 100_000,
            guard_output_limit_bytes: 100_000,
            guard: GuardConfig::default(),
        }
    }
}

/// The first problem with `cfg`, in the order they are checked, if any.
pub open spec fn config_error(cfg: RunnerConfig) -> Option<Seq<char>> {
    if cfg.iteration_timeout_secs == 0 {
        Some("iteration_timeout_secs must be > 0"@)
    } else if cfg.executor_output_limit_bytes == 0 {
        Some("executor_output_limit_bytes must be > 0"@)
    } else if cfg.guard_output_limit_bytes == 0 {
        Some("guard_output_limit_bytes must be > 0"@)
    } else if cfg.guard.command@.len() == 0 || trim(cfg.guard.command@[0]@).len() == 0 {
        Some("guard.command must be a non-empty array"@)
    } else {
        None
    }
}

impl RunnerConfig {
    /// Checks the limits are positive and the guard command names a program.
    pub fn validate(&self) -> (r: Result<(), String>)
        ensures
            r is Ok <==> config_error(*self) is None,
            r matches Err(e) ==> Some(e@) == config_error(*self),
    {
        if self.iteration_timeout_secs == 0 {
            return Err(String::from_str("iteration_timeout_secs must be > 0"));
        }
        if self.executor_output_limit_bytes == 0 {
            return Err(String::from_str("executor_output_limit_bytes must be > 0"));
        }
        if self.guard_output_limit_bytes == 0 {
            return Err(String::from_str("guard_output_limit_bytes must be > 0"));
        }
        if self.guard.command.len() == 0 || is_blank(self.guard.command[0].as_str()) {
            return Err(String::from_str("guard.command must be a non-empty array"));
        }
        Ok(())
    }
}

} // verus!
