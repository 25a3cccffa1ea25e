//! A case's overrides applied to the runner configuration.

use vstd::prelude::*;

use crate::eval::case::CaseConfig;
use crate::io::config::{config_error, RunnerConfig};

verus! {

/// `base` with the case's overrides applied.
pub open spec fn merged_config(base: RunnerConfig, o: CaseConfig) -> RunnerConfig {
    RunnerConfig {
        max_iterations: match o.max_iterations { Some(m) => m, None => base.max_iterations },
        max_attempts_default: match o.max_attempts_default { Some(m) => m, None => base.max_attempts_default },
        guard: match o.guard { Some(g) => crate::io::config::GuardConfig { command: g.command }, None => base.guard },
        ..base
    }
}

/// `a` and `b` hold the same settings.
pub open spec fn same_config(a: RunnerConfig, b: RunnerConfig) -> bool {
    &&& a.max_iterations == b.max_iterations
    &&& a.max_attempts_default == b.max_attempts_default
    &&& a.iteration_timeout_secs == b.iteration_timeout_secs
    &&& a.executor_output_limit_bytes == b.executor_output_limit_bytes
    &&& a.guard_output_limit_bytes == b.guard_output_limit_bytes
    &&& a.guard.command@ == b.guard.command@
}

/// Applies the case's overrides to `base` and validates the result.
pub fn apply_case_config(base: RunnerConfig, overrides: &CaseConfig) -> (r: Result<RunnerConfig, String>)
    ensures
        r is Ok <==> config_error(merged_config(base, *overrides)) is None,
        r matches Ok(c) ==> same_config(c, merged_config(base, *overrides)),
        r matches Err(e) ==> Some(e@) == config_error(merged_config(base, *overrides)),
{
    let ghost old_base = base;
    let mut base = base;
    match overrides.max_iterations {
        Some(m) => {
            base.max_iterations = m;
        },
        None => {},
    }
    match overrides.max_attempts_default {
        Some(m) => {
            base.max_attempts_default = m;
        },
        None => {},
    }
    match &overrides.guard {
        Some(g) => {
            base.guard.command = g.command.clone();
        },
        None => {},
    }
    proof {
        assert(same_config(base, merged_config(old_base, *overrides)));
        assert(config_error(base) == config_error(merged_config(old_base, *overrides)));
    }
    base.validate()?;
    Ok(base)
}

} // verus!
