//! Run and iteration bookkeeping kept in `.runner/state/run_state.json`.

use vstd::prelude::*;

use crate::logic::types::{AgentStatus, GuardOutcome};

verus! {

/// Bookkeeping for the current run.
#[derive(Debug, Clone, PartialEq, Eq)]
pub struct RunState {
    /// Identifier of the current run, once started.
    pub run_id: Option<String>,
    /// The next iteration number to run (1-indexed).
    pub next_iter: u32,
    /// Status declared in the previous iteration.
    pub last_status: Option<AgentStatus>,
    /// Summary reported in the previous iteration.
    pub last_summary: Option<String>,
    /// Guard outcome of the previous iteration.
    pub last_guard: Option<GuardOutcome>,
}

impl Default for RunState {
    /// No run started; the first iteration is 1.
    fn default() -> (r: Self)
        ensures
            r.run_id is None,
            r.next_iter == 1,
            r.last_status is None,
            r.last_summary is None,
            r.last_guard is None,
    {
        RunState { run_id: None, next_iter: 1, last_status: None, last_summary: None, last_guard: None }
    }
}

} // verus!
