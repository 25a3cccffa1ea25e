//! The decisions of `runner loop`: after each selection and each step, keep
//! going or stop, and why.

use vstd::prelude::*;

use crate::select::{SelectOutcome, SelectedLeaf};
use crate::step::{MaxIterationsExceededError, StepError, StuckLeafError};

verus! {

/// Why `run_loop` stopped.
#[derive(Debug, Clone, PartialEq, Eq)]
pub enum LoopStop {
    /// The tree is complete (no open leaves).
    Complete,
    /// The next selected leaf is stuck (attempts exhausted).
    Stuck { id: String, path: String, attempts: u32, max_attempts: u32 },
    /// The run exceeded the configured `max_iterations`.
    MaxIterationsExceeded { next_iter: u32, max_iterations: u32 },
}

/// Summary of a loop invocation.
#[derive(Debug, Clone, PartialEq, Eq)]
pub struct LoopOutcome {
    pub run_id: String,
    pub started_at_iter: u32,
    pub steps_executed: u32,
    pub stop: LoopStop,
}

/// Where a loop stands between steps.
#[derive(Debug, Clone, PartialEq, Eq)]
pub struct LoopState {
    pub run_id: String,
    pub started_at_iter: u32,
    pub steps_executed: u32,
}

/// What the loop learned from its last action.
#[derive(Debug, Clone, PartialEq, Eq)]
pub enum LoopEvent {
    /// The tree was read and a leaf selected (or not).
    Selected(SelectOutcome),
    /// A step completed.
    StepDone,
    /// A step failed.
    StepFailed(StepError),
}

/// What the loop does next.
#[derive(Debug, Clone, PartialEq, Eq)]
pub enum LoopAction {
    /// Run one step.
    RunStep,
    /// Read the tree and select again.
    Select,
    /// Stop with this outcome.
    Finish(LoopOutcome),
    /// Stop with this error.
    Fail(String),
}

/// The stop reason that `stop` reports about a leaf.
pub open spec fn stuck_stop(leaf: SelectedLeaf, stop: LoopStop) -> bool {
    stop matches LoopStop::Stuck { id, path, attempts, max_attempts } && id == leaf.id && path == leaf.path
        && attempts == leaf.attempts && max_attempts == leaf.max_attempts
}

/// A loop that has not run any step yet.
pub fn start_loop(run_id: String, started_at_iter: u32) -> (r: LoopState)
    ensures
        r.run_id == run_id,
        r.started_at_iter == started_at_iter,
        r.steps_executed == 0,
{
    LoopState { run_id, started_at_iter, steps_executed: 0 }
}

/// The next state and action: a complete tree or a stuck leaf stops the
/// loop; an open leaf runs a step; a finished step selects again; a step that
/// hit a stuck leaf or the iteration limit stops the loop; any other failure
/// ends it with that error.
pub fn loop_next(state: LoopState, event: LoopEvent) -> (r: (LoopState, LoopAction))
    requires
        state.steps_executed < u32::MAX,
    ensures
        r.0.run_id == state.run_id,
        r.0.started_at_iter == state.started_at_iter,
        r.0.steps_executed == (if event == LoopEvent::StepDone { state.steps_executed + 1 } else { state.steps_executed as int }),
        match event {
            LoopEvent::Selected(SelectOutcome::Complete) => r.1 == LoopAction::Finish(LoopOutcome {
                run_id: state.run_id,
                started_at_iter: state.started_at_iter,
                steps_executed: state.steps_executed,
                stop: LoopStop::Complete,
            }),
            LoopEvent::Selected(SelectOutcome::Stuck(leaf)) => r.1 matches LoopAction::Finish(o) && o.run_id
                == state.run_id && o.started_at_iter == state.started_at_iter && o.steps_executed
                == state.steps_executed && stuck_stop(leaf, o.stop),
            LoopEvent::Selected(SelectOutcome::Open(_)) => r.1 == LoopAction::RunStep,
            LoopEvent::StepDone => r.1 == LoopAction::Select,
            LoopEvent::StepFailed(StepError::Stuck(e)) => r.1 matches LoopAction::Finish(o) && o.run_id
                == state.run_id && o.started_at_iter == state.started_at_iter && o.steps_executed
                == state.steps_executed && o.stop == LoopStop::Stuck {
                id: e.id,
                path: e.path,
                attempts: e.attempts,
                max_attempts: e.max_attempts,
            },
            LoopEvent::StepFailed(StepError::MaxIterations(e)) => r.1 == LoopAction::Finish(LoopOutcome {
                run_id: state.run_id,
                started_at_iter: state.started_at_iter,
                steps_executed: state.steps_executed,
                stop: LoopStop::MaxIterationsExceeded { next_iter: e.next_iter, max_iterations: e.max_iterations },
            }),
            LoopEvent::StepFailed(StepError::Other(m)) => r.1 == LoopAction::Fail(m),
        },
{
    match event {
        LoopEvent::Selected(SelectOutcome::Complete) => {
            let o = LoopOutcome {
                run_id: state.run_id.clone(),
                started_at_iter: state.started_at_iter,
                steps_executed: state.steps_executed,
                stop: LoopStop::Complete,
            };
            (state, LoopAction::Finish(o))
        },
        LoopEvent::Selected(SelectOutcome::Stuck(leaf)) => {
            let o = LoopOutcome {
                run_id: state.run_id.clone(),
                started_at_iter: state.started_at_iter,
                steps_executed: state.steps_executed,
                stop: LoopStop::Stuck {
                    id: leaf.id,
                    path: leaf.path,
                    attempts: leaf.attempts,
                    max_attempts: leaf.max_attempts,
                },
            };
            (state, LoopAction::Finish(o))
        },
        LoopEvent::Selected(SelectOutcome::Open(_)) => (state, LoopAction::RunStep),
        LoopEvent::StepDone => {
            let next = LoopState {
                run_id: state.run_id,
                started_at_iter: state.started_at_iter,
                steps_executed: state.steps_executed + 1,
            };
            (next, LoopAction::Select)
        },
        LoopEvent::StepFailed(StepError::Stuck(e)) => {
            let o = LoopOutcome {
                run_id: state.run_id.clone(),
                started_at_iter: state.started_at_iter,
                steps_executed: state.steps_executed,
                stop: LoopStop::Stuck { id: e.id, path: e.path, attempts: e.attempts, max_attempts: e.max_attempts },
            };
            (state, LoopAction::Finish(o))
        },
        LoopEvent::StepFailed(StepError::MaxIterations(e)) => {
            let o = LoopOutcome {
                run_id: state.run_id.clone(),
                started_at_iter: state.started_at_iter,
                steps_executed: state.steps_executed,
                stop: LoopStop::MaxIterationsExceeded { next_iter: e.next_iter, max_iterations: e.max_iterations },
            };
            (state, LoopAction::Finish(o))
        },
        LoopEvent::StepFailed(StepError::Other(m)) => (state, LoopAction::Fail(m)),
    }
}

} // verus!
