//! Shared deterministic types for the runner logic.

use vstd::prelude::*;

use crate::tree::NodeNext;

verus! {

/// Agent-declared status for the selected node.
#[derive(Debug, Clone, Copy, PartialEq, Eq, Structural)]
pub enum AgentStatus {
    Done,
    Retry,
    Decomposed,
}

/// Result of running guards after an iteration.
#[derive(Debug, Clone, Copy, PartialEq, Eq, Structural)]
pub enum GuardOutcome {
    /// Guards completed successfully.
    Pass,
    /// Guards ran and failed.
    Fail,
    /// Guards were not run (the agent did not declare `done`, or the runner
    /// errored before guards could complete).
    Skipped,
}

/// Whether an iteration decomposes the selected node or executes it.
#[derive(Debug, Clone, Copy, PartialEq, Eq, Structural)]
pub enum Mode {
    Decompose,
    Execute,
}

/// The tree agent's decision for the selected node.
#[derive(Debug, Clone, Copy, PartialEq, Eq, Structural)]
pub enum TreeDecisionKind {
    Decompose,
    Execute,
}

/// Minimal child specification produced by the decomposer agent.
///
/// The runner fills in the mechanical fields deterministically:
/// `id`, `order`, `passes`, `attempts`, `max_attempts`, `children`.
#[derive(Debug, Clone, PartialEq, Eq)]
pub struct TreeChildSpec {
    pub title: String,
    pub goal: String,
    pub acceptance: Vec<String>,
    pub next: NodeNext,
}

/// Structured output produced by the decomposer agent.
#[derive(Debug, Clone, PartialEq, Eq)]
pub struct DecompositionOutput {
    pub summary: String,
    pub children: Vec<TreeChildSpec>,
}

/// Structured output of the tree agent.
#[derive(Debug, Clone, PartialEq, Eq)]
pub struct TreeDecision {
    pub decision: TreeDecisionKind,
    pub summary: String,
    pub children: Vec<TreeChildSpec>,
}

/// Structured output produced by an agent session.
#[derive(Debug, Clone, PartialEq, Eq)]
pub struct AgentOutput {
    pub status: AgentStatus,
    pub summary: String,
}

/// Summary of runner-owned state updates applied after a step.
///
/// Lists are in lexicographic node id order to keep serialized outputs stable.
#[derive(Debug, Clone, PartialEq, Eq)]
pub struct StateUpdateSummary {
    /// Agent-declared status that drove the update rules for this step.
    pub status: AgentStatus,
    /// Guard outcome associated with this step.
    pub guard_outcome: GuardOutcome,
    /// Node ids that were marked `passes=true` by the runner.
    pub passes_set: Vec<String>,
    /// Node ids whose attempt counters were incremented by the runner.
    pub attempts_incremented: Vec<String>,
    /// Node ids whose `passes` were derived from child completion.
    pub derived_passes_set: Vec<String>,
}

/// The lowercase label of a status, as it appears in files and messages.
pub open spec fn status_label(s: AgentStatus) -> Seq<char> {
    match s {
        AgentStatus::Done => "done"@,
        AgentStatus::Retry => "retry"@,
        AgentStatus::Decomposed => "decomposed"@,
    }
}

/// The lowercase label of a guard outcome.
pub open spec fn guard_label(g: GuardOutcome) -> Seq<char> {
    match g {
        GuardOutcome::Pass => "pass"@,
        GuardOutcome::Fail => "fail"@,
        GuardOutcome::Skipped => "skipped"@,
    }
}

impl AgentStatus {
    /// The lowercase label of this status (`done`, `retry`, `decomposed`).
    pub fn label(&self) -> (r: &'static str)
        ensures
            r@ == status_label(*self),
    {
        match self {
            AgentStatus::Done => "done",
            AgentStatus::Retry => "retry",
            AgentStatus::Decomposed => "decomposed",
        }
    }
}

impl GuardOutcome {
    /// The lowercase label of this outcome (`pass`, `fail`, `skipped`).
    pub fn label(&self) -> (r: &'static str)
        ensures
            r@ == guard_label(*self),
    {
        match self {
            GuardOutcome::Pass => "pass",
            GuardOutcome::Fail => "fail",
            GuardOutcome::Skipped => "skipped",
        }
    }
}

} // verus!
