//! The outcome of a case: from the runner's exit code and the checks.

use vstd::prelude::*;

use crate::eval::judge::{CheckOutcome, Judgment};

verus! {

/// How a case ended.
#[derive(Debug, Clone, Copy, PartialEq, Eq, Structural)]
pub enum Outcome {
    Success,
    Fail,
    Stuck,
    Error,
}

/// Whether a check passed.
pub open spec fn passed_spec(c: CheckOutcome) -> bool {
    match c {
        CheckOutcome::FileExists { passed, .. } => passed,
        CheckOutcome::CommandSucceeds { passed, .. } => passed,
        CheckOutcome::RunnerCompleted { passed, .. } => passed,
    }
}

/// Whether a check passed.
pub fn check_passed(check: &CheckOutcome) -> (r: bool)
    ensures
        r == passed_spec(*check),
{
    match check {
        CheckOutcome::FileExists { passed, .. } => *passed,
        CheckOutcome::CommandSucceeds { passed, .. } => *passed,
        CheckOutcome::RunnerCompleted { passed, .. } => *passed,
    }
}

/// The outcome for a runner exit code: 0 succeeds when every check passed
/// and fails otherwise; 3 is stuck; anything else, or no code, is an error.
pub open spec fn outcome_spec(code: Option<i32>, checks: Seq<CheckOutcome>) -> Outcome {
    match code {
        Some(0i32) => if forall|i: int| 0 <= i < checks.len() ==> passed_spec(#[trigger] checks[i]) {
            Outcome::Success
        } else {
            Outcome::Fail
        },
        Some(3i32) => Outcome::Stuck,
        _ => Outcome::Error,
    }
}

/// Classifies a case from the runner's exit code and the judged checks.
pub fn classify_outcome(runner_exit_code: Option<i32>, judgment: &Judgment) -> (r: Outcome)
    ensures
        r == outcome_spec(runner_exit_code, judgment.checks@),
{
    match runner_exit_code {
        Some(0i32) => {
            let mut i: usize = 0;
            while i < judgment.checks.len()
                invariant
                    runner_exit_code == Some(0i32),
                    i <= judgment.checks@.len(),
                    forall|k: int| 0 <= k < i ==> passed_spec(#[trigger] judgment.checks@[k]),
                decreases judgment.checks@.len() - i,
            {
                if !check_passed(&judgment.checks[i]) {
                    proof {
                        assert(!passed_spec(judgment.checks@[i as int]));
                    }
                    return Outcome::Fail;
                }
                i = i + 1;
            }
            Outcome::Success
        },
        Some(3i32) => Outcome::Stuck,
        _ => Outcome::Error,
    }
}

} // verus!
