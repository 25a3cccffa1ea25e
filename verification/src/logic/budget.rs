//! Time budget helpers for deterministic orchestration.

use vstd::prelude::*;

verus! {

/// The time left of a budget of `budget_nanos` after `elapsed_nanos` have
/// passed, or an error once nothing is left.
pub fn remaining_budget(budget_nanos: u64, elapsed_nanos: u64) -> (r: Result<u64, String>)
    ensures
        match r {
            Ok(left) => elapsed_nanos < budget_nanos && left == budget_nanos - elapsed_nanos,
            Err(e) => elapsed_nanos >= budget_nanos && e@ == "iteration timed out"@,
        },
{
    if elapsed_nanos >= budget_nanos {
        return Err(String::from_str("iteration timed out"));
    }
    Ok(budget_nanos - elapsed_nanos)
}

} // verus!
