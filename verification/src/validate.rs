//! What `runner validate` concludes about run identity, once the layout,
//! configuration, tree, run state, goal id and current branch have been read.

use vstd::prelude::*;

use crate::step::{missing_ignore, missing_ignore_line, run_branch, run_branch_name};

verus! {

/// Whether a run has started, and if so which one.
#[derive(Debug, Clone, PartialEq, Eq)]
pub enum RunValidation {
    NotStarted,
    Started { run_id: String, branch: String },
}

/// The result of validating `.runner/`.
#[derive(Debug, Clone, PartialEq, Eq)]
pub struct ValidateOutcome {
    pub run: RunValidation,
}

/// Without a run id no run has started; with one, the goal document must
/// carry the same id and the current branch must be the run's branch.
pub fn validate_run_identity(
    run_id: Option<&str>,
    goal_id: Option<&str>,
    goal_path: &str,
    branch: &str,
) -> (r: Result<ValidateOutcome, String>)
    ensures
        match run_id {
            None => r matches Ok(o) && o.run == RunValidation::NotStarted,
            Some(id) => match goal_id {
                None => r matches Err(m) && m@ == "missing goal id in "@ + goal_path@,
                Some(g) => if g@ != id@ {
                    r matches Err(m) && m@ == "run id mismatch: run_state has '"@ + id@ + "' but GOAL.md has '"@ + g@ + "'"@
                } else if branch@ != run_branch_name(id@) {
                    r matches Err(m) && m@ == "expected to be on '"@ + run_branch_name(id@) + "' but on '"@ + branch@ + "'"@
                } else {
                    r matches Ok(o) && o.run matches RunValidation::Started { run_id: rid, branch: b } && rid@ == id@
                        && b@ == branch@
                },
            },
        },
{
    let id = match run_id {
        None => return Ok(ValidateOutcome { run: RunValidation::NotStarted }),
        Some(id) => id,
    };
    let g = match goal_id {
        None => {
            let mut m = String::from_str("missing goal id in ");
            m.append(goal_path);
            return Err(m);
        },
        Some(g) => g,
    };
    if !crate::text::str_eq(g, id) {
        let mut m = String::from_str("run id mismatch: run_state has '");
        m.append(id);
        m.append("' but GOAL.md has '");
        m.append(g);
        m.append("'");
        return Err(m);
    }
    let expected = run_branch(id);
    if !crate::text::str_eq(branch, expected.as_str()) {
        let mut m = String::from_str("expected to be on '");
        m.append(expected.as_str());
        m.append("' but on '");
        m.append(branch);
        m.append("'");
        return Err(m);
    }
    Ok(ValidateOutcome { run: RunValidation::Started { run_id: id.to_string(), branch: branch.to_string() } })
}

/// `.runner/.gitignore` (at `path`) must ignore `context/` and `iterations/`.
pub fn check_gitignore(contents: &str, path: &str) -> (r: Result<(), String>)
    ensures
        r is Ok <==> missing_ignore(contents@) is None,
        r matches Err(m) ==> m@ == "missing '"@ + missing_ignore(contents@).unwrap() + "' in "@ + path@,
{
    match missing_ignore_line(contents) {
        None => Ok(()),
        Some(x) => {
            let mut m = String::from_str("missing '");
            m.append(x.as_str());
            m.append("' in ");
            m.append(path);
            Err(m)
        },
    }
}

/// A path that must exist, by what it is expected to be.
pub fn missing_message(is_dir: bool, path: &str) -> (r: String)
    ensures
        r@ == (if is_dir { "missing directory "@ } else { "missing file "@ }) + path@,
{
    let mut m = if is_dir { String::from_str("missing directory ") } else { String::from_str("missing file ") };
    m.append(path);
    m
}

/// A path that exists but is the wrong kind of entry.
pub fn wrong_kind_message(is_dir: bool, path: &str) -> (r: String)
    ensures
        r@ == (if is_dir { "expected directory "@ } else { "expected file "@ }) + path@,
{
    let mut m = if is_dir { String::from_str("expected directory ") } else { String::from_str("expected file ") };
    m.append(path);
    m
}

} // verus!
