//! The layout of `.runner/` and the files `runner init` writes.

use vstd::prelude::*;

use crate::io::paths::{join, join_path};

verus! {

/// `<root>/.runner`.
pub open spec fn runner_dir_of(root: Seq<char>) -> Seq<char> {
    join_path(root, ".runner"@)
}

/// `<root>/.runner/state`.
pub open spec fn state_dir_of(root: Seq<char>) -> Seq<char> {
    join_path(runner_dir_of(root), "state"@)
}

/// Every path of the `.runner/` layout.
#[derive(Debug, Clone)]
pub struct RunnerPaths {
    pub root: String,
    pub runner_dir: String,
    pub state_dir: String,
    pub context_dir: String,
    pub iterations_dir: String,
    pub gitignore_path: String,
    pub goal_path: String,
    pub tree_path: String,
    pub schema_path: String,
    pub config_path: String,
    pub assumptions_path: String,
    pub questions_path: String,
    pub run_state_path: String,
    pub context_goal_path: String,
    pub context_history_path: String,
    pub context_failure_path: String,
}

impl RunnerPaths {
    /// The layout under `root`.
    pub fn new(root: &str) -> (r: RunnerPaths)
        ensures
            r.root@ == root@,
            r.runner_dir@ == runner_dir_of(root@),
            r.state_dir@ == state_dir_of(root@),
            r.context_dir@ == join_path(runner_dir_of(root@), "context"@),
            r.iterations_dir@ == join_path(runner_dir_of(root@), "iterations"@),
            r.gitignore_path@ == join_path(runner_dir_of(root@), ".gitignore"@),
            r.goal_path@ == join_path(runner_dir_of(root@), "GOAL.md"@),
            r.tree_path@ == join_path(state_dir_of(root@), "tree.json"@),
            r.schema_path@ == join_path(state_dir_of(root@), "schema.json"@),
            r.config_path@ == join_path(state_dir_of(root@), "config.toml"@),
            r.assumptions_path@ == join_path(state_dir_of(root@), "assumptions.md"@),
            r.questions_path@ == join_path(state_dir_of(root@), "questions.md"@),
            r.run_state_path@ == join_path(state_dir_of(root@), "run_state.json"@),
            r.context_goal_path@ == join_path(join_path(runner_dir_of(root@), "context"@), "goal.md"@),
            r.context_history_path@ == join_path(join_path(runner_dir_of(root@), "context"@), "history.md"@),
            r.context_failure_path@ == join_path(join_path(runner_dir_of(root@), "context"@), "failure.md"@),
    {
        let runner_dir = join(root, ".runner");
        let state_dir = join(runner_dir.as_str(), "state");
        let context_dir = join(runner_dir.as_str(), "context");
        let iterations_dir = join(runner_dir.as_str(), "iterations");
        RunnerPaths {
            root: root.to_string(),
            gitignore_path: join(runner_dir.as_str(), ".gitignore"),
            goal_path: join(runner_dir.as_str(), "GOAL.md"),
            tree_path: join(state_dir.as_str(), "tree.json"),
            schema_path: join(state_dir.as_str(), "schema.json"),
            config_path: join(state_dir.as_str(), "config.toml"),
            assumptions_path: join(state_dir.as_str(), "assumptions.md"),
            questions_path: join(state_dir.as_str(), "questions.md"),
            run_state_path: join(state_dir.as_str(), "run_state.json"),
            context_goal_path: join(context_dir.as_str(), "goal.md"),
            context_history_path: join(context_dir.as_str(), "history.md"),
            context_failure_path: join(context_dir.as_str(), "failure.md"),
            runner_dir,
            state_dir,
            context_dir,
            iterations_dir,
        }
    }
}

/// Options for `runner init`.
#[derive(Debug, Clone)]
pub struct InitOptions {
    /// Overwrite an existing `.runner/`.
    pub force: bool,
}

/// `runner init` refuses an existing `.runner/` without `force`, and a
/// `.runner` that is not a directory.
pub fn init_precheck(present: bool, is_dir: bool, options: &InitOptions) -> (r: Result<(), String>)
    ensures
        r is Ok <==> (!present || (options.force && is_dir)),
        present && !options.force ==> (r matches Err(m) && m@
            == "runner init: .runner already exists (use --force to overwrite)"@),
        present && options.force && !is_dir ==> (r matches Err(m) && m@
            == "runner init: .runner exists but is not a directory"@),
{
    if present && !options.force {
        return Err(String::from_str("runner init: .runner already exists (use --force to overwrite)"));
    }
    if present && !is_dir {
        return Err(String::from_str("runner init: .runner exists but is not a directory"));
    }
    Ok(())
}

/// The placeholder goal document.
pub const GOAL_PLACEHOLDER: &'static str = "# Goal\n\nDescribe the overall project goal here.\n";
/// The placeholder assumptions file.
pub const ASSUMPTIONS_PLACEHOLDER: &'static str = "# Assumptions\n\n";
/// The placeholder open questions file.
pub const QUESTIONS_PLACEHOLDER: &'static str = "# Open Questions\n\n";
/// The placeholder goal context.
pub const CONTEXT_GOAL_PLACEHOLDER: &'static str = "# Goal (current node)\n\nGenerated by `runner step`.\n";
/// The placeholder history context.
pub const CONTEXT_HISTORY_PLACEHOLDER: &'static str = "# History (previous attempt)\n\nGenerated by `runner step` on retry.\n";
/// The placeholder failure context.
pub const CONTEXT_FAILURE_PLACEHOLDER: &'static str = "# Failure (guard output)\n\nGenerated by `runner step` when guards fail.\n";
/// The runner's `.gitignore`.
pub const RUNNER_GITIGNORE: &'static str = "context/\niterations/\n";

} // verus!
