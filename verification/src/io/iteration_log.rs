//! Iteration records under `.runner/iterations/<run-id>/<iter>/`.

use vstd::prelude::*;

use crate::io::paths::{join, join_path};
use crate::logic::types::{AgentStatus, GuardOutcome};
use crate::text::{decimal, u64_to_string};

verus! {

/// What is recorded about an iteration.
#[derive(Debug, Clone)]
pub struct IterationMeta {
    pub run_id: String,
    pub iter: u32,
    pub node_id: String,
    pub status: AgentStatus,
    pub guard: GuardOutcome,
    pub started_at: Option<String>,
    pub ended_at: Option<String>,
    pub duration_ms: Option<u64>,
}

/// Where an iteration's records live.
#[derive(Debug, Clone)]
pub struct IterationPaths {
    pub dir: String,
    pub meta_path: String,
    pub output_path: String,
    pub guard_log_path: String,
    pub tree_before_path: String,
    pub tree_after_path: String,
}

/// `<root>/.runner/iterations/<run_id>/<iter>`.
pub open spec fn iteration_dir(root: Seq<char>, run_id: Seq<char>, iter: u32) -> Seq<char> {
    join_path(join_path(join_path(join_path(root, ".runner"@), "iterations"@), run_id), decimal(iter as nat))
}

impl IterationPaths {
    /// The record paths of iteration `iter` of run `run_id` under `root`.
    pub fn new(root: &str, run_id: &str, iter: u32) -> (r: IterationPaths)
        ensures
            r.dir@ == iteration_dir(root@, run_id@, iter),
            r.meta_path@ == join_path(iteration_dir(root@, run_id@, iter), "meta.json"@),
            r.output_path@ == join_path(iteration_dir(root@, run_id@, iter), "output.json"@),
            r.guard_log_path@ == join_path(iteration_dir(root@, run_id@, iter), "guard.log"@),
            r.tree_before_path@ == join_path(iteration_dir(root@, run_id@, iter), "tree.before.json"@),
            r.tree_after_path@ == join_path(iteration_dir(root@, run_id@, iter), "tree.after.json"@),
    {
        let a = join(root, ".runner");
        let b = join(a.as_str(), "iterations");
        let c = join(b.as_str(), run_id);
        let dir = join(c.as_str(), u64_to_string(iter as u64).as_str());
        IterationPaths {
            meta_path: join(dir.as_str(), "meta.json"),
            output_path: join(dir.as_str(), "output.json"),
            guard_log_path: join(dir.as_str(), "guard.log"),
            tree_before_path: join(dir.as_str(), "tree.before.json"),
            tree_after_path: join(dir.as_str(), "tree.after.json"),
            dir,
        }
    }
}

} // verus!
