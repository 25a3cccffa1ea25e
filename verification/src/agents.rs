//! Planning agents: each builds its prompt and the request that runs it.

use vstd::prelude::*;

use crate::io::executor::ExecRequest;
use crate::io::paths::{join, join_path};
use crate::io::prompt::{pack_text, prompt_vars, rendered_prompt, selected_fields, PromptBuilder, PromptInputs, DECOMPOSER_TEMPLATE, EXECUTOR_TEMPLATE, TREE_AGENT_TEMPLATE};
use crate::logic::budget::remaining_budget;

verus! {

/// Budgets of the tree agent.
#[derive(Debug, Clone)]
pub struct TreeAgentConfig {
    pub prompt_budget_bytes: usize,
    pub output_limit_bytes: usize,
}

/// The agent that decides whether a node is decomposed or executed.
#[derive(Debug, Clone)]
pub struct TreeAgent {
    pub schema_path: String,
    pub config: TreeAgentConfig,
}

/// Budgets of the decomposer agent.
#[derive(Debug, Clone)]
pub struct DecomposerAgentConfig {
    pub prompt_budget_bytes: usize,
    pub output_limit_bytes: usize,
}

/// The agent that splits a node into children.
#[derive(Debug, Clone)]
pub struct DecomposerAgent {
    pub schema_path: String,
    pub config: DecomposerAgentConfig,
}

/// The request a planning agent sends: its prompt, its output schema, and
/// its outputs and logs under the iteration directory.
pub open spec fn planner_request(
    r: ExecRequest,
    root: Seq<char>,
    iter_dir: Seq<char>,
    prompt: Seq<char>,
    schema: Seq<char>,
    timeout: u64,
    limit: usize,
) -> bool {
    &&& r.workdir@ == root
    &&& r.prompt@ == prompt
    &&& r.output_schema_path@ == schema
    &&& r.output_path@ == join_path(iter_dir, "planner_output.json"@)
    &&& r.executor_log_path@ == join_path(iter_dir, "planner_executor.log"@)
    &&& r.timeout_nanos == timeout
    &&& r.output_limit_bytes == limit
    &&& r.stream_path matches Some(p) && p@ == join_path(iter_dir, "planner_stream.jsonl"@)
}

fn planner_exec_request(
    root: &str,
    iter_dir: &str,
    prompt: String,
    schema_path: &String,
    timeout_nanos: u64,
    output_limit_bytes: usize,
) -> (r: ExecRequest)
    ensures
        planner_request(r, root@, iter_dir@, prompt@, schema_path@, timeout_nanos, output_limit_bytes),
{
    ExecRequest {
        workdir: root.to_string(),
        prompt,
        output_schema_path: schema_path.clone(),
        output_path: join(iter_dir, "planner_output.json"),
        executor_log_path: join(iter_dir, "planner_executor.log"),
        timeout_nanos,
        output_limit_bytes,
        stream_path: Some(join(iter_dir, "planner_stream.jsonl")),
    }
}

impl TreeAgent {
    /// A tree agent whose output schema lives in `state_dir`.
    pub fn new(state_dir: &str, prompt_budget_bytes: usize, output_limit_bytes: usize) -> (r: TreeAgent)
        ensures
            r.schema_path@ == join_path(state_dir@, "tree_decision.schema.json"@),
            r.config.prompt_budget_bytes == prompt_budget_bytes,
            r.config.output_limit_bytes == output_limit_bytes,
    {
        TreeAgent {
            schema_path: join(state_dir, "tree_decision.schema.json"),
            config: TreeAgentConfig { prompt_budget_bytes, output_limit_bytes },
        }
    }

    /// The tree agent only reads.
    pub fn allows_side_effects(&self) -> (r: bool)
        ensures
            !r,
    {
        false
    }

    /// The request for this iteration, given the iteration's time budget and
    /// the time already spent; fails once the budget is used up or when the
    /// prompt cannot be built, and succeeds otherwise.
    pub fn request(
        &self,
        root: &str,
        iter_dir: &str,
        inputs: &PromptInputs,
        budget_nanos: u64,
        elapsed_nanos: u64,
    ) -> (r: Result<ExecRequest, String>)
        ensures
            elapsed_nanos >= budget_nanos ==> (r matches Err(e) && e@ == "iteration timed out"@),
            ({
                let text = pack_text(
                    rendered_prompt(
                        TREE_AGENT_TEMPLATE@,
                        prompt_vars(*inputs, None),
                        selected_fields(inputs.selected_path@, inputs.selected_node@),
                        inputs.selected_node@.acceptance,
                    ),
                    self.config.prompt_budget_bytes as nat,
                );
                &&& (elapsed_nanos < budget_nanos && text is None) ==> (r matches Err(e) && e@
                    == "prompt could not be built within its budget"@)
                &&& (elapsed_nanos < budget_nanos && text is Some) ==> r is Ok
                &&& r matches Ok(req) ==> text == Some(req.prompt@)
            }),
            r matches Ok(req) ==> elapsed_nanos < budget_nanos && planner_request(
                req,
                root@,
                iter_dir@,
                req.prompt@,
                self.schema_path@,
                (budget_nanos - elapsed_nanos) as u64,
                self.config.output_limit_bytes,
            ),
    {
        let pack = match PromptBuilder::new(self.config.prompt_budget_bytes).build_tree_agent(inputs) {
            Some(p) => p,
            None => {
                if elapsed_nanos >= budget_nanos {
                    return Err(String::from_str("iteration timed out"));
                }
                return Err(String::from_str("prompt could not be built within its budget"));
            },
        };
        let timeout = remaining_budget(budget_nanos, elapsed_nanos)?;
        Ok(planner_exec_request(root, iter_dir, pack.render(), &self.schema_path, timeout, self.config.output_limit_bytes))
    }
}

impl DecomposerAgent {
    /// A decomposer whose output schema lives in `state_dir`.
    pub fn new(state_dir: &str, prompt_budget_bytes: usize, output_limit_bytes: usize) -> (r: DecomposerAgent)
        ensures
            r.schema_path@ == join_path(state_dir@, "decomposer_output.schema.json"@),
            r.config.prompt_budget_bytes == prompt_budget_bytes,
            r.config.output_limit_bytes == output_limit_bytes,
    {
        DecomposerAgent {
            schema_path: join(state_dir, "decomposer_output.schema.json"),
            config: DecomposerAgentConfig { prompt_budget_bytes, output_limit_bytes },
        }
    }

    /// The decomposer only reads.
    pub fn allows_side_effects(&self) -> (r: bool)
        ensures
            !r,
    {
        false
    }

    /// The request for this iteration, given the iteration's time budget and
    /// the time already spent; fails once the budget is used up or when the
    /// prompt cannot be built, and succeeds otherwise.
    pub fn request(
        &self,
        root: &str,
        iter_dir: &str,
        inputs: &PromptInputs,
        budget_nanos: u64,
        elapsed_nanos: u64,
    ) -> (r: Result<ExecRequest, String>)
        ensures
            elapsed_nanos >= budget_nanos ==> (r matches Err(e) && e@ == "iteration timed out"@),
            ({
                let text = pack_text(
                    rendered_prompt(
                        DECOMPOSER_TEMPLATE@,
                        prompt_vars(*inputs, None),
                        selected_fields(inputs.selected_path@, inputs.selected_node@),
                        inputs.selected_node@.acceptance,
                    ),
                    self.config.prompt_budget_bytes as nat,
                );
                &&& (elapsed_nanos < budget_nanos && text is None) ==> (r matches Err(e) && e@
                    == "prompt could not be built within its budget"@)
                &&& (elapsed_nanos < budget_nanos && text is Some) ==> r is Ok
                &&& r matches Ok(req) ==> text == Some(req.prompt@)
            }),
            r matches Ok(req) ==> elapsed_nanos < budget_nanos && planner_request(
                req,
                root@,
                iter_dir@,
                req.prompt@,
                self.schema_path@,
                (budget_nanos - elapsed_nanos) as u64,
                self.config.output_limit_bytes,
            ),
    {
        let pack = match PromptBuilder::new(self.config.prompt_budget_bytes).build_decomposer(inputs) {
            Some(p) => p,
            None => {
                if elapsed_nanos >= budget_nanos {
                    return Err(String::from_str("iteration timed out"));
                }
                return Err(String::from_str("prompt could not be built within its budget"));
            },
        };
        let timeout = remaining_budget(budget_nanos, elapsed_nanos)?;
        Ok(planner_exec_request(root, iter_dir, pack.render(), &self.schema_path, timeout, self.config.output_limit_bytes))
    }
}

/// Budgets of the executor agent.
#[derive(Debug, Clone)]
pub struct ExecutorAgentConfig {
    pub prompt_budget_bytes: usize,
    pub output_limit_bytes: usize,
}

/// The agent that works on the selected node in the repository.
#[derive(Debug, Clone)]
pub struct ExecutorAgent {
    pub schema_path: String,
    pub config: ExecutorAgentConfig,
}

/// The request the executor sends: its prompt, its output schema, its output
/// and log under the iteration directory, and the event stream the dashboard follows.
pub open spec fn executor_request(
    r: ExecRequest,
    root: Seq<char>,
    iter_dir: Seq<char>,
    prompt: Seq<char>,
    schema: Seq<char>,
    timeout: u64,
    limit: usize,
) -> bool {
    &&& r.workdir@ == root
    &&& r.prompt@ == prompt
    &&& r.output_schema_path@ == schema
    &&& r.output_path@ == join_path(iter_dir, "agent_output.json"@)
    &&& r.executor_log_path@ == join_path(iter_dir, "executor.log"@)
    &&& r.timeout_nanos == timeout
    &&& r.output_limit_bytes == limit
    &&& r.stream_path matches Some(p) && p@ == join_path(iter_dir, "stream.jsonl"@)
}

impl ExecutorAgent {
    /// An executor whose output schema lives in `state_dir`.
    pub fn new(state_dir: &str, prompt_budget_bytes: usize, output_limit_bytes: usize) -> (r: ExecutorAgent)
        ensures
            r.schema_path@ == join_path(state_dir@, "agent_output.schema.json"@),
            r.config.prompt_budget_bytes == prompt_budget_bytes,
            r.config.output_limit_bytes == output_limit_bytes,
    {
        ExecutorAgent {
            schema_path: join(state_dir, "agent_output.schema.json"),
            config: ExecutorAgentConfig { prompt_budget_bytes, output_limit_bytes },
        }
    }

    /// The executor changes the repository.
    pub fn allows_side_effects(&self) -> (r: bool)
        ensures
            r,
    {
        true
    }

    /// The request for this iteration, with the tree agent's notes; fails once
    /// the budget is used up or when the prompt cannot be built, and succeeds
    /// otherwise.
    pub fn request(
        &self,
        root: &str,
        iter_dir: &str,
        inputs: &PromptInputs,
        planner_notes: Option<&str>,
        budget_nanos: u64,
        elapsed_nanos: u64,
    ) -> (r: Result<ExecRequest, String>)
        ensures
            elapsed_nanos >= budget_nanos ==> (r matches Err(e) && e@ == "iteration timed out"@),
            ({
                let notes = match planner_notes { Some(s) => Some(s@), None => None };
                let text = pack_text(
                    rendered_prompt(
                        EXECUTOR_TEMPLATE@,
                        prompt_vars(*inputs, Some(notes)),
                        selected_fields(inputs.selected_path@, inputs.selected_node@),
                        inputs.selected_node@.acceptance,
                    ),
                    self.config.prompt_budget_bytes as nat,
                );
                &&& (elapsed_nanos < budget_nanos && text is None) ==> (r matches Err(e) && e@
                    == "prompt could not be built within its budget"@)
                &&& (elapsed_nanos < budget_nanos && text is Some) ==> r is Ok
                &&& r matches Ok(req) ==> text == Some(req.prompt@)
            }),
            r matches Ok(req) ==> elapsed_nanos < budget_nanos && executor_request(
                req,
                root@,
                iter_dir@,
                req.prompt@,
                self.schema_path@,
                (budget_nanos - elapsed_nanos) as u64,
                self.config.output_limit_bytes,
            ),
    {
        let pack = match PromptBuilder::new(self.config.prompt_budget_bytes).build_executor(inputs, planner_notes) {
            Some(p) => p,
            None => {
                if elapsed_nanos >= budget_nanos {
                    return Err(String::from_str("iteration timed out"));
                }
                return Err(String::from_str("prompt could not be built within its budget"));
            },
        };
        let timeout = remaining_budget(budget_nanos, elapsed_nanos)?;
        Ok(ExecRequest {
            workdir: root.to_string(),
            prompt: pack.render(),
            output_schema_path: self.schema_path.clone(),
            output_path: join(iter_dir, "agent_output.json"),
            executor_log_path: join(iter_dir, "executor.log"),
            timeout_nanos: timeout,
            output_limit_bytes: self.config.output_limit_bytes,
            stream_path: Some(join(iter_dir, "stream.jsonl")),
        })
    }
}

} // verus!
