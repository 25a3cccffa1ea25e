use runner::agents::{ExecutorAgent, TreeAgent};
use runner::io::context::{context_files, ContextPayload};
use runner::io::git::{parse_status_line, parse_status_output, StatusEntry};
use runner::io::goal::{parse_frontmatter_id, set_frontmatter_id, validate_id};
use runner::io::prompt::{PromptBuilder, PromptInputs};
use runner::tree::default_tree;
use runner::io::init::{init_precheck, InitOptions, RunnerPaths};
use runner::validate::{missing_message, validate_run_identity, RunValidation};

#[test]
fn parses_untracked_line() {
    let e = parse_status_line("?? foo.txt").expect("parse");
    assert_eq!(
        e,
        StatusEntry {
            code: "??".to_string(),
            path: "foo.txt".to_string()
        }
    );
}

#[test]
fn parses_modified_line() {
    let e = parse_status_line(" M src/main.rs").expect("parse");
    assert_eq!(
        e,
        StatusEntry {
            code: " M".to_string(),
            path: "src/main.rs".to_string()
        }
    );
}

#[test]
fn parses_rename_line_uses_new_path() {
    let e = parse_status_line("R  old.txt -> new.txt").expect("parse");
    assert_eq!(e.path, "new.txt");
}

#[test]
fn status_output_skips_blank_lines() {
    let entries = parse_status_output("?? a.txt\n\n M b.rs\n").expect("parse");
    assert_eq!(entries.len(), 2);
    assert_eq!(entries[0].path, "a.txt");
    assert_eq!(entries[1].code, " M");
}

#[test]
fn short_status_line_is_rejected() {
    assert!(parse_status_line("M").is_err());
}

#[test]
fn reads_id_from_frontmatter() {
    let doc = "---\nid: run-abc123\n---\n\n# Goal\n";
    assert_eq!(parse_frontmatter_id(doc), Some("run-abc123".to_string()));
}

#[test]
fn ensure_goal_id_inserts_frontmatter_when_missing() {
    let doc = "# Goal\n\nHello\n";
    let updated = set_frontmatter_id(doc, "run-1");
    assert!(updated.starts_with("---\nid: run-1\n---"));
    assert!(updated.contains("# Goal"));
}

#[test]
fn set_frontmatter_id_updates_existing_id() {
    let doc = "---\nid: run-old\nfoo: bar\n---\n\n# Goal\n";
    let updated = set_frontmatter_id(doc, "run-new");
    assert!(updated.contains("id: run-new"));
    assert!(updated.contains("foo: bar"));
    assert!(!updated.contains("id: run-old"));
}

#[test]
fn validate_id_rejects_slash() {
    let err = validate_id("bad/id").unwrap_err();
    assert!(err.contains("must not contain"));
}

#[test]
fn validate_id_rejects_empty_and_odd_chars() {
    assert_eq!(validate_id("").unwrap_err(), "id must not be empty");
    assert!(validate_id("a b").unwrap_err().contains("[A-Za-z0-9._-]"));
    assert!(validate_id("run-1.x_y").is_ok());
}

#[test]
fn goal_id_round_trips_through_set_and_parse() {
    let updated = set_frontmatter_id("# Goal\n", "run-7");
    assert_eq!(parse_frontmatter_id(&updated), Some("run-7".to_string()));
}

fn prompt_input(tree_summary: String, assumptions: String, questions: String) -> PromptInputs {
    PromptInputs {
        selected_path: "root>child".to_string(),
        selected_node: default_tree(),
        tree_summary,
        context_goal: "goal".to_string(),
        context_history: Some("history".to_string()),
        context_failure: Some("failure".to_string()),
        assumptions,
        questions,
    }
}

#[test]
fn prompt_ordering_is_stable() {
    let input = prompt_input(
        "summary".to_string(),
        "assumptions".to_string(),
        "questions".to_string(),
    );
    let pack = PromptBuilder::new(10_000)
        .build_executor(&input, None)
        .expect("render");
    let content = pack.render();

    let contract_pos = content.find("### Executor Contract").expect("contract section");
    let goal_pos = content.find("### Goal").expect("goal section");
    let history_pos = content.find("### History").expect("history section");
    let failure_pos = content.find("### Failure").expect("failure section");
    let selected_pos = content.find("### Selected Node").expect("selected section");
    let tree_pos = content.find("### Tree Summary").expect("tree section");
    let assumptions_pos = content.find("### Assumptions").expect("assumptions section");
    let questions_pos = content.find("### Open Questions").expect("questions section");

    assert!(contract_pos < goal_pos, "contract before goal");
    assert!(goal_pos < history_pos, "goal before history");
    assert!(history_pos < failure_pos, "history before failure");
    assert!(failure_pos < selected_pos, "failure before selected");
    assert!(selected_pos < tree_pos, "selected before tree");
    assert!(tree_pos < assumptions_pos, "tree before assumptions");
    assert!(assumptions_pos < questions_pos, "assumptions before questions");
}

#[test]
fn budget_drops_less_critical_sections_first() {
    let input = prompt_input("tree".repeat(200), "assumptions".repeat(50), "questions".repeat(50));
    let pack = PromptBuilder::new(600)
        .build_executor(&input, None)
        .expect("render");
    let content = pack.render();

    assert!(!content.contains("### Tree Summary"), "tree should be dropped");
    assert!(!content.contains("### Assumptions"), "assumptions should be dropped");
    assert!(content.contains("### Executor Contract"), "contract should remain");
    assert!(content.contains("### Goal"), "goal should remain");
    assert!(content.contains("### Selected Node"), "selected should remain");
}

#[test]
fn template_uses_xml_tags() {
    let input = PromptInputs {
        selected_path: "root".to_string(),
        selected_node: default_tree(),
        tree_summary: "".to_string(),
        context_goal: "test goal".to_string(),
        context_history: None,
        context_failure: None,
        assumptions: "".to_string(),
        questions: "".to_string(),
    };
    let pack = PromptBuilder::new(10_000)
        .build_decomposer(&input)
        .expect("render");
    let content = pack.render();

    assert!(content.contains("<contract>"), "should have contract tag");
    assert!(content.contains("</contract>"), "should have contract close tag");
    assert!(content.contains("<goal>"), "should have goal tag");
    assert!(content.contains("</goal>"), "should have goal close tag");
    assert!(content.contains("<selected>"), "should have selected tag");
    assert!(content.contains("</selected>"), "should have selected close tag");
}

#[test]
fn rendered_prompt_carries_the_inputs() {
    let input = prompt_input("sum".to_string(), "a".to_string(), "q".to_string());
    let pack = PromptBuilder::new(10_000)
        .build_tree_agent(&input)
        .expect("render");
    let content = pack.render();
    assert!(content.contains("root>child"));
    assert!(!content.contains("<!-- section:"));
}

#[test]
fn context_renders_optional_sections() {
    let payload = ContextPayload {
        goal: "Goal body".to_string(),
        history: Some("Did work".to_string()),
        failure: None,
    };
    let (goal, history, failure) = context_files(&payload);
    assert!(goal.contains("Goal body"));
    assert!(history.contains("Did work"));
    assert!(failure.contains("None."));
}

#[test]
fn validate_ok_when_run_not_started() {
    let outcome = validate_run_identity(None, None, ".runner/GOAL.md", "main").expect("validate");
    assert_eq!(outcome.run, RunValidation::NotStarted);
}

#[test]
fn validate_ok_when_run_started_and_matches() {
    let run_id = "run-abc123";
    let branch = format!("runner/{run_id}");
    let outcome =
        validate_run_identity(Some(run_id), Some(run_id), ".runner/GOAL.md", &branch).expect("validate");
    assert_eq!(
        outcome.run,
        RunValidation::Started {
            run_id: run_id.to_string(),
            branch: format!("runner/{run_id}")
        }
    );
}

#[test]
fn validate_errors_on_goal_id_mismatch() {
    let err = validate_run_identity(Some("run-1"), Some("run-2"), ".runner/GOAL.md", "runner/run-1")
        .expect_err("validate should fail");
    assert!(err.contains("run id mismatch"));
}

#[test]
fn validate_errors_on_branch_mismatch() {
    let run_id = "run-2";
    let err = validate_run_identity(Some(run_id), Some(run_id), ".runner/GOAL.md", "main")
        .expect_err("validate should fail");
    assert!(err.contains(&format!("expected to be on 'runner/{run_id}'")));
}

#[test]
fn validate_errors_on_missing_goal_id() {
    let err = validate_run_identity(Some("run-3"), None, ".runner/GOAL.md", "runner/run-3")
        .expect_err("validate should fail");
    assert_eq!(err, "missing goal id in .runner/GOAL.md");
}

#[test]
fn executor_agent_request_paths_and_prompt() {
    let agent = ExecutorAgent::new("/p/.runner/state", 10_000, 500);
    assert!(agent.allows_side_effects());
    assert_eq!(agent.schema_path, "/p/.runner/state/agent_output.schema.json");
    let input = prompt_input("sum".to_string(), "a".to_string(), "q".to_string());
    let req = agent
        .request("/p", "/p/.runner/iterations/r/1", &input, Some("plan notes"), 1_000, 10)
        .expect("request");
    assert_eq!(req.output_path, "/p/.runner/iterations/r/1/agent_output.json");
    assert_eq!(req.stream_path, Some("/p/.runner/iterations/r/1/stream.jsonl".to_string()));
    assert_eq!(req.timeout_nanos, 990);
    assert_eq!(req.output_limit_bytes, 500);
    assert!(req.prompt.contains("### Executor Contract"));
    let err = agent.request("/p", "/x", &input, None, 10, 10).unwrap_err();
    assert_eq!(err, "iteration timed out");
}

#[test]
fn tree_agent_request_uses_planner_files() {
    let agent = TreeAgent::new("/p/s", 10_000, 7);
    assert!(!agent.allows_side_effects());
    let input = prompt_input("sum".to_string(), "a".to_string(), "q".to_string());
    let req = agent.request("/p", "/p/i", &input, 100, 40).expect("request");
    assert_eq!(req.output_schema_path, "/p/s/tree_decision.schema.json");
    assert_eq!(req.output_path, "/p/i/planner_output.json");
    assert_eq!(req.executor_log_path, "/p/i/planner_executor.log");
    assert_eq!(req.timeout_nanos, 60);
}

#[test]
fn goal_id_round_trips_past_other_keys_and_comments() {
    let doc = "---\ntitle: x\n# note\n\nid: old\nfoo: bar\n---\n\n# Goal\n";
    let updated = set_frontmatter_id(doc, "run-9");
    assert_eq!(parse_frontmatter_id(&updated), Some("run-9".to_string()));
    assert!(updated.contains("foo: bar"));
}

#[test]
fn goal_id_is_lost_after_a_line_without_colon() {
    let doc = "---\n---\nid: old\n---\n";
    let updated = set_frontmatter_id(doc, "run-9");
    assert_eq!(parse_frontmatter_id(&updated), None);
}

#[test]
fn init_without_force_refuses_existing_runner_dir() {
    let err = init_precheck(true, true, &InitOptions { force: false }).unwrap_err();
    assert!(err.contains("already exists"));
    assert!(init_precheck(true, true, &InitOptions { force: true }).is_ok());
    assert!(init_precheck(false, false, &InitOptions { force: false }).is_ok());
    assert!(init_precheck(true, false, &InitOptions { force: true }).unwrap_err().contains("not a directory"));
}

#[test]
fn validate_errors_on_missing_layout() {
    let paths = RunnerPaths::new("/tmp/empty");
    let err = missing_message(true, &paths.runner_dir);
    assert!(err.contains("missing directory"));
    assert_eq!(err, "missing directory /tmp/empty/.runner");
}

#[test]
fn runner_paths_follow_file_contracts() {
    let paths = RunnerPaths::new("/p");
    assert_eq!(paths.config_path, "/p/.runner/state/config.toml");
    assert_eq!(paths.goal_path, "/p/.runner/GOAL.md");
    assert_eq!(paths.gitignore_path, "/p/.runner/.gitignore");
    assert_eq!(paths.tree_path, "/p/.runner/state/tree.json");
    assert_eq!(paths.run_state_path, "/p/.runner/state/run_state.json");
    assert_eq!(paths.context_failure_path, "/p/.runner/context/failure.md");
}

#[test]
fn decomposer_agent_request_succeeds_with_time_left() {
    let agent = runner::agents::DecomposerAgent::new("/p/.runner/state", 1024, 2048);
    let input = prompt_input("sum".to_string(), "a".to_string(), "q".to_string());
    let req = agent.request("/p", "/p/.runner/iterations/r/1", &input, 1_000, 1).expect("request");
    assert_eq!(req.workdir, "/p");
    assert_eq!(req.output_path, "/p/.runner/iterations/r/1/planner_output.json");
    assert_eq!(req.output_schema_path, "/p/.runner/state/decomposer_output.schema.json");
    assert_eq!(req.output_limit_bytes, 2048);
    assert_eq!(req.stream_path, Some("/p/.runner/iterations/r/1/planner_stream.jsonl".to_string()));
    assert!(req.prompt.contains("Decomposer Contract"));
}

#[test]
fn append_limited_keeps_up_to_limit() {
    let mut kept = b"abc".to_vec();
    let dropped = runner::io::executor::append_limited(&mut kept, b"defgh", 5);
    assert_eq!(kept, b"abcde".to_vec());
    assert_eq!(dropped, 3);
    assert_eq!(runner::io::executor::append_limited(&mut kept, b"xy", 5), 2);
    assert_eq!(kept, b"abcde".to_vec());
}

#[test]
fn tree_schema_check_reports_jsonschema_errors() {
    use_tree_schema_checks();
}

fn use_tree_schema_checks() {
    let schema = r#"{"type":"object","required":["id"],"properties":{"id":{"type":"string"}}}"#;
    assert_eq!(runner::io::tree_store::check_tree_schema(schema, r#"{"id":"root"}"#), Ok(()));
    let err = runner::io::tree_store::check_tree_schema(schema, r#"{"id":5}"#).unwrap_err();
    assert!(err.starts_with("tree schema validation failed: "), "{err}");
    assert!(err.contains("5"), "{err}");
    let msgs = runner::io::tree_store::schema_errors(schema, "{}").expect("valid schema");
    assert_eq!(msgs.len(), 1);
    let bad = runner::io::tree_store::check_tree_schema(r#"{"type":5}"#, "{}").unwrap_err();
    assert!(bad.starts_with("invalid schema: "), "{bad}");
}

#[test]
fn tree_invariant_check_joins_errors() {
    let mut tree = runner::tree::default_tree();
    tree.max_attempts = 0;
    let err = runner::io::tree_store::check_tree_invariants(&tree).unwrap_err();
    assert_eq!(err, format!("tree invariants failed: {}: max_attempts must be > 0", tree.id));
    assert_eq!(runner::io::tree_store::check_tree_invariants(&runner::tree::default_tree()), Ok(()));
}
