use runner::io::guards::{run_guards_if_needed, GuardRequest, GuardRunner};
use runner::io::iteration_log::IterationPaths;
use runner::logic::types::{AgentOutput, AgentStatus, GuardOutcome, TreeChildSpec, TreeDecision, TreeDecisionKind};
use runner::looping::{loop_next, start_loop, LoopAction, LoopEvent, LoopOutcome, LoopStop};
use runner::select::{SelectOutcome, SelectedLeaf};
use runner::step::{
    decompose_phase, finish_execute, history_from_run_state, next_run_state, runner_error_outcome, select_for_step,
    MaxIterationsExceededError, StepError,
};
use runner::tree::{default_tree, Node, NodeNext};
use runner::ui::{iteration_numbers, list_runs, process_events, ChangeEvent, FsEvent, SsePayload, WatchPaths};

fn node(id: &str, order: i64) -> Node {
    Node {
        id: id.to_string(),
        order,
        title: format!("{} title", id),
        goal: format!("{} goal", id),
        acceptance: Vec::new(),
        next: NodeNext::Execute,
        passes: false,
        attempts: 0,
        max_attempts: 3,
        children: Vec::new(),
    }
}

fn open_leaf() -> SelectedLeaf {
    SelectedLeaf {
        id: "root".to_string(),
        path: "root".to_string(),
        attempts: 0,
        max_attempts: 3,
    }
}

#[test]
fn loop_stops_on_complete_without_calling_step_again() {
    let state = start_loop("run-1".to_string(), 1);
    let (state, action) = loop_next(state, LoopEvent::Selected(SelectOutcome::Open(open_leaf())));
    assert_eq!(action, LoopAction::RunStep);
    let (state, action) = loop_next(state, LoopEvent::StepDone);
    assert_eq!(action, LoopAction::Select);
    let (_, action) = loop_next(state, LoopEvent::Selected(SelectOutcome::Complete));
    match action {
        LoopAction::Finish(outcome) => {
            assert_eq!(outcome.steps_executed, 1);
            assert_eq!(outcome.stop, LoopStop::Complete);
        }
        other => panic!("unexpected action {:?}", other),
    }
}

#[test]
fn loop_stops_on_max_iterations_exceeded() {
    let state = start_loop("run-1".to_string(), 1);
    let (state, _) = loop_next(state, LoopEvent::Selected(SelectOutcome::Open(open_leaf())));
    let (state, _) = loop_next(state, LoopEvent::StepDone);
    let (state, action) = loop_next(state, LoopEvent::Selected(SelectOutcome::Open(open_leaf())));
    assert_eq!(action, LoopAction::RunStep);
    let err = StepError::MaxIterations(MaxIterationsExceededError {
        next_iter: 2,
        max_iterations: 1,
    });
    let (_, action) = loop_next(state, LoopEvent::StepFailed(err));
    assert_eq!(
        action,
        LoopAction::Finish(LoopOutcome {
            run_id: "run-1".to_string(),
            started_at_iter: 1,
            steps_executed: 1,
            stop: LoopStop::MaxIterationsExceeded {
                next_iter: 2,
                max_iterations: 1
            },
        })
    );
}

#[test]
fn loop_fails_on_other_step_errors() {
    let state = start_loop("run-1".to_string(), 4);
    let (_, action) = loop_next(state, LoopEvent::StepFailed(StepError::Other("boom".to_string())));
    assert_eq!(action, LoopAction::Fail("boom".to_string()));
}

#[test]
fn step_hard_stops_on_stuck_leaf() {
    let mut root = node("root", 0);
    root.next = NodeNext::Decompose;
    let mut stuck = node("stuck", 0);
    stuck.attempts = 2;
    stuck.max_attempts = 2;
    root.children.push(stuck);

    let err = match select_for_step(&root) {
        Err(StepError::Stuck(e)) => e,
        _ => panic!("expected a stuck leaf"),
    };
    let msg = err.message();
    assert!(msg.contains("stuck leaf selected"));
    assert!(msg.contains("id=stuck"));
    assert!(msg.contains("path=root/stuck"));
    assert!(msg.contains("attempts=2/2"));
}

#[test]
fn step_selects_open_leaf_with_path() {
    let mut root = node("root", 0);
    root.children.push(node("a", 0));
    let sel = select_for_step(&root).ok().expect("selection");
    assert_eq!(sel.node.id, "a");
    assert_eq!(sel.path, "root/a");
}

#[test]
fn step_retries_when_tree_agent_decomposes_without_children() {
    let root = node("root", 0);
    let decision = TreeDecision {
        decision: TreeDecisionKind::Decompose,
        summary: "missing children".to_string(),
        children: Vec::new(),
    };
    let attempt = decompose_phase(&root, "root", &decision, 3).expect("attempt");
    assert_eq!(attempt.output.status, AgentStatus::Retry);
    assert_eq!(attempt.guard, GuardOutcome::Skipped);
    assert!(attempt.error_log.expect("runner error").contains("decision=decompose"));
    assert_eq!(attempt.tree.attempts, 1);
}

#[test]
fn step_accepts_decomposition() {
    let root = node("root", 0);
    let decision = TreeDecision {
        decision: TreeDecisionKind::Decompose,
        summary: "split".to_string(),
        children: vec![
            TreeChildSpec {
                title: "A".to_string(),
                goal: "do a".to_string(),
                acceptance: Vec::new(),
                next: NodeNext::Execute,
            },
            TreeChildSpec {
                title: "B".to_string(),
                goal: "do b".to_string(),
                acceptance: Vec::new(),
                next: NodeNext::Execute,
            },
        ],
    };
    let attempt = decompose_phase(&root, "root", &decision, 4).expect("attempt");
    assert_eq!(attempt.output.status, AgentStatus::Decomposed);
    assert!(attempt.error_log.is_none());
    assert_eq!(attempt.tree.children.len(), 2);
    assert_eq!(attempt.tree.children[0].max_attempts, 4);
    assert!(!attempt.tree.passes);
    assert_ne!(attempt.tree.children[0].id, attempt.tree.children[1].id);
}

struct FakeGuardRunner {
    outcome: GuardOutcome,
}

impl GuardRunner for FakeGuardRunner {
    fn run(&self, _request: &GuardRequest) -> Result<GuardOutcome, String> {
        Ok(self.outcome)
    }
}

fn guard_request() -> GuardRequest {
    GuardRequest {
        workdir: "/tmp/work".to_string(),
        log_path: "/tmp/work/guard.log".to_string(),
        timeout_nanos: 1_000_000_000,
        output_limit_bytes: 100,
    }
}

#[test]
fn guards_skip_when_not_done() {
    let runner = FakeGuardRunner { outcome: GuardOutcome::Pass };
    let outcome = run_guards_if_needed(AgentStatus::Retry, &runner, &guard_request()).expect("guard outcome");
    assert_eq!(outcome, GuardOutcome::Skipped);
}

#[test]
fn guards_run_when_done() {
    let runner = FakeGuardRunner { outcome: GuardOutcome::Fail };
    let outcome = run_guards_if_needed(AgentStatus::Done, &runner, &guard_request()).expect("guard outcome");
    assert_eq!(outcome, GuardOutcome::Fail);
}

#[test]
fn iteration_paths_are_stable() {
    let paths = IterationPaths::new("/tmp/project", "run-1", 3);
    assert!(paths.dir.ends_with(".runner/iterations/run-1/3"));
    assert!(paths.meta_path.ends_with("meta.json"));
    assert!(paths.output_path.ends_with("output.json"));
    assert!(paths.guard_log_path.ends_with("guard.log"));
    assert!(paths.tree_before_path.ends_with("tree.before.json"));
    assert!(paths.tree_after_path.ends_with("tree.after.json"));
}

fn modify_event(path: String) -> FsEvent {
    FsEvent {
        create_or_modify: true,
        paths: vec![path],
    }
}

#[test]
fn stream_update_emits_iteration_added_and_stream_updated() {
    let watch = WatchPaths::new("/tmp/runner-ui-tests");
    let mut known = Vec::new();
    let path = format!("{}/run-x/1/stream.jsonl", watch.iterations_dir);
    let events = process_events(&watch, &vec![modify_event(path)], &mut known);
    assert_eq!(events.len(), 2);
    assert!(
        matches!(&events[0], ChangeEvent::IterationAdded { run_id, iter } if run_id == "run-x" && *iter == 1)
    );
    assert!(
        matches!(&events[1], ChangeEvent::StreamUpdated { run_id, iter } if run_id == "run-x" && *iter == 1)
    );
}

#[test]
fn meta_json_emits_iteration_completed() {
    let watch = WatchPaths::new("/tmp/runner-ui-tests");
    let mut known = vec![("run-y".to_string(), 2)];
    let path = format!("{}/run-y/2/meta.json", watch.iterations_dir);
    let events = process_events(&watch, &vec![modify_event(path)], &mut known);
    assert_eq!(events.len(), 1);
    assert!(
        matches!(&events[0], ChangeEvent::IterationCompleted { run_id, iter } if run_id == "run-y" && *iter == 2)
    );
}

#[test]
fn tree_change_is_reported_once() {
    let watch = WatchPaths::new("/tmp/p");
    let mut known = Vec::new();
    let events = process_events(
        &watch,
        &vec![modify_event(watch.tree_path.clone()), modify_event(watch.tree_path.clone())],
        &mut known,
    );
    assert_eq!(events, vec![ChangeEvent::TreeChanged]);
}

#[test]
fn sse_payload_names_the_event() {
    let p = SsePayload::from_event(&ChangeEvent::IterationAdded {
        run_id: "r".to_string(),
        iter: 5,
    });
    assert_eq!(p.event_type, "iteration_added");
    assert_eq!(p.run_id, Some("r".to_string()));
    assert_eq!(p.iter, Some(5));
}

#[test]
fn runs_list_sorted_with_sorted_iterations() {
    let dirs = vec![
        ("run-b".to_string(), vec!["10".to_string(), "2".to_string(), "notes".to_string()]),
        ("run-a".to_string(), vec!["1".to_string()]),
    ];
    let runs = list_runs(dirs);
    assert_eq!(runs.len(), 2);
    assert_eq!(runs[0].run_id, "run-a");
    assert_eq!(runs[0].iterations, vec![1]);
    assert_eq!(runs[1].run_id, "run-b");
    assert_eq!(runs[1].iterations, vec![2, 10]);
}

#[test]
fn iteration_numbers_accept_plus_sign() {
    assert_eq!(iteration_numbers(&vec!["+3".to_string(), "x".to_string(), "0".to_string()]), vec![0, 3]);
}

struct CountingGuardRunner {
    outcome: GuardOutcome,
    calls: std::cell::Cell<u32>,
}

impl GuardRunner for CountingGuardRunner {
    fn run(&self, _request: &GuardRequest) -> Result<GuardOutcome, String> {
        self.calls.set(self.calls.get() + 1);
        Ok(self.outcome)
    }
}

#[test]
fn step_updates_run_state_and_tree_on_retry() {
    let tree = default_tree();
    let guards = CountingGuardRunner { outcome: GuardOutcome::Pass, calls: std::cell::Cell::new(0) };
    let output = AgentOutput { status: AgentStatus::Retry, summary: "needs more".to_string() };
    let guard = run_guards_if_needed(output.status, &guards, &guard_request()).expect("guards");
    assert_eq!(guard, GuardOutcome::Skipped);
    assert_eq!(guards.calls.get(), 0);
    let attempt = finish_execute(&tree, &tree, "root", output, guard).expect("attempt");
    assert_eq!(attempt.tree.attempts, 1);
    let run_state = next_run_state("run-1", 1, &attempt.output, attempt.guard, false);
    assert_eq!(run_state.next_iter, 2);
    assert_eq!(run_state.last_status, Some(AgentStatus::Retry));
    assert_eq!(run_state.last_summary, Some("needs more".to_string()));
    assert_eq!(run_state.last_guard, Some(GuardOutcome::Skipped));
}

#[test]
fn step_marks_done_and_writes_guard_log() {
    let tree = default_tree();
    let guards = CountingGuardRunner { outcome: GuardOutcome::Pass, calls: std::cell::Cell::new(0) };
    let output = AgentOutput { status: AgentStatus::Done, summary: "done".to_string() };
    let guard = run_guards_if_needed(output.status, &guards, &guard_request()).expect("guards");
    assert_eq!(guard, GuardOutcome::Pass);
    assert_eq!(guards.calls.get(), 1);
    let attempt = finish_execute(&tree, &tree, "root", output, guard).expect("attempt");
    assert!(attempt.tree.passes);
    assert!(attempt.error_log.is_none());
}

#[test]
fn runner_error_keeps_tree_and_history_clean() {
    let mut tree = default_tree();
    tree.attempts = 1;
    let attempt = runner_error_outcome(&tree, "boom");
    assert_eq!(attempt.tree.attempts, 1);
    assert_eq!(attempt.error_log, Some("runner error: boom".to_string()));
    let run_state = next_run_state("run-1", 4, &attempt.output, attempt.guard, true);
    assert_eq!(run_state.last_summary, None);
    assert_eq!(history_from_run_state(&run_state), None);
}

#[test]
fn gitignore_normalization_is_stable() {
    let once = runner::start::normalized_gitignore("  logs/ \n\n iterations/\ncontext/\nlogs/\r\n");
    assert_eq!(once, "context/\niterations/\nlogs/\n");
    let twice = runner::start::normalized_gitignore(&once);
    assert_eq!(twice, once);
    let from_empty = runner::start::normalized_gitignore("");
    assert_eq!(from_empty, "context/\niterations/\n");
    assert_eq!(runner::start::normalized_gitignore(&from_empty), from_empty);
}

#[test]
fn started_gitignore_is_accepted_by_step() {
    for existing in ["", "target/\n", "  context/  \nfoo\r\n", "iterations/"] {
        let written = runner::start::normalized_gitignore(existing);
        assert!(runner::step::check_runner_gitignore(&written, ".runner/.gitignore").is_ok());
    }
    let err = runner::step::check_runner_gitignore("context/\n", ".runner/.gitignore").unwrap_err();
    assert_eq!(err, "missing 'iterations/' in .runner/.gitignore (run `runner start`)");
}

#[test]
fn run_branch_is_accepted_by_step() {
    for id in ["", "main", "run-abc1234"] {
        let branch = runner::step::run_branch(id);
        assert!(runner::step::check_branch_allowed(&branch).is_ok());
        assert!(runner::step::check_on_run_branch(id, &branch).is_ok());
    }
    assert!(runner::step::check_branch_allowed("main").is_err());
}

#[test]
fn run_id_is_first_free_candidate() {
    assert_eq!(runner::start::choose_run_id("run-abc", &vec![false]), Some("run-abc".to_string()));
    assert_eq!(runner::start::choose_run_id("run-abc", &vec![true, true, false]), Some("run-abc-3".to_string()));
    assert_eq!(runner::start::choose_run_id("run-abc", &vec![true, true]), None);
}
