use runner::eval::case::{order_cases, CaseConfig, CaseFile, CaseMeta, Check, GuardOverride};
use runner::eval::config::apply_case_config;
use runner::eval::judge::{probes_for, run_checks, CheckOutcome, CommandLimits, CommandRun, Judgment, Observation, Probe};
use runner::eval::outcome::{classify_outcome, Outcome};
use runner::eval::report::{count_outcomes, tally_checks};
use runner::eval::results::{content_digest, results_dir};
use runner::eval::workspace::{build_workspace_name, resolve_latest, LatestProbe};
use runner::io::config::RunnerConfig;
use runner::logic::types::{DecompositionOutput, TreeChildSpec};
use runner::prompt_lab::{
    combination_status, combination_verdict, content_hash, decision_label, index_names, render_lab_prompt,
    strip_section_markers, CombinationResult, ResultCache, SelectedNode, TestInput,
};
use runner::tree::NodeNext;

#[test]
fn preserves_guard_when_no_override() {
    let base = RunnerConfig::default();
    let overrides = CaseConfig::default();
    let merged = apply_case_config(base.clone(), &overrides).expect("merge");
    assert_eq!(merged.guard.command, base.guard.command);
}

#[test]
fn applies_guard_override() {
    let base = RunnerConfig::default();
    let overrides = CaseConfig {
        max_iterations: None,
        max_attempts_default: None,
        guard: Some(GuardOverride {
            command: vec!["make".to_string(), "ci".to_string()],
        }),
    };
    let merged = apply_case_config(base, &overrides).expect("merge");
    assert_eq!(merged.guard.command, vec!["make", "ci"]);
}

#[test]
fn empty_guard_override_is_rejected() {
    let overrides = CaseConfig {
        max_iterations: Some(0),
        max_attempts_default: None,
        guard: Some(GuardOverride { command: Vec::new() }),
    };
    assert_eq!(
        apply_case_config(RunnerConfig::default(), &overrides).unwrap_err(),
        "guard.command must be a non-empty array"
    );
}

#[test]
fn runner_completed_reflects_exit_code() {
    let checks = vec![Check::RunnerCompleted];
    let result = run_checks(
        &checks,
        vec![Observation::NotRun],
        Some(0),
        CommandLimits::default_limits(),
    )
    .expect("checks");
    match &result.checks[0] {
        CheckOutcome::RunnerCompleted { passed, .. } => assert!(*passed),
        _ => panic!("expected runner_completed"),
    }
}

#[test]
fn runner_completed_fails_on_nonzero_exit() {
    let checks = vec![Check::RunnerCompleted];
    let result = run_checks(&checks, vec![Observation::NotRun], Some(3), CommandLimits::default_limits())
        .expect("checks");
    match &result.checks[0] {
        CheckOutcome::RunnerCompleted { passed, exit_code } => {
            assert!(!*passed);
            assert_eq!(*exit_code, Some(3));
        }
        _ => panic!("expected runner_completed"),
    }
}

#[test]
fn file_and_command_checks_use_observations() {
    let checks = vec![
        Check::FileExists { path: "main.go".to_string() },
        Check::CommandSucceeds { cmd: vec!["go".to_string(), "build".to_string()] },
    ];
    let run = CommandRun {
        exit_code: Some(0),
        success: true,
        timed_out: false,
        stdout: b"ok\xff".to_vec(),
        stderr: Vec::new(),
    };
    let limits = CommandLimits { timeout_secs: 5, output_limit_bytes: 2 };
    let result = run_checks(
        &checks,
        vec![Observation::PathFound(true), Observation::CommandRan(run)],
        Some(0),
        limits,
    )
    .expect("checks");
    match &result.checks[0] {
        CheckOutcome::FileExists { path, passed } => {
            assert_eq!(path, "main.go");
            assert!(*passed);
        }
        _ => panic!("expected file_exists"),
    }
    match &result.checks[1] {
        CheckOutcome::CommandSucceeds { passed, stdout, stdout_truncated, .. } => {
            assert!(*passed);
            assert_eq!(stdout, "ok");
            assert!(*stdout_truncated);
        }
        _ => panic!("expected command_succeeds"),
    }
}

#[test]
fn mismatched_observation_is_an_error() {
    let checks = vec![Check::CommandSucceeds { cmd: vec!["true".to_string()] }];
    let err = run_checks(&checks, vec![Observation::NotRun], Some(0), CommandLimits::default_limits())
        .unwrap_err();
    assert_eq!(err, "command_succeeds check was not run");
}

fn judgment(pass: bool) -> Judgment {
    Judgment {
        checks: vec![CheckOutcome::RunnerCompleted {
            passed: pass,
            exit_code: Some(0),
        }],
    }
}

#[test]
fn success_when_complete_and_checks_pass() {
    assert_eq!(classify_outcome(Some(0), &judgment(true)), Outcome::Success);
}

#[test]
fn fail_when_complete_but_checks_fail() {
    assert_eq!(classify_outcome(Some(0), &judgment(false)), Outcome::Fail);
}

#[test]
fn stuck_when_runner_stuck() {
    assert_eq!(classify_outcome(Some(3), &judgment(true)), Outcome::Stuck);
}

#[test]
fn error_when_runner_error_or_unknown() {
    assert_eq!(classify_outcome(Some(1), &judgment(true)), Outcome::Error);
    assert_eq!(classify_outcome(Some(2), &judgment(true)), Outcome::Error);
    assert_eq!(classify_outcome(None, &judgment(true)), Outcome::Error);
}

#[test]
fn results_dir_is_stable() {
    let dir = results_dir("/tmp/results", "case", "run-1");
    assert_eq!(dir, "/tmp/results/case/run-1");
}

#[test]
fn workspace_name_uses_expected_format() {
    let name = build_workspace_name("case", "20260118_120000", "abc123");
    assert_eq!(name, "case_20260118_120000_abc123");
}

fn case_file(id: &str, checks: Vec<Check>) -> CaseFile {
    CaseFile {
        case: CaseMeta {
            id: id.to_string(),
            goal: "do the thing".to_string(),
        },
        config: CaseConfig::default(),
        env: Vec::new(),
        checks,
    }
}

#[test]
fn parses_valid_case() {
    let mut case = case_file(
        "calculator-go",
        vec![
            Check::FileExists { path: "main.go".to_string() },
            Check::CommandSucceeds {
                cmd: vec!["go".to_string(), "build".to_string(), ".".to_string()],
            },
            Check::RunnerCompleted,
        ],
    );
    case.config = CaseConfig {
        max_iterations: Some(12),
        max_attempts_default: Some(2),
        guard: Some(GuardOverride {
            command: vec!["just".to_string(), "ci".to_string()],
        }),
    };
    case.validate().expect("case parses");
    assert_eq!(case.case.id, "calculator-go");
    assert_eq!(case.checks.len(), 3);
}

#[test]
fn rejects_invalid_id() {
    let case = case_file("bad/id", vec![Check::RunnerCompleted]);
    let err = case.validate().expect_err("invalid id");
    assert!(err.contains("case.id"));
}

#[test]
fn rejects_malformed_checks() {
    let case = case_file("calculator-go", vec![Check::CommandSucceeds { cmd: Vec::new() }]);
    let err = case.validate().expect_err("invalid check");
    assert!(err.starts_with("checks[0] invalid"));
}

#[test]
fn rejects_case_without_checks() {
    let case = case_file("calculator-go", Vec::new());
    assert_eq!(case.validate().unwrap_err(), "checks must be a non-empty array");
}

#[test]
fn rejects_dotdot_case_id() {
    let case = case_file("a..b", vec![Check::RunnerCompleted]);
    assert_eq!(case.validate().unwrap_err(), "case.id must not contain '..'");
}

#[test]
fn test_content_hash_deterministic() {
    let content = "Hello, world!";
    let hash1 = content_hash(content);
    let hash2 = content_hash(content);
    assert_eq!(hash1, hash2);
    assert_eq!(hash1.len(), 16);
}

#[test]
fn test_content_hash_different_inputs() {
    assert_ne!(content_hash("Hello"), content_hash("World"));
}

#[test]
fn content_hash_is_sha256_prefix() {
    // First eight bytes of SHA-256("abc"), hex-encoded.
    assert_eq!(content_hash("abc"), "ba7816bf8f01cfea");
}

#[test]
fn test_cache_path() {
    let cache = ResultCache::new("/tmp/lab");
    let path = cache.cache_path("decomposer", "abc123", "test_input");
    assert!(path.ends_with("results/decomposer/abc123/test_input.json"));
}

#[test]
fn test_strip_section_markers() {
    let input = "<!-- section:contract required -->\nContent\n<!-- section:goal droppable -->\nMore";
    assert_eq!(strip_section_markers(input), "\nContent\n\nMore");
}

#[test]
fn cases_are_ordered_by_id() {
    let cases = vec![
        case_file("zeta", vec![Check::RunnerCompleted]),
        case_file("alpha", vec![Check::RunnerCompleted]),
        case_file("mid", vec![Check::RunnerCompleted]),
    ];
    let ordered = order_cases(cases).expect("ordered");
    let ids: Vec<&str> = ordered.iter().map(|c| c.case.id.as_str()).collect();
    assert_eq!(ids, vec!["alpha", "mid", "zeta"]);
}

#[test]
fn duplicate_case_ids_are_refused() {
    let cases = vec![
        case_file("b", vec![Check::RunnerCompleted]),
        case_file("a", vec![Check::RunnerCompleted]),
        case_file("b", vec![Check::RunnerCompleted]),
    ];
    assert_eq!(order_cases(cases).unwrap_err(), "duplicate case.id b");
}

#[test]
fn latest_workspace_requires_link_repo_and_files() {
    let mut probe = LatestProbe {
        link_target: None,
        root_exists: true,
        has_git: true,
        has_files: true,
    };
    let err = resolve_latest("/ws", "calc", &probe).unwrap_err();
    assert_eq!(err, "no latest workspace for case 'calc': symlink /ws/calc_latest does not exist");
    probe.link_target = Some("calc_1_abc".to_string());
    probe.has_git = false;
    let err = resolve_latest("/ws", "calc", &probe).unwrap_err();
    assert!(err.contains("is not a git repository: /ws/calc_1_abc has no .git/"));
    probe.has_git = true;
    let ws = resolve_latest("/ws", "calc", &probe).expect("workspace");
    assert_eq!(ws.root, "/ws/calc_1_abc");
    assert_eq!(ws.name, "calc_1_abc");
}

fn selected_node() -> SelectedNode {
    SelectedNode {
        id: "n1".to_string(),
        title: "Parser".to_string(),
        goal: "parse input".to_string(),
        acceptance: vec!["tests pass".to_string()],
        next: NodeNext::Decompose,
    }
}

fn lab_input() -> TestInput {
    TestInput {
        id: "in-1".to_string(),
        name: "first".to_string(),
        selected_node: selected_node(),
        tree_summary: None,
        context_goal: "build it".to_string(),
        context_history: Some("tried once".to_string()),
        context_failure: None,
        assumptions: None,
        questions: None,
        expected_decision: Some("Decompose".to_string()),
    }
}

#[test]
fn lab_prompt_renders_input_and_strips_markers() {
    let template = "<!-- section:goal required -->Goal: {{ goal }}\nTitle: {{ selected.title }} at {{ selected.path }}\n{% for a in selected.acceptance %}- {{ a }}\n{% endfor %}{% if failure %}F{% endif %}";
    let out = render_lab_prompt(template, &lab_input()).expect("render");
    assert_eq!(out, "Goal: build it\nTitle: Parser at root/Parser\n- tests pass\n");
}

#[test]
fn lab_prompt_reports_template_errors() {
    let err = render_lab_prompt("{% if %}", &lab_input()).unwrap_err();
    assert!(!err.is_empty());
}

fn child(next: NodeNext) -> TreeChildSpec {
    TreeChildSpec {
        title: "c".to_string(),
        goal: "g".to_string(),
        acceptance: Vec::new(),
        next,
    }
}

#[test]
fn combination_verdict_compares_lowercase() {
    let output = DecompositionOutput {
        summary: "s".to_string(),
        children: vec![child(NodeNext::Execute), child(NodeNext::Decompose)],
    };
    let (actual, matches) = combination_verdict(&Some("DECOMPOSE".to_string()), &Some(output.clone()));
    assert_eq!(actual, Some("decompose".to_string()));
    assert_eq!(matches, Some(true));
    let exec = DecompositionOutput {
        summary: "s".to_string(),
        children: vec![child(NodeNext::Execute)],
    };
    assert_eq!(decision_label(&exec), "execute");
    let (_, matches) = combination_verdict(&Some("decompose".to_string()), &Some(exec));
    assert_eq!(matches, Some(false));
    assert_eq!(combination_verdict(&None, &Some(output)).1, None);
}

fn combo(prompt: &str, input: &str) -> CombinationResult {
    CombinationResult {
        prompt_name: prompt.to_string(),
        prompt_hash: "h".to_string(),
        input_id: input.to_string(),
        input_name: input.to_string(),
        expected_decision: None,
        actual_decision: None,
        matches_expected: None,
        output: None,
        error: None,
        duration_ms: 0,
        timestamp: "0".to_string(),
    }
}

#[test]
fn index_lists_each_name_once_in_order() {
    let results = vec![combo("v2", "b"), combo("v1", "a"), combo("v2", "a")];
    let (prompts, inputs) = index_names(&results);
    assert_eq!(prompts, vec!["v1", "v2"]);
    assert_eq!(inputs, vec!["a", "b"]);
}

#[test]
fn combination_status_labels() {
    let mut r = combo("p", "i");
    assert_eq!(combination_status(&r), "ok");
    r.matches_expected = Some(true);
    assert_eq!(combination_status(&r), "pass");
    r.matches_expected = Some(false);
    assert_eq!(combination_status(&r), "fail");
    r.error = Some("boom".to_string());
    assert_eq!(combination_status(&r), "error");
}

#[test]
fn case_digest_is_full_sha256_hex() {
    assert_eq!(
        content_digest(b"abc"),
        "ba7816bf8f01cfea414140de5dae2223b00361a396177a9cb410ff61f20015ad"
    );
}

#[test]
fn tally_counts_outcomes_and_pass_rates() {
    let checks = vec![
        CheckOutcome::RunnerCompleted { passed: true, exit_code: Some(0) },
        CheckOutcome::RunnerCompleted { passed: false, exit_code: Some(0) },
        CheckOutcome::FileExists { path: "a.txt".to_string(), passed: true },
    ];
    let rates = tally_checks(&checks);
    assert_eq!(
        rates,
        vec![("file_exists(a.txt)".to_string(), 1, 1), ("runner_completed".to_string(), 1, 2)]
    );
    let outcomes = vec![Some(Outcome::Success), Some(Outcome::Fail), None, Some(Outcome::Stuck)];
    assert_eq!(count_outcomes(&outcomes), (1, 1, 1, 1));
}

fn command_run(exit: i32, stdout: &[u8]) -> CommandRun {
    CommandRun {
        exit_code: Some(exit),
        success: exit == 0,
        timed_out: false,
        stdout: stdout.to_vec(),
        stderr: Vec::new(),
    }
}

#[test]
fn command_succeeds_passes_and_fails() {
    let limits = CommandLimits { timeout_secs: 5, output_limit_bytes: 1024 };
    let checks = vec![Check::CommandSucceeds {
        cmd: vec!["sh".to_string(), "-c".to_string(), "exit 0".to_string()],
    }];
    let result = run_checks(&checks, vec![Observation::CommandRan(command_run(0, b""))], None, limits).expect("checks");
    match &result.checks[0] {
        CheckOutcome::CommandSucceeds { passed, .. } => assert!(*passed),
        _ => panic!("expected command_succeeds"),
    }
    let checks = vec![Check::CommandSucceeds {
        cmd: vec!["sh".to_string(), "-c".to_string(), "exit 1".to_string()],
    }];
    let result = run_checks(&checks, vec![Observation::CommandRan(command_run(1, b""))], None, limits).expect("checks");
    match &result.checks[0] {
        CheckOutcome::CommandSucceeds { passed, .. } => assert!(!*passed),
        _ => panic!("expected command_succeeds"),
    }
}

#[test]
fn command_output_is_truncated() {
    let limits = CommandLimits { timeout_secs: 5, output_limit_bytes: 4 };
    let checks = vec![Check::CommandSucceeds {
        cmd: vec!["sh".to_string(), "-c".to_string(), "printf 'abcdef'".to_string()],
    }];
    let result =
        run_checks(&checks, vec![Observation::CommandRan(command_run(0, b"abcdef"))], None, limits).expect("checks");
    match &result.checks[0] {
        CheckOutcome::CommandSucceeds { stdout_truncated, stdout, .. } => {
            assert!(*stdout_truncated);
            assert_eq!(stdout, "abcd");
        }
        _ => panic!("expected command_succeeds"),
    }
}

#[test]
fn test_render_minimal_template() {
    let input = TestInput {
        id: "test".to_string(),
        name: "Test".to_string(),
        selected_node: SelectedNode {
            id: "n1".to_string(),
            title: "Test Node".to_string(),
            goal: "Do something".to_string(),
            acceptance: vec![],
            next: NodeNext::Decompose,
        },
        tree_summary: None,
        context_goal: "Build feature".to_string(),
        context_history: None,
        context_failure: None,
        assumptions: None,
        questions: None,
        expected_decision: None,
    };
    let result = render_lab_prompt("Goal: {{ goal }}\nTitle: {{ selected.title }}", &input).unwrap();
    assert!(result.contains("Goal: Build feature"));
    assert!(result.contains("Title: Test Node"));
}

#[test]
fn schema_candidates_are_searched_in_order() {
    let with_parent = runner::prompt_lab::schema_candidates("/w/lab", Some("/w"), "decomposer_output");
    assert_eq!(
        with_parent,
        vec![
            "/w/lab/schemas/decomposer_output.json",
            "/w/schemas/decomposer_output.json",
            "/w/.runner/schemas/decomposer_output.json",
        ]
    );
    let alone = runner::prompt_lab::schema_candidates("lab", None, "s");
    assert_eq!(alone, vec!["lab/schemas/s.json"]);
    let present = vec![false, true, true];
    assert_eq!(runner::prompt_lab::first_present(&with_parent, &present), Some(1));
    assert_eq!(runner::prompt_lab::first_present(&with_parent, &vec![false, false, false]), None);
}

#[test]
fn probes_stop_at_refused_check() {
    let checks = vec![
        Check::FileExists { path: "README.md".to_string() },
        Check::RunnerCompleted,
        Check::CommandSucceeds { cmd: vec!["true".to_string()] },
        Check::CommandSucceeds { cmd: Vec::new() },
        Check::FileExists { path: "later".to_string() },
    ];
    let probes = probes_for(&checks);
    assert_eq!(probes.len(), 3);
    assert!(matches!(&probes[0], Probe::PathExists(p) if p == "README.md"));
    assert!(matches!(&probes[1], Probe::Nothing));
    assert!(matches!(&probes[2], Probe::RunCommand(c) if c == &vec!["true".to_string()]));
}

#[test]
fn short_id_is_six_lowercase_alphanumerics() {
    for _ in 0..20 {
        let id = runner::eval::workspace::generate_short_id();
        assert_eq!(id.chars().count(), 6);
        assert!(id.chars().all(|c| c.is_ascii_lowercase() || c.is_ascii_digit()));
    }
}

#[test]
fn short_id_lowercases_the_drawn_characters() {
    assert_eq!(runner::eval::workspace::short_id_from("AbC9zQ"), "abc9zq");
    assert_eq!(runner::eval::workspace::short_id_from("012345"), "012345");
}
