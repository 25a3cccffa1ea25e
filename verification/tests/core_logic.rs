use runner::logic::child_additions::validate_child_additions_restricted;
use runner::logic::classifier::classify_changed_paths;
use runner::logic::immutability::check_passed_node_immutability;
use runner::logic::path::node_path;
use runner::logic::selector::{is_stuck, leftmost_open_leaf};
use runner::logic::state_update::apply_state_updates;
use runner::logic::status_validator::validate_status_invariants;
use runner::logic::types::{AgentStatus, GuardOutcome, Mode};
use runner::select::{select_leaf, SelectOutcome, SelectedLeaf};
use runner::tree::{default_tree, Node, NodeNext};

fn node(id: &str, order: i64) -> Node {
    Node {
        id: id.to_string(),
        order,
        title: format!("{} title", id),
        goal: format!("{} goal", id),
        acceptance: Vec::new(),
        next: NodeNext::Decompose,
        passes: false,
        attempts: 0,
        max_attempts: 3,
        children: Vec::new(),
    }
}

fn leaf(id: &str, order: i64, passes: bool) -> Node {
    let mut n = node(id, order);
    n.passes = passes;
    n
}

fn node_with_children(id: &str, order: i64, children: Vec<Node>) -> Node {
    let mut n = node(id, order);
    n.children = children;
    n
}

fn node_with_attempts(id: &str, order: i64, attempts: u32, max_attempts: u32) -> Node {
    let mut n = node(id, order);
    n.attempts = attempts;
    n.max_attempts = max_attempts;
    n
}

#[test]
fn rejects_new_children_on_other_nodes() {
    let prev = node_with_children("root", 0, vec![node_with_children("a", 0, Vec::new()), node("b", 1)]);
    let mut next = prev.clone();
    next.children[0].children.push(node("a1", 0));

    let errors = validate_child_additions_restricted(&prev, &next, Some("b"));
    assert_eq!(errors, vec!["node 'a' gained new children: a1".to_string()]);
}

#[test]
fn allows_new_children_only_on_allowed_parent() {
    let prev = node_with_children("root", 0, vec![node_with_children("a", 0, Vec::new())]);
    let mut next = prev.clone();
    next.children[0].children.push(node("a1", 0));
    next.children[0].children.push(node("a2", 1));

    let errors = validate_child_additions_restricted(&prev, &next, Some("a"));
    assert!(errors.is_empty());
}

#[test]
fn detects_replacements_even_when_child_count_is_unchanged() {
    let prev = node_with_children("root", 0, vec![node_with_children("a", 0, vec![node("x", 0)])]);
    let mut next = prev.clone();
    next.children[0].children.clear();
    next.children[0].children.push(node("y", 0));

    let errors = validate_child_additions_restricted(&prev, &next, None);
    assert_eq!(errors, vec!["node 'a' gained new children: y".to_string()]);
}

#[test]
fn classify_empty_paths_is_decompose() {
    let paths: Vec<String> = Vec::new();
    assert_eq!(classify_changed_paths(&paths), Mode::Decompose);
}

#[test]
fn classify_only_runner_paths_is_decompose() {
    let paths = vec![".runner/GOAL.md".to_string(), "./.runner/state/tree.json".to_string()];
    assert_eq!(classify_changed_paths(&paths), Mode::Decompose);
}

#[test]
fn classify_mixed_paths_is_execute() {
    let paths = vec![".runner/GOAL.md".to_string(), "src/lib.rs".to_string()];
    assert_eq!(classify_changed_paths(&paths), Mode::Execute);
}

#[test]
fn classify_runner_subdir_not_prefix_is_execute() {
    let paths = vec!["src/.runner/tree.json".to_string()];
    assert_eq!(classify_changed_paths(&paths), Mode::Execute);
}

#[test]
fn classify_similar_prefix_is_execute() {
    let paths = vec![".runnerx/config".to_string()];
    assert_eq!(classify_changed_paths(&paths), Mode::Execute);
}

#[test]
fn immutability_allows_identical_passed_nodes() {
    let prev = node_with_children("root", 0, vec![leaf("a", 0, true)]);
    let next = node_with_children("root", 0, vec![leaf("a", 0, true)]);
    assert!(check_passed_node_immutability(&prev, &next).is_empty());
}

#[test]
fn immutability_reports_missing_passed_node() {
    let prev = node_with_children("root", 0, vec![leaf("a", 0, true)]);
    let next = node_with_children("root", 0, vec![leaf("b", 0, false)]);
    let errors = check_passed_node_immutability(&prev, &next);
    assert!(errors.iter().any(|err| err.contains("'a'")));
    assert!(errors.iter().any(|err| err.contains("missing")));
}

#[test]
fn immutability_reports_parent_move() {
    let prev = node_with_children("root", 0, vec![node_with_children("p1", 0, vec![leaf("a", 0, true)])]);
    let next = node_with_children("root", 0, vec![node_with_children("p2", 0, vec![leaf("a", 0, true)])]);
    let errors = check_passed_node_immutability(&prev, &next);
    assert!(errors.iter().any(|err| err.contains("'a'")));
    assert!(errors.iter().any(|err| err.contains("moved")));
}

#[test]
fn immutability_reports_changed_node() {
    let prev = node_with_children("root", 0, vec![leaf("a", 0, true)]);
    let mut changed = node("a", 0);
    changed.passes = true;
    changed.title = "mutated".to_string();
    let next = node_with_children("root", 0, vec![changed]);
    let errors = check_passed_node_immutability(&prev, &next);
    assert!(errors.iter().any(|err| err.contains("'a'")));
    assert!(errors.iter().any(|err| err.contains("changed")));
}

#[test]
fn immutability_allows_open_node_edits_and_removals() {
    let prev = node_with_children("root", 0, vec![leaf("a", 0, false)]);
    let mut edited = node("a", 0);
    edited.goal = "updated goal".to_string();
    let next = node_with_children("root", 0, vec![edited, leaf("b", 1, false)]);
    assert!(check_passed_node_immutability(&prev, &next).is_empty());

    let next_removed = node_with_children("root", 0, vec![leaf("b", 0, false)]);
    assert!(check_passed_node_immutability(&prev, &next_removed).is_empty());
}

#[test]
fn node_path_returns_root_for_root_id() {
    let root = Node {
        id: "root".to_string(),
        order: 0,
        title: "Root".to_string(),
        goal: "Root".to_string(),
        acceptance: Vec::new(),
        next: NodeNext::Decompose,
        passes: false,
        attempts: 0,
        max_attempts: 3,
        children: Vec::new(),
    };

    assert_eq!(node_path(&root, "root"), Some("root".to_string()));
}

#[test]
fn leftmost_open_leaf_traversal_cases() {
    let single = leaf("a", 0, false);
    assert_eq!(leftmost_open_leaf(&single).map(|n| &n.id), Some(&"a".into()));

    let passed = leaf("a", 0, true);
    assert!(leftmost_open_leaf(&passed).is_none());

    let all_passed = node_with_children("root", 0, vec![leaf("a", 0, true), leaf("b", 1, true)]);
    assert!(leftmost_open_leaf(&all_passed).is_none());

    let ordered = node_with_children("root", 0, vec![leaf("second", 1, false), leaf("first", 0, false)]);
    let mut sorted = ordered.clone();
    sorted.sort_children();
    assert_eq!(leftmost_open_leaf(&sorted).map(|n| &n.id), Some(&"first".into()));

    let deep = node_with_children(
        "root",
        0,
        vec![node_with_children("branch", 0, vec![node_with_children("subbranch", 0, vec![leaf("deep", 0, false)])])],
    );
    assert_eq!(leftmost_open_leaf(&deep).map(|n| &n.id), Some(&"deep".into()));

    let wide = node_with_children(
        "root",
        0,
        vec![leaf("passed", 0, true), leaf("open", 1, false), leaf("also-open", 2, false)],
    );
    assert_eq!(leftmost_open_leaf(&wide).map(|n| &n.id), Some(&"open".into()));
}

#[test]
fn is_stuck_edge_cases() {
    let maxed = node_with_attempts("n", 0, 3, 3);
    assert!(is_stuck(&maxed));

    let mut passed = node_with_attempts("n", 0, 3, 3);
    passed.passes = true;
    assert!(!is_stuck(&passed));

    let has_attempts = node_with_attempts("n", 0, 1, 3);
    assert!(!is_stuck(&has_attempts));

    let no_attempts = node_with_attempts("n", 0, 0, 3);
    assert!(!is_stuck(&no_attempts));
}

#[test]
fn apply_state_updates_overwrites_runner_owned_fields() {
    let prev = node_with_children("root", 0, vec![leaf("a", 0, false)]);
    let mut next = node_with_children("root", 0, vec![leaf("a", 0, true)]);
    next.children[0].attempts = 5;

    let summary = apply_state_updates(&prev, &mut next, "a", AgentStatus::Decomposed, GuardOutcome::Skipped)
        .expect("state update");

    assert!(!next.children[0].passes);
    assert_eq!(next.children[0].attempts, 0);
    assert!(summary.passes_set.is_empty());
    assert!(summary.attempts_incremented.is_empty());
}

#[test]
fn apply_state_updates_sets_pass_and_derives_internal_passes() {
    let mut prev = node_with_children("root", 0, vec![leaf("a", 0, false), leaf("b", 1, true)]);
    prev.passes = false;
    let mut next = prev.clone();

    let summary = apply_state_updates(&prev, &mut next, "a", AgentStatus::Done, GuardOutcome::Pass).expect("state update");

    assert!(next.children[0].passes);
    assert!(next.passes);
    assert_eq!(summary.passes_set, vec!["a".to_string()]);
    assert_eq!(summary.derived_passes_set, vec!["root".to_string()]);
}

#[test]
fn apply_state_updates_increments_attempts_on_guard_fail() {
    let mut prev = node_with_children("root", 0, vec![leaf("a", 0, false)]);
    prev.children[0].attempts = 1;
    prev.children[0].max_attempts = 2;
    let mut next = prev.clone();

    let summary = apply_state_updates(&prev, &mut next, "a", AgentStatus::Done, GuardOutcome::Fail).expect("state update");

    assert_eq!(next.children[0].attempts, 2);
    assert_eq!(summary.attempts_incremented, vec!["a".to_string()]);
}

#[test]
fn apply_state_updates_saturates_attempts_at_max() {
    let mut prev = node_with_children("root", 0, vec![leaf("a", 0, false)]);
    prev.children[0].attempts = 2;
    prev.children[0].max_attempts = 2;
    let mut next = prev.clone();

    let summary = apply_state_updates(&prev, &mut next, "a", AgentStatus::Done, GuardOutcome::Fail).expect("state update");

    assert_eq!(next.children[0].attempts, 2);
    assert!(summary.attempts_incremented.is_empty());
}

#[test]
fn apply_state_updates_errors_on_missing_selected_id() {
    let prev = node_with_children("root", 0, vec![leaf("a", 0, false)]);
    let mut next = prev.clone();
    let err = apply_state_updates(&prev, &mut next, "missing", AgentStatus::Decomposed, GuardOutcome::Skipped)
        .expect_err("expected error");
    assert!(err.contains("missing"));
}

#[test]
fn apply_state_updates_resets_new_nodes() {
    let prev = node_with_children("root", 0, vec![leaf("a", 0, false)]);
    let mut new_node = node("b", 1);
    new_node.passes = true;
    new_node.attempts = 9;
    let mut next = node_with_children("root", 0, vec![leaf("a", 0, false), new_node]);

    let summary = apply_state_updates(&prev, &mut next, "a", AgentStatus::Decomposed, GuardOutcome::Skipped)
        .expect("state update");

    assert!(!next.children[1].passes);
    assert_eq!(next.children[1].attempts, 0);
    assert!(summary.passes_set.is_empty());
}

#[test]
fn apply_state_updates_decompose_does_not_mark_pass() {
    let prev = node_with_children("root", 0, vec![leaf("a", 0, false)]);
    let mut next = node_with_children("root", 0, vec![leaf("a", 0, true)]);

    let summary = apply_state_updates(&prev, &mut next, "a", AgentStatus::Decomposed, GuardOutcome::Skipped)
        .expect("state update");

    assert!(!next.children[0].passes);
    assert!(summary.passes_set.is_empty());
}

#[test]
fn apply_state_updates_happy_path_transition() {
    let prev = node_with_children(
        "root",
        0,
        vec![node_with_children("group", 0, vec![leaf("a", 0, false), leaf("b", 1, true)]), leaf("c", 1, false)],
    );
    let mut next = prev.clone();
    next.children.push(node("new", 2));

    let summary = apply_state_updates(&prev, &mut next, "a", AgentStatus::Done, GuardOutcome::Pass).expect("state update");

    let group = &next.children[0];
    assert!(group.children[0].passes);
    assert!(group.passes);
    assert!(!next.passes);
    assert!(summary.passes_set.contains(&"a".to_string()));
    assert!(summary.derived_passes_set.contains(&"group".to_string()));
}

#[test]
fn apply_state_updates_increments_attempts_on_retry() {
    let mut prev = node_with_children("root", 0, vec![leaf("a", 0, false)]);
    prev.children[0].attempts = 1;
    prev.children[0].max_attempts = 3;
    let mut next = prev.clone();

    let summary = apply_state_updates(&prev, &mut next, "a", AgentStatus::Retry, GuardOutcome::Skipped).expect("state update");

    assert_eq!(next.children[0].attempts, 2);
    assert_eq!(summary.attempts_incremented, vec!["a".to_string()]);
}

#[test]
fn apply_state_updates_retry_saturates_attempts_at_max() {
    let mut prev = node_with_children("root", 0, vec![leaf("a", 0, false)]);
    prev.children[0].attempts = 2;
    prev.children[0].max_attempts = 2;
    let mut next = prev.clone();

    let summary = apply_state_updates(&prev, &mut next, "a", AgentStatus::Retry, GuardOutcome::Skipped).expect("state update");

    assert_eq!(next.children[0].attempts, 2);
    assert!(summary.attempts_incremented.is_empty());
}

#[test]
fn decomposed_requires_children_added() {
    let prev = node_with_children("root", 0, vec![leaf("a", 0, false)]);
    let next = prev.clone();
    let errors = validate_status_invariants(&prev, &next, "a", AgentStatus::Decomposed);
    assert_eq!(
        errors,
        vec!["status=decomposed but selected node 'a' did not gain children (prev=0, next=0)".to_string()]
    );
}

#[test]
fn done_rejects_children_added() {
    let prev = node_with_children("root", 0, vec![leaf("a", 0, false)]);
    let mut next = prev.clone();
    next.children[0].children.push(leaf("a1", 0, false));
    let errors = validate_status_invariants(&prev, &next, "a", AgentStatus::Done);
    assert_eq!(errors, vec!["status=done but selected node 'a' gained children (prev=0, next=1)".to_string()]);
}

#[test]
fn retry_rejects_children_added() {
    let prev = node_with_children("root", 0, vec![leaf("a", 0, false)]);
    let mut next = prev.clone();
    next.children[0].children.push(leaf("a1", 0, false));
    let errors = validate_status_invariants(&prev, &next, "a", AgentStatus::Retry);
    assert_eq!(errors, vec!["status=retry but selected node 'a' gained children (prev=0, next=1)".to_string()]);
}

#[test]
fn decomposed_allows_children_added() {
    let prev = node_with_children("root", 0, vec![leaf("a", 0, false)]);
    let mut next = prev.clone();
    next.children[0].children.push(leaf("a1", 0, false));
    assert!(validate_status_invariants(&prev, &next, "a", AgentStatus::Decomposed).is_empty());
}

#[test]
fn errors_when_selected_missing() {
    let prev = node_with_children("root", 0, vec![]);
    let next = prev.clone();
    let errors = validate_status_invariants(&prev, &next, "missing", AgentStatus::Done);
    assert_eq!(errors, vec!["selected node 'missing' missing in prev tree".to_string()]);
}

fn tree_with_passed_node() -> Node {
    let mut done = node("done", 0);
    done.title = "Done node".to_string();
    done.passes = true;
    let mut open = node("open", 1);
    open.title = "Open node".to_string();
    let mut root = node_with_children("root", 0, vec![done, open]);
    root.title = "Root".to_string();
    root
}

fn tree_with_stuck_leaf() -> Node {
    let stuck = node_with_attempts("stuck", 0, 2, 2);
    node_with_children("root", 0, vec![stuck])
}

#[test]
fn select_returns_open_leaf() {
    let tree = tree_with_passed_node();
    let outcome = select_leaf(&tree).expect("select");
    assert_eq!(
        outcome,
        SelectOutcome::Open(SelectedLeaf {
            id: "open".to_string(),
            path: "root/open".to_string(),
            attempts: 0,
            max_attempts: 3,
        })
    );
}

#[test]
fn select_returns_stuck_leaf() {
    let tree = tree_with_stuck_leaf();
    let outcome = select_leaf(&tree).expect("select");
    assert_eq!(
        outcome,
        SelectOutcome::Stuck(SelectedLeaf {
            id: "stuck".to_string(),
            path: "root/stuck".to_string(),
            attempts: 2,
            max_attempts: 2,
        })
    );
}

#[test]
fn select_returns_complete_when_no_open_leaf() {
    let mut tree = default_tree();
    tree.passes = true;
    let outcome = select_leaf(&tree).expect("select");
    assert_eq!(outcome, SelectOutcome::Complete);
}

#[test]
fn sorting_children_is_stable() {
    let mut tree = node_with_children(
        "root",
        0,
        vec![
            node_with_children("b", 1, vec![node("b2", 2), node("b1", 1)]),
            node("c", 0),
            node("a", 1),
        ],
    );
    tree.sort_children();
    let ids: Vec<&str> = tree.children.iter().map(|c| c.id.as_str()).collect();
    assert_eq!(ids, vec!["c", "a", "b"]);
    let sub: Vec<&str> = tree.children[2].children.iter().map(|c| c.id.as_str()).collect();
    assert_eq!(sub, vec!["b1", "b2"]);
    let once = tree.clone();
    tree.sort_children();
    assert_eq!(tree, once);
}

#[test]
fn untouched_tree_keeps_passed_nodes() {
    let tree = node_with_children(
        "root",
        0,
        vec![
            node_with_children("a", 0, vec![leaf("a1", 0, true), leaf("a2", 1, false)]),
            leaf("b", 1, true),
        ],
    );
    assert!(check_passed_node_immutability(&tree, &tree).is_empty());
}

#[test]
fn untouched_tree_adds_no_children() {
    let tree = node_with_children(
        "root",
        0,
        vec![node_with_children("a", 0, vec![leaf("a1", 0, false)]), leaf("b", 1, true)],
    );
    assert!(validate_child_additions_restricted(&tree, &tree, None).is_empty());
    assert!(validate_child_additions_restricted(&tree, &tree, Some("a")).is_empty());
}

#[test]
fn sorted_order_is_stable_permutation() {
    let keys: Vec<String> = ["b", "a", "c", "a"].iter().map(|s| s.to_string()).collect();
    let order = runner::logic::strseq::sorted_order(&keys);
    assert_eq!(order, vec![1, 3, 0, 2]);
    assert!(runner::logic::strseq::sorted_order(&Vec::new()).is_empty());
}

#[test]
fn step_changes_only_runner_fields() {
    let prev = node_with_children("root", 0, vec![leaf("a", 1, false), leaf("b", 0, false)]);
    let mut next = prev.clone();
    next.children[0].title = "new title".to_string();
    next.children[0].attempts = 7;
    next.children[1].passes = true;
    next.children[1].goal = "new goal".to_string();
    apply_state_updates(&prev, &mut next, "b", AgentStatus::Retry, GuardOutcome::Skipped).expect("update");
    assert_eq!(next.children[0].id, "b");
    assert_eq!(next.children[0].goal, "new goal");
    assert!(!next.children[0].passes);
    assert_eq!(next.children[0].attempts, 1);
    assert_eq!(next.children[1].id, "a");
    assert_eq!(next.children[1].title, "new title");
    assert_eq!(next.children[1].attempts, 0);
}

#[test]
fn decomposition_adds_children_only_under_selected() {
    let prev = node_with_children(
        "root",
        0,
        vec![node_with_children("a", 0, vec![leaf("a.1", 0, false)]), leaf("b", 1, false)],
    );
    let specs = vec![
        runner::logic::types::TreeChildSpec {
            title: "first".to_string(),
            goal: "g1".to_string(),
            acceptance: Vec::new(),
            next: NodeNext::Execute,
        },
        runner::logic::types::TreeChildSpec {
            title: "second".to_string(),
            goal: "g2".to_string(),
            acceptance: vec!["works".to_string()],
            next: NodeNext::Decompose,
        },
    ];
    let next = runner::step::decompose_tree(&prev, "a", &specs, 3).expect("decompose");
    let ids: Vec<&str> = next.children[0].children.iter().map(|c| c.id.as_str()).collect();
    assert_eq!(ids, vec!["a.1", "a.2", "a.3"]);
    assert!(validate_child_additions_restricted(&prev, &next, Some("a")).is_empty());
    assert!(!validate_child_additions_restricted(&prev, &next, None).is_empty());
}

#[test]
fn decomposition_keeps_tree_valid() {
    let prev = node_with_children(
        "root",
        0,
        vec![node_with_children("a", 0, vec![leaf("a.2", 5, false)]), leaf("b", 1, false)],
    );
    assert!(runner::logic::invariants::validate_invariants(&prev).is_empty());
    let specs = vec![runner::logic::types::TreeChildSpec {
        title: "new".to_string(),
        goal: "g".to_string(),
        acceptance: Vec::new(),
        next: NodeNext::Execute,
    }];
    let next = runner::step::decompose_tree(&prev, "a", &specs, 2).expect("decompose");
    let ids: Vec<&str> = next.children[0].children.iter().map(|c| c.id.as_str()).collect();
    assert_eq!(ids, vec!["a.1", "a.2"]);
    assert!(runner::logic::invariants::validate_invariants(&next).is_empty());
}

#[test]
fn valid_tree_has_unique_ids() {
    let ok = node_with_children("root", 0, vec![leaf("a", 0, false), leaf("b", 1, false)]);
    assert!(runner::logic::invariants::validate_invariants(&ok).is_empty());
    let dup = node_with_children("root", 0, vec![leaf("a", 0, false), leaf("a", 1, false)]);
    let errors = runner::logic::invariants::validate_invariants(&dup);
    assert_eq!(errors, vec!["duplicate id 'a' at root/a".to_string()]);
}

#[test]
fn sorting_children_keeps_equal_keys_in_order() {
    let mut first = node("x", 1);
    first.title = "first".to_string();
    let mut second = node("x", 1);
    second.title = "second".to_string();
    let mut tree = node_with_children("root", 0, vec![first, node("a", 2), second, node("b", 0)]);
    tree.sort_children();
    let seen: Vec<(&str, &str)> = tree.children.iter().map(|c| (c.id.as_str(), c.title.as_str())).collect();
    assert_eq!(seen, vec![("b", "b title"), ("x", "first"), ("x", "second"), ("a", "a title")]);
}

#[test]
fn sorted_tree_has_no_order_errors() {
    let mut bad = leaf("a", 1, false);
    bad.max_attempts = 0;
    let mut tree = node_with_children(
        "root",
        0,
        vec![node_with_children("a", 2, vec![leaf("z", 1, false), leaf("y", 0, false)]), bad],
    );
    let before = runner::logic::invariants::validate_invariants(&tree);
    assert!(before.iter().any(|e| e.ends_with("children must be sorted by (order,id)")));
    tree.sort_children();
    let after = runner::logic::invariants::validate_invariants(&tree);
    assert!(!after.iter().any(|e| e.ends_with("children must be sorted by (order,id)")));
    assert!(after.iter().any(|e| e.starts_with("duplicate id 'a'")));
    assert!(after.iter().any(|e| e.ends_with("max_attempts must be > 0")));
}
