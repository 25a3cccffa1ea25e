//! The decisions of one `runner step` iteration.
//!
//! A step reads state, lets agents work and runs guards; between those
//! effects it decides what the selected node is, what the agents are told,
//! how a decomposition grows the tree, whether an agent kept its contract,
//! how runner-owned state changes and what is recorded. Those decisions live
//! here; the effects are carried out by the caller.

use vstd::prelude::*;

use crate::io::run_state::RunState;
use crate::logic::types::{guard_label, status_label, AgentOutput, AgentStatus, GuardOutcome, TreeChildSpec};
use crate::scan::{child_id, lemma_free_child_index};
use crate::text::{decimal, join, join_strings, push_char, u64_to_string};
use crate::logic::child_additions::{child_addition_errors, validate_child_additions_restricted};
use crate::logic::immutability::{check_passed_node_immutability, immutability_errors};
use crate::logic::path::{node_path, node_path_spec};
use crate::logic::selector::{is_stuck, leftmost_open_leaf, open_leaf, stuck};
use crate::logic::state_update::{apply_state_updates, reset_tree, updated_tree};
use crate::logic::status_validator::{status_errors, validate_status_invariants};
use crate::logic::strseq::{sort_strings, sort_strs};
use crate::logic::types::TreeDecision;
use crate::tree::{
    find_first, find_first_forest, find_node, forest_view, lemma_forest_view, preorder_ids,
    preorder_ids_forest, sorted_tree, strings_view, Node, NodeNext, NodeV,
};

verus! {

/// Configuration for a single step iteration.
#[derive(Debug, Clone)]
pub struct StepConfig {
    /// Maximum bytes for the prompt pack before dropping sections.
    pub prompt_budget_bytes: usize,
}

impl Default for StepConfig {
    /// A prompt budget of 40 000 bytes.
    fn default() -> (r: Self)
        ensures
            r.prompt_budget_bytes == 40_000,
    {
        StepConfig { prompt_budget_bytes: 40_000 }
    }
}

/// Result of a single step iteration.
#[derive(Debug, Clone)]
pub struct StepOutcome {
    /// Identifier for the current execution run.
    pub run_id: String,
    /// Iteration number (1-indexed).
    pub iter: u32,
    /// ID of the node that was worked on.
    pub selected_id: String,
    /// Status declared by the agent.
    pub status: AgentStatus,
    /// Guard outcome (pass/fail/skipped).
    pub guard: GuardOutcome,
}

/// A stuck leaf was selected (hard stop).
#[derive(Debug, Clone, PartialEq, Eq)]
pub struct StuckLeafError {
    pub id: String,
    pub path: String,
    pub attempts: u32,
    pub max_attempts: u32,
}

impl StuckLeafError {
    /// `stuck leaf selected (hard-stop): id=<id> path=<path> attempts=<a>/<m>`.
    pub fn message(&self) -> (r: String)
        ensures
            r@ == "stuck leaf selected (hard-stop): id="@ + self.id@ + " path="@ + self.path@
                + " attempts="@ + decimal(self.attempts as nat) + "/"@ + decimal(
                self.max_attempts as nat,
            ),
    {
        let mut m = String::from_str("stuck leaf selected (hard-stop): id=");
        m.append(self.id.as_str());
        m.append(" path=");
        m.append(self.path.as_str());
        m.append(" attempts=");
        m.append(u64_to_string(self.attempts as u64).as_str());
        m.append("/");
        m.append(u64_to_string(self.max_attempts as u64).as_str());
        m
    }
}

/// The run reached its configured iteration limit.
///
/// `next_iter` is the *next* iteration number to run (1-indexed).
#[derive(Debug, Clone, PartialEq, Eq)]
pub struct MaxIterationsExceededError {
    pub next_iter: u32,
    pub max_iterations: u32,
}

impl MaxIterationsExceededError {
    /// `max iterations exceeded: next_iter=<n> max_iterations=<m>`.
    pub fn message(&self) -> (r: String)
        ensures
            r@ == "max iterations exceeded: next_iter="@ + decimal(self.next_iter as nat)
                + " max_iterations="@ + decimal(self.max_iterations as nat),
    {
        let mut m = String::from_str("max iterations exceeded: next_iter=");
        m.append(u64_to_string(self.next_iter as u64).as_str());
        m.append(" max_iterations=");
        m.append(u64_to_string(self.max_iterations as u64).as_str());
        m
    }
}

/// Why a step did not run an agent.
#[derive(Debug, Clone, PartialEq, Eq)]
pub enum StepError {
    /// The selected leaf has exhausted its attempts.
    Stuck(StuckLeafError),
    /// The run reached its iteration limit.
    MaxIterations(MaxIterationsExceededError),
    /// Any other failure, with its message.
    Other(String),
}

/// A step may run iteration `next_iter` only while it does not exceed
/// `max_iterations`.
pub fn check_iteration_limit(next_iter: u32, max_iterations: u32) -> (r: Result<(), MaxIterationsExceededError>)
    ensures
        r is Ok <==> next_iter <= max_iterations,
        r matches Err(e) ==> e.next_iter == next_iter && e.max_iterations == max_iterations,
{
    if next_iter > max_iterations {
        return Err(MaxIterationsExceededError { next_iter, max_iterations });
    }
    Ok(())
}

/// Items listed one per line, each as `- <item>`.
pub open spec fn bullet_lines(items: Seq<Seq<char>>) -> Seq<char>
    decreases items.len(),
{
    if items.len() == 0 {
        Seq::empty()
    } else {
        bullet_lines(items.drop_last()) + "- "@ + items.last() + "\n"@
    }
}

/// The goal context written for a node: its title, goal and acceptance list.
pub open spec fn goal_text(n: NodeV) -> Seq<char> {
    let head = "title: "@ + n.title + "\n"@ + "goal: "@ + n.goal + "\n"@;
    if n.acceptance.len() > 0 {
        head + "\nacceptance:\n"@ + bullet_lines(n.acceptance)
    } else {
        head
    }
}

/// The goal context for `node`: title, goal and acceptance criteria.
pub fn render_goal(node: &Node) -> (r: String)
    ensures
        r@ == goal_text(node@),
{
    let mut buf = String::from_str("title: ");
    buf.append(node.title.as_str());
    buf.append("\n");
    buf.append("goal: ");
    buf.append(node.goal.as_str());
    buf.append("\n");
    if node.acceptance.len() > 0 {
        let ghost head = buf@;
        buf.append("\nacceptance:\n");
        let ghost items = strings_view(node.acceptance@);
        let mut i: usize = 0;
        while i < node.acceptance.len()
            invariant
                items == strings_view(node.acceptance@),
                i <= node.acceptance@.len(),
                buf@ == head + "\nacceptance:\n"@ + bullet_lines(items.take(i as int)),
            decreases node.acceptance@.len() - i,
        {
            proof {
                assert(items.take(i + 1).drop_last() =~= items.take(i as int));
                assert(items.take(i + 1).last() == node.acceptance@[i as int]@);
            }
            buf.append("- ");
            buf.append(node.acceptance[i].as_str());
            buf.append("\n");
            i = i + 1;
        }
        proof {
            assert(items.take(node.acceptance@.len() as int) =~= items);
        }
    } else {
        proof {
            assert(strings_view(node.acceptance@).len() == 0);
        }
    }
    buf
}

/// The previous summary is shown to the agent only after a retry.
pub fn history_from_run_state(run_state: &RunState) -> (r: Option<String>)
    ensures
        r == (if run_state.last_status == Some(AgentStatus::Retry) {
            run_state.last_summary
        } else {
            None
        }),
{
    match run_state.last_status {
        Some(AgentStatus::Retry) => run_state.last_summary.clone(),
        _ => None,
    }
}

/// The iteration whose guard log is replayed to the agent: the previous one,
/// when it declared `done` and its guards failed. Runner-internal errors are
/// never replayed.
pub fn failure_source_iter(run_state: &RunState, iter: u32) -> (r: Option<u32>)
    ensures
        r == (if run_state.last_status == Some(AgentStatus::Done) && run_state.last_guard == Some(
            GuardOutcome::Fail,
        ) && iter > 1 {
            Some((iter - 1) as u32)
        } else {
            None
        }),
{
    match (run_state.last_status, run_state.last_guard) {
        (Some(AgentStatus::Done), Some(GuardOutcome::Fail)) => {
            if iter > 1 {
                Some(iter - 1)
            } else {
                None
            }
        },
        _ => None,
    }
}

/// `depth` levels of two-space indentation.
pub open spec fn indent(depth: nat) -> Seq<char>
    decreases depth,
{
    if depth == 0 {
        Seq::empty()
    } else {
        indent((depth - 1) as nat) + "  "@
    }
}

/// `true` or `false`.
pub open spec fn bool_text(b: bool) -> Seq<char> {
    if b {
        "true"@
    } else {
        "false"@
    }
}

/// One line of the tree summary for node `n` at `depth`.
pub open spec fn summary_line(n: NodeV, depth: nat) -> Seq<char> {
    indent(depth) + "- "@ + n.id + " (passes="@ + bool_text(n.passes) + ", attempts="@ + decimal(
        n.attempts as nat,
    ) + "/"@ + decimal(n.max_attempts as nat) + ")"@
}

/// The summary lines of `t` and its subtree, parents before children.
pub open spec fn summary_lines(t: NodeV, depth: nat) -> Seq<Seq<char>>
    decreases t, 1int,
{
    seq![summary_line(t, depth)] + summary_lines_forest(t.children, depth + 1)
}

/// The summary lines of the trees of `s`, tree after tree.
pub open spec fn summary_lines_forest(s: Seq<NodeV>, depth: nat) -> Seq<Seq<char>>
    decreases s, 0int,
{
    if s.len() == 0 {
        Seq::empty()
    } else {
        summary_lines(s[0], depth) + summary_lines_forest(s.drop_first(), depth)
    }
}

proof fn lemma_summary_step(s: Seq<NodeV>, i: int, depth: nat)
    requires
        0 <= i < s.len(),
    ensures
        summary_lines_forest(s.subrange(0, i + 1), depth) == summary_lines_forest(s.subrange(0, i), depth)
            + summary_lines(s[i], depth),
    decreases i,
{
    if i == 0 {
        let one = s.subrange(0, 1);
        assert(one[0] == s[0]);
        assert(one.drop_first() =~= Seq::<NodeV>::empty());
        assert(s.subrange(0, 0) =~= Seq::<NodeV>::empty());
        assert(summary_lines(s[0], depth) + Seq::<Seq<char>>::empty() =~= summary_lines(s[0], depth));
        assert(Seq::<Seq<char>>::empty() + summary_lines(s[0], depth) =~= summary_lines(s[0], depth));
    } else {
        let d = s.drop_first();
        lemma_summary_step(d, i - 1, depth);
        let p1 = s.subrange(0, i + 1);
        let p0 = s.subrange(0, i);
        assert(p1[0] == s[0]);
        assert(p0[0] == s[0]);
        assert(p1.drop_first() =~= d.subrange(0, i));
        assert(p0.drop_first() =~= d.subrange(0, i - 1));
        assert(d[i - 1] == s[i]);
        let a = summary_lines(s[0], depth);
        let b = summary_lines_forest(d.subrange(0, i - 1), depth);
        let c = summary_lines(s[i], depth);
        assert(a + (b + c) =~= (a + b) + c);
    }
}

/// The first `m` elements of `s`, or all of `s` when it is shorter.
pub open spec fn first_n<A>(s: Seq<A>, m: int) -> Seq<A> {
    if s.len() <= m {
        s
    } else {
        s.take(m)
    }
}

proof fn lemma_first_n_concat(a: Seq<Seq<char>>, b: Seq<Seq<char>>, m: int)
    requires
        0 <= m,
    ensures
        first_n(first_n(a, m) + b, m) == first_n(a + b, m),
{
    if a.len() >= m {
        assert(first_n(first_n(a, m) + b, m) =~= a.take(m));
        assert(first_n(a + b, m) =~= a.take(m));
    }
}

fn summary_line_text(node: &Node, indent_text: &String, Ghost(depth): Ghost<nat>) -> (r: String)
    requires
        indent_text@ == indent(depth),
    ensures
        r@ == summary_line(node@, depth),
{
    let mut s = indent_text.clone();
    s.append("- ");
    s.append(node.id.as_str());
    s.append(" (passes=");
    s.append(if node.passes { "true" } else { "false" });
    s.append(", attempts=");
    s.append(u64_to_string(node.attempts as u64).as_str());
    s.append("/");
    s.append(u64_to_string(node.max_attempts as u64).as_str());
    s.append(")");
    s
}

fn summarize_tree_inner(
    node: &Node,
    indent_text: &String,
    Ghost(depth): Ghost<nat>,
    max_nodes: usize,
    lines: &mut Vec<String>,
)
    requires
        indent_text@ == indent(depth),
        old(lines)@.len() <= max_nodes,
    ensures
        strings_view(final(lines)@) == first_n(strings_view(old(lines)@) + summary_lines(node@, depth), max_nodes as int),
        final(lines)@.len() <= max_nodes,
    decreases node@,
{
    let ghost start = strings_view(lines@);
    if lines.len() >= max_nodes {
        proof {
            assert(first_n(start + summary_lines(node@, depth), max_nodes as int) =~= start);
        }
        return;
    }
    let line = summary_line_text(node, indent_text, Ghost(depth));
    lines.push(line);
    proof {
        lemma_forest_view(node.children@);
        assert(strings_view(lines@) =~= start.push(summary_line(node@, depth)));
    }
    let mut child_indent = indent_text.clone();
    child_indent.append("  ");
    let ghost cs = node@.children;
    let ghost head = start.push(summary_line(node@, depth));
    let mut i: usize = 0;
    proof {
        assert(cs.subrange(0, 0) =~= Seq::<NodeV>::empty());
        assert(head + Seq::<Seq<char>>::empty() =~= head);
        assert(head.len() <= max_nodes);
        assert(first_n(head, max_nodes as int) =~= head);
    }
    while i < node.children.len()
        invariant
            cs == node@.children,
            cs.len() == node.children@.len(),
            forall|k: int| 0 <= k < cs.len() ==> #[trigger] cs[k] == node.children@[k]@,
            i <= cs.len(),
            child_indent@ == indent(depth + 1),
            lines@.len() <= max_nodes,
            strings_view(lines@) == first_n(head + summary_lines_forest(cs.subrange(0, i as int), depth + 1), max_nodes as int),
        decreases cs.len() - i,
    {
        proof {
            assert(decreases_to!(node@ => cs[i as int]));
            lemma_summary_step(cs, i as int, depth + 1);
        }
        let ghost before = strings_view(lines@);
        summarize_tree_inner(&node.children[i], &child_indent, Ghost(depth + 1), max_nodes, lines);
        proof {
            let x = head + summary_lines_forest(cs.subrange(0, i as int), depth + 1);
            let y = summary_lines(cs[i as int], depth + 1);
            lemma_first_n_concat(x, y, max_nodes as int);
            assert(x + y =~= head + summary_lines_forest(cs.subrange(0, i + 1), depth + 1));
        }
        i = i + 1;
    }
    proof {
        assert(cs.subrange(0, cs.len() as int) =~= cs);
        assert(head + summary_lines_forest(cs, depth + 1) =~= start + summary_lines(node@, depth));
    }
}

/// The tree summary shown to agents: the first `max_nodes` summary lines of
/// the tree, joined by line feeds.
pub open spec fn tree_summary(t: NodeV, max_nodes: nat) -> Seq<char> {
    join(first_n(summary_lines(t, 0), max_nodes as int), "\n"@)
}

/// One line per node (`- <id> (passes=<b>, attempts=<a>/<m>)`, indented by
/// depth), at most `max_nodes` of them, parents before children.
pub fn summarize_tree(root: &Node, max_nodes: usize) -> (r: String)
    ensures
        r@ == tree_summary(root@, max_nodes as nat),
{
    let mut lines: Vec<String> = Vec::new();
    let indent_text = String::new();
    proof {
        assert(indent_text@ =~= indent(0));
    }
    summarize_tree_inner(root, &indent_text, Ghost(0), max_nodes, &mut lines);
    proof {
        assert(strings_view(Seq::<String>::empty()) + summary_lines(root@, 0) =~= summary_lines(root@, 0));
    }
    join_strings(&lines, "\n")
}

/// The commit message recorded for an iteration.
pub open spec fn commit_message_text(
    run_id: Seq<char>,
    iter: u32,
    node_id: Seq<char>,
    status: AgentStatus,
    guard: GuardOutcome,
) -> Seq<char> {
    "chore(loop): run "@ + run_id + " iter "@ + decimal(iter as nat) + " node "@ + node_id + " status="@
        + status_label(status) + " guard="@ + guard_label(guard)
}

/// `chore(loop): run <run_id> iter <iter> node <node_id> status=<s> guard=<g>`.
pub fn commit_message(run_id: &str, iter: u32, node_id: &str, status: AgentStatus, guard: GuardOutcome) -> (r: String)
    ensures
        r@ == commit_message_text(run_id@, iter, node_id@, status, guard),
{
    let mut m = String::from_str("chore(loop): run ");
    m.append(run_id);
    m.append(" iter ");
    m.append(u64_to_string(iter as u64).as_str());
    m.append(" node ");
    m.append(node_id);
    m.append(" status=");
    m.append(status.label());
    m.append(" guard=");
    m.append(guard.label());
    m
}

/// Whether `n` is the smallest index from 1 whose child id is unused.
pub open spec fn least_free_at(parent: Seq<char>, used: Seq<Seq<char>>, n: nat) -> bool {
    &&& n >= 1
    &&& !used.contains(child_id(parent, n))
    &&& forall|m: nat| 1 <= m < n ==> used.contains(#[trigger] child_id(parent, m))
}

/// The smallest index from 1 whose child id `<parent>.<n>` is not in `used`.
pub open spec fn least_free(parent: Seq<char>, used: Seq<Seq<char>>) -> nat {
    choose|n: nat| least_free_at(parent, used, n)
}

/// There is exactly one smallest free index.
pub proof fn lemma_least_free(parent: Seq<char>, used: Seq<Seq<char>>)
    ensures
        least_free_at(parent, used, least_free(parent, used)),
        least_free(parent, used) <= used.len() + 1,
        forall|n: nat| #[trigger] least_free_at(parent, used, n) ==> n == least_free(parent, used),
{
    lemma_free_child_index(parent, used);
    let w = choose|n: nat| 1 <= n <= used.len() + 1 && !used.contains(#[trigger] child_id(parent, n));
    let k = lemma_least_below(parent, used, w);
    assert forall|n: nat| #[trigger] least_free_at(parent, used, n) implies n == k by {
        if n < k {
            assert(used.contains(child_id(parent, n)));
        } else if n > k {
            assert(used.contains(child_id(parent, k)));
        }
    }
}

proof fn lemma_least_below(parent: Seq<char>, used: Seq<Seq<char>>, w: nat) -> (k: nat)
    requires
        w >= 1,
        !used.contains(child_id(parent, w)),
    ensures
        least_free_at(parent, used, k),
        k <= w,
    decreases w,
{
    if forall|m: nat| 1 <= m < w ==> used.contains(#[trigger] child_id(parent, m)) {
        w
    } else {
        let m = choose|m: nat| 1 <= m < w && !used.contains(#[trigger] child_id(parent, m));
        lemma_least_below(parent, used, m)
    }
}

/// The smallest free child id of `parent_id` given the ids in `used_ids`:
/// `<parent_id>.<n>` for the least `n >= 1` not yet taken.
pub fn allocate_child_id(parent_id: &str, used_ids: &Vec<String>) -> (r: String)
    requires
        used_ids@.len() < u64::MAX,
    ensures
        r@ == child_id(parent_id@, least_free(parent_id@, strings_view(used_ids@))),
{
    let ghost used = strings_view(used_ids@);
    proof {
        lemma_least_free(parent_id@, used);
    }
    let limit: u64 = used_ids.len() as u64 + 1;
    let mut n: u64 = 1;
    while n <= limit
        invariant
            used == strings_view(used_ids@),
            limit == used.len() + 1,
            1 <= n <= limit + 1,
            forall|m: nat| 1 <= m < n ==> used.contains(#[trigger] child_id(parent_id@, m)),
            least_free_at(parent_id@, used, least_free(parent_id@, used)),
            least_free(parent_id@, used) <= used.len() + 1,
        decreases limit + 1 - n,
    {
        let mut id = parent_id.to_string();
        push_char(&mut id, '.');
        id.append(u64_to_string(n).as_str());
        proof {
            assert(id@ =~= child_id(parent_id@, n as nat));
        }
        if !crate::logic::strseq::contains_str(used_ids, id.as_str()) {
            proof {
                assert(least_free_at(parent_id@, used, n as nat));
                lemma_least_free(parent_id@, used);
            }
            return id;
        }
        n = n + 1;
    }
    proof {
        let f = least_free(parent_id@, used);
        assert(used.contains(child_id(parent_id@, f)));
    }
    String::new()
}

/// The ids of the tree, depth-first with parents before children.
pub fn collect_ids(node: &Node, out: &mut Vec<String>)
    ensures
        strings_view(final(out)@) == strings_view(old(out)@) + preorder_ids(node@),
    decreases node@,
{
    let ghost start = strings_view(out@);
    out.push(node.id.clone());
    proof {
        lemma_forest_view(node.children@);
        assert(strings_view(out@) =~= start.push(node@.id));
    }
    let ghost cs = node@.children;
    let mut i: usize = 0;
    proof {
        assert(cs.subrange(0, 0) =~= Seq::<NodeV>::empty());
        assert(start.push(node@.id) + Seq::<Seq<char>>::empty() =~= start.push(node@.id));
    }
    while i < node.children.len()
        invariant
            cs == node@.children,
            cs.len() == node.children@.len(),
            forall|k: int| 0 <= k < cs.len() ==> #[trigger] cs[k] == node.children@[k]@,
            i <= cs.len(),
            strings_view(out@) == start.push(node@.id) + preorder_ids_forest(cs.subrange(0, i as int)),
        decreases cs.len() - i,
    {
        proof {
            assert(decreases_to!(node@ => cs[i as int]));
            crate::tree::lemma_ids_step(cs, i as int);
        }
        collect_ids(&node.children[i], out);
        proof {
            assert(start.push(node@.id) + preorder_ids_forest(cs.subrange(0, i as int)) + preorder_ids(cs[i as int])
                =~= start.push(node@.id) + preorder_ids_forest(cs.subrange(0, i + 1)));
        }
        i = i + 1;
    }
    proof {
        assert(cs.subrange(0, cs.len() as int) =~= cs);
        assert(start.push(node@.id) + preorder_ids_forest(cs) =~= start + preorder_ids(node@));
    }
}

/// The ids allocated, one after another, for `k` new children of `parent`.
pub open spec fn allocated_ids(parent: Seq<char>, used: Seq<Seq<char>>, k: nat) -> Seq<Seq<char>>
    decreases k,
{
    if k == 0 {
        Seq::empty()
    } else {
        let p = allocated_ids(parent, used, (k - 1) as nat);
        p.push(child_id(parent, least_free(parent, used + p)))
    }
}

/// The node the runner creates for child specification `c`.
pub open spec fn new_child(c: TreeChildSpec, id: Seq<char>, order: int, max_attempts: u32) -> NodeV {
    NodeV {
        id,
        order: order as i64,
        title: c.title@,
        goal: c.goal@,
        acceptance: strings_view(c.acceptance@),
        next: c.next,
        passes: false,
        attempts: 0,
        max_attempts,
        children: Seq::empty(),
    }
}

/// The nodes created for the child specifications `cs` of `parent`.
pub open spec fn new_children(parent: Seq<char>, used: Seq<Seq<char>>, cs: Seq<TreeChildSpec>, max_attempts: u32) -> Seq<NodeV> {
    Seq::new(cs.len(), |i: int| new_child(cs[i], allocated_ids(parent, used, cs.len())[i], i, max_attempts))
}

/// `t` with `kids` appended to the children of its first node whose id is `id`.
pub open spec fn append_first(t: NodeV, id: Seq<char>, kids: Seq<NodeV>) -> NodeV
    decreases t, 1int,
{
    if t.id == id {
        NodeV { children: t.children + kids, ..t }
    } else {
        NodeV { children: append_first_forest(t.children, id, kids), ..t }
    }
}

pub open spec fn append_first_forest(s: Seq<NodeV>, id: Seq<char>, kids: Seq<NodeV>) -> Seq<NodeV>
    decreases s, 0int,
{
    if s.len() == 0 {
        s
    } else if find_first(s[0], id) is Some {
        seq![append_first(s[0], id, kids)] + s.drop_first()
    } else {
        seq![s[0]] + append_first_forest(s.drop_first(), id, kids)
    }
}

/// The tree after decomposing node `id` of `prev` into `cs`.
pub open spec fn decomposed_tree(prev: NodeV, id: Seq<char>, cs: Seq<TreeChildSpec>, max_attempts: u32) -> NodeV {
    sorted_tree(append_first(prev, id, new_children(id, preorder_ids(prev), cs, max_attempts)))
}

proof fn lemma_append_forest_skip(cs: Seq<NodeV>, k: int, id: Seq<char>, kids: Seq<NodeV>)
    requires
        0 <= k < cs.len(),
    ensures
        cs.skip(k)[0] == cs[k],
        cs.skip(k).drop_first() =~= cs.skip(k + 1),
        find_first(cs[k], id) is Some ==> append_first_forest(cs.skip(k), id, kids) == seq![append_first(cs[k], id, kids)] + cs.skip(k + 1),
        find_first(cs[k], id) is None ==> append_first_forest(cs.skip(k), id, kids) == seq![cs[k]] + append_first_forest(cs.skip(k + 1), id, kids),
{
    assert(cs.skip(k)[0] == cs[k]);
    assert(cs.skip(k).drop_first() =~= cs.skip(k + 1));
}

fn append_children_first(node: &mut Node, id: &str, kids: &Vec<Node>)
    ensures
        final(node)@ == append_first(old(node)@, id@, forest_view(kids@)),
    decreases old(node)@,
{
    proof {
        lemma_forest_view(kids@);
        lemma_forest_view(node.children@);
    }
    if crate::text::str_eq(node.id.as_str(), id) {
        let ghost before = node.children@;
        let mut i: usize = 0;
        while i < kids.len()
            invariant
                i <= kids@.len(),
                forest_view(node.children@) == forest_view(before) + forest_view(kids@).take(i as int),
                node.id@ == old(node)@.id,
                node.order == old(node).order,
                node.title@ == old(node)@.title,
                node.goal@ == old(node)@.goal,
                strings_view(node.acceptance@) == old(node)@.acceptance,
                node.next == old(node).next,
                node.passes == old(node).passes,
                node.attempts == old(node).attempts,
                node.max_attempts == old(node).max_attempts,
                before == old(node).children@,
            decreases kids@.len() - i,
        {
            let ghost cur = node.children@;
            let c = kids[i].deep_clone();
            node.children.push(c);
            proof {
                lemma_forest_view(cur);
                lemma_forest_view(node.children@);
                lemma_forest_view(kids@);
                assert(forest_view(node.children@) =~= forest_view(cur).push(c@));
                assert(forest_view(kids@).take(i + 1) =~= forest_view(kids@).take(i as int).push(kids@[i as int]@));
            }
            i = i + 1;
        }
        proof {
            lemma_forest_view(kids@);
            assert(forest_view(kids@).take(kids@.len() as int) =~= forest_view(kids@));
            lemma_forest_view(before);
            assert(node@.children =~= old(node)@.children + forest_view(kids@));
        }
        return;
    }
    let ghost old_children = node.children@;
    let ghost cs = old(node)@.children;
    let ghost ks = forest_view(kids@);
    proof {
        lemma_forest_view(old_children);
    }
    let mut rest: Vec<Node> = Vec::new();
    std::mem::swap(&mut rest, &mut node.children);
    let n: usize = rest.len();
    let mut out: Vec<Node> = Vec::new();
    let mut done = false;
    let mut k: usize = 0;
    proof {
        lemma_forest_view(out@);
        assert(cs.take(0) =~= Seq::<NodeV>::empty());
        assert(cs.skip(0) =~= cs);
        assert(forest_view(out@) =~= cs.take(0));
        assert(cs.take(0) + append_first_forest(cs.skip(0), id@, ks) =~= append_first_forest(cs, id@, ks));
    }
    while rest.len() > 0
        invariant
            rest@ == old_children.subrange(k as int, n as int),
            n == old_children.len(),
            k <= n,
            rest@.len() == n - k,
            cs == old(node)@.children,
            ks == forest_view(kids@),
            cs.len() == n,
            forall|i: int| 0 <= i < n ==> #[trigger] cs[i] == old_children[i]@,
            !done ==> forest_view(out@) == cs.take(k as int),
            !done ==> append_first_forest(cs, id@, ks) == cs.take(k as int) + append_first_forest(cs.skip(k as int), id@, ks),
            done ==> forest_view(out@) + cs.skip(k as int) == append_first_forest(cs, id@, ks),
        decreases n - k,
    {
        let mut c = rest.remove(0);
        proof {
            assert(c == old_children[k as int]);
            assert(c@ == cs[k as int]);
            assert(decreases_to!(old(node)@ => cs[k as int]));
            lemma_append_forest_skip(cs, k as int, id@, ks);
        }
        let ghost before = out@;
        let ghost was_done = done;
        if !done && find_node(&c, id).is_some() {
            append_children_first(&mut c, id, kids);
            done = true;
        }
        out.push(c);
        proof {
            lemma_forest_view(before);
            lemma_forest_view(out@);
            assert(forest_view(out@) =~= forest_view(before).push(c@));
            assert(rest@ =~= old_children.subrange(k + 1, n as int));
            if was_done {
                assert(cs.skip(k as int) =~= seq![cs[k as int]] + cs.skip(k + 1));
                assert(forest_view(out@) + cs.skip(k + 1) =~= forest_view(before) + cs.skip(k as int));
            } else if done {
                assert(forest_view(out@) + cs.skip(k + 1) =~= cs.take(k as int) + (seq![append_first(cs[k as int], id@, ks)] + cs.skip(k + 1)));
            } else {
                assert(cs.take(k + 1) =~= cs.take(k as int).push(cs[k as int]));
                assert(cs.take(k as int) + (seq![cs[k as int]] + append_first_forest(cs.skip(k + 1), id@, ks))
                    =~= cs.take(k + 1) + append_first_forest(cs.skip(k + 1), id@, ks));
            }
        }
        k = k + 1;
    }
    node.children = out;
    proof {
        assert(cs.take(n as int) =~= cs);
        assert(cs.skip(n as int) =~= Seq::<NodeV>::empty());
        assert(append_first_forest(cs.skip(n as int), id@, ks) == Seq::<NodeV>::empty());
        assert(cs + Seq::<NodeV>::empty() =~= cs);
        assert(forest_view(node.children@) + Seq::<NodeV>::empty() =~= forest_view(node.children@));
    }
}

/// Appends runner-built children for `children` under the first node with id
/// `selected_id`: ids are the smallest free `<selected_id>.<n>`, `order` is the
/// position in `children`, attempts start at 0 with `max_attempts_default`.
/// The result is sorted.
pub fn decompose_tree(
    prev_tree: &Node,
    selected_id: &str,
    children: &[TreeChildSpec],
    max_attempts_default: u32,
) -> (r: Result<Node, String>)
    requires
        preorder_ids(prev_tree@).len() + children@.len() < u64::MAX,
    ensures
        r is Ok <==> find_first(prev_tree@, selected_id@) is Some,
        r matches Ok(t) ==> t@ == decomposed_tree(prev_tree@, selected_id@, children@, max_attempts_default),
        r matches Err(e) ==> e@ == "selected node '"@ + selected_id@ + "' not found in tree"@,
{
    if find_node(prev_tree, selected_id).is_none() {
        let mut m = String::from_str("selected node '");
        m.append(selected_id);
        m.append("' not found in tree");
        return Err(m);
    }
    let mut used: Vec<String> = Vec::new();
    collect_ids(prev_tree, &mut used);
    let ghost base = preorder_ids(prev_tree@);
    proof {
        assert(strings_view(used@) =~= base);
    }
    let ghost all_ids = allocated_ids(selected_id@, base, children@.len());
    let mut kids: Vec<Node> = Vec::new();
    let mut idx: usize = 0;
    while idx < children.len()
        invariant
            idx <= children@.len(),
            base.len() + children@.len() < u64::MAX,
            strings_view(used@) == base + allocated_ids(selected_id@, base, idx as nat),
            kids@.len() == idx,
            forall|j: int| 0 <= j < idx ==> #[trigger] kids@[j]@ == new_child(
                children@[j],
                allocated_ids(selected_id@, base, idx as nat)[j],
                j,
                max_attempts_default,
            ),
        decreases children@.len() - idx,
    {
        proof {
            lemma_allocated_len(selected_id@, base, idx as nat);
            assert(strings_view(used@).len() == used@.len());
        }
        let id = allocate_child_id(selected_id, &used);
        let ghost prev_ids = allocated_ids(selected_id@, base, idx as nat);
        let ghost used_before = used@;
        used.push(id.clone());
        proof {
            assert(strings_view(used@) =~= strings_view(used_before).push(id@));
        }
        let child = &children[idx];
        let node = Node {
            id,
            order: idx as i64,
            title: child.title.clone(),
            goal: child.goal.clone(),
            acceptance: crate::tree::clone_strings(&child.acceptance),
            next: child.next,
            passes: false,
            attempts: 0,
            max_attempts: max_attempts_default,
            children: Vec::new(),
        };
        kids.push(node);
        proof {
            let nxt = allocated_ids(selected_id@, base, (idx + 1) as nat);
            assert(nxt == prev_ids.push(id@));
            assert(strings_view(used@) =~= base + nxt);
            lemma_forest_view(Seq::<Node>::empty());
            assert forall|j: int| 0 <= j < idx + 1 implies #[trigger] kids@[j]@ == new_child(
                children@[j],
                nxt[j],
                j,
                max_attempts_default,
            ) by {
                if j < idx {
                    assert(nxt[j] == prev_ids[j]);
                } else {
                    assert(kids@[j] == node);
                    assert(node@.children =~= Seq::<NodeV>::empty());
                }
            }
        }
        idx = idx + 1;
    }
    proof {
        lemma_forest_view(kids@);
        assert(forest_view(kids@) =~= new_children(selected_id@, base, children@, max_attempts_default));
    }
    let mut next_tree = prev_tree.deep_clone();
    append_children_first(&mut next_tree, selected_id, &kids);
    next_tree.sort_children();
    Ok(next_tree)
}

proof fn lemma_allocated_len(parent: Seq<char>, used: Seq<Seq<char>>, k: nat)
    ensures
        allocated_ids(parent, used, k).len() == k,
    decreases k,
{
    if k > 0 {
        lemma_allocated_len(parent, used, (k - 1) as nat);
    }
}

/// What one attempt at the selected node produced.
#[derive(Debug, Clone)]
pub struct AttemptOutcome {
    /// The output recorded for the iteration.
    pub output: AgentOutput,
    /// The guard outcome recorded for the iteration.
    pub guard: GuardOutcome,
    /// The tree written after the iteration.
    pub tree: Node,
    /// Text for `runner_error.log`, when the iteration hit a problem.
    pub error_log: Option<String>,
}

/// The error text when the selected node is missing from a tree.
pub open spec fn not_found_text(id: Seq<char>) -> Seq<char> {
    "selected node '"@ + id + "' not found"@
}

/// The error text when runner-owned state could not be updated.
pub open spec fn state_update_failure(id: Seq<char>) -> Seq<char> {
    "state update failed: "@ + not_found_text(id)
}

/// Records a retry of the selected node with `summary` as its output: the
/// selected node's attempts grow as `retry` dictates, runner-owned fields of
/// every node keep their previous values.
pub fn apply_agent_retry(prev_tree: &Node, selected_id: &str, summary: String) -> (r: Result<(AgentOutput, Node), String>)
    ensures
        r is Ok <==> find_first(reset_tree(prev_tree@, prev_tree@), selected_id@) is Some,
        r matches Ok((out, t)) ==> out.status == AgentStatus::Retry && out.summary == summary && t@ == updated_tree(
            prev_tree@,
            prev_tree@,
            selected_id@,
            AgentStatus::Retry,
            GuardOutcome::Skipped,
        ),
        r matches Err(e) ==> e@ == state_update_failure(selected_id@),
{
    let mut updated = prev_tree.deep_clone();
    match apply_state_updates(prev_tree, &mut updated, selected_id, AgentStatus::Retry, GuardOutcome::Skipped) {
        Ok(_) => Ok((AgentOutput { status: AgentStatus::Retry, summary }, updated)),
        Err(err) => {
            let mut m = String::from_str("state update failed: ");
            m.append(err.as_str());
            Err(m)
        },
    }
}

/// A retry attempt whose runner error log is `msg` and whose output summary is `msg`.
pub fn retry_with_message(prev_tree: &Node, selected_id: &str, msg: String) -> (r: Result<AttemptOutcome, String>)
    ensures
        r is Ok <==> find_first(reset_tree(prev_tree@, prev_tree@), selected_id@) is Some,
        r matches Ok(a) ==> a.output.status == AgentStatus::Retry && a.output.summary == msg && a.guard
            == GuardOutcome::Skipped && a.error_log == Some(msg) && a.tree@ == updated_tree(
            prev_tree@,
            prev_tree@,
            selected_id@,
            AgentStatus::Retry,
            GuardOutcome::Skipped,
        ),
        r matches Err(e) ==> e@ == state_update_failure(selected_id@),
{
    let (output, tree) = apply_agent_retry(prev_tree, selected_id, msg.clone())?;
    Ok(AttemptOutcome { output, guard: GuardOutcome::Skipped, tree, error_log: Some(msg) })
}

/// Errors joined by `; ` after a heading.
pub open spec fn error_list(heading: Seq<char>, errors: Seq<Seq<char>>) -> Seq<char> {
    heading + join(errors, "; "@)
}

/// Passed nodes of `prev` must be unchanged in `next`.
pub fn validate_post_exec_tree(prev: &Node, next: &Node) -> (r: Result<(), String>)
    ensures
        r is Ok <==> immutability_errors(prev@, next@).len() == 0,
        r matches Err(e) ==> e@ == error_list("immutability failed: "@, immutability_errors(prev@, next@)),
{
    let errors = check_passed_node_immutability(prev, next);
    if errors.len() > 0 {
        let mut m = String::from_str("immutability failed: ");
        m.append(join_strings(&errors, "; ").as_str());
        return Err(m);
    }
    Ok(())
}

/// The declared status must agree with how the tree changed.
pub fn validate_status(prev: &Node, next: &Node, selected_id: &str, status: AgentStatus) -> (r: Result<(), String>)
    ensures
        r is Ok <==> status_errors(prev@, next@, selected_id@, status).len() == 0,
        r matches Err(e) ==> e@ == error_list(
            "status invariants failed: "@,
            status_errors(prev@, next@, selected_id@, status),
        ),
{
    let errors = validate_status_invariants(prev, next, selected_id, status);
    proof {
        assert(strings_view(errors@) =~= errors@.map_values(|e: String| e@));
    }
    if errors.len() > 0 {
        let mut m = String::from_str("status invariants failed: ");
        m.append(join_strings(&errors, "; ").as_str());
        return Err(m);
    }
    Ok(())
}

/// Every contract violation of an executor's tree edit, in `String` order.
pub open spec fn contract_errors(prev: NodeV, next: NodeV, id: Seq<char>, status: AgentStatus) -> Seq<Seq<char>> {
    sort_strs(
        immutability_errors(prev, next) + child_addition_errors(prev, next, None) + status_errors(prev, next, id, status),
    )
}

/// The violation message when the executor broke its contract: passed nodes
/// changed, children added, or a status that disagrees with the tree.
pub fn contract_violation(prev: &Node, next: &Node, selected_id: &str, status: AgentStatus) -> (r: Option<String>)
    ensures
        r is None <==> contract_errors(prev@, next@, selected_id@, status).len() == 0,
        r matches Some(m) ==> m@ == error_list(
            "agent contract violation: "@,
            contract_errors(prev@, next@, selected_id@, status),
        ),
{
    let mut all = check_passed_node_immutability(prev, next);
    let adds = validate_child_additions_restricted(prev, next, None);
    let stat = validate_status_invariants(prev, next, selected_id, status);
    let ghost a0 = strings_view(all@);
    let mut i: usize = 0;
    while i < adds.len()
        invariant
            i <= adds@.len(),
            strings_view(all@) == a0 + strings_view(adds@).take(i as int),
        decreases adds@.len() - i,
    {
        let ghost before = all@;
        all.push(adds[i].clone());
        proof {
            assert(strings_view(all@) =~= strings_view(before).push(adds@[i as int]@));
            assert(strings_view(adds@).take(i + 1) =~= strings_view(adds@).take(i as int).push(adds@[i as int]@));
        }
        i = i + 1;
    }
    let ghost a1 = strings_view(all@);
    proof {
        assert(strings_view(adds@).take(adds@.len() as int) =~= strings_view(adds@));
        assert(strings_view(stat@) =~= stat@.map_values(|e: String| e@));
    }
    let mut j: usize = 0;
    while j < stat.len()
        invariant
            j <= stat@.len(),
            strings_view(all@) == a1 + strings_view(stat@).take(j as int),
        decreases stat@.len() - j,
    {
        let ghost before = all@;
        all.push(stat[j].clone());
        proof {
            assert(strings_view(all@) =~= strings_view(before).push(stat@[j as int]@));
            assert(strings_view(stat@).take(j + 1) =~= strings_view(stat@).take(j as int).push(stat@[j as int]@));
        }
        j = j + 1;
    }
    proof {
        assert(strings_view(stat@).take(stat@.len() as int) =~= strings_view(stat@));
    }
    if all.len() == 0 {
        proof {
            assert(sort_strs(strings_view(all@)).len() == 0) by {
                assert(strings_view(all@) =~= Seq::<Seq<char>>::empty());
            }
        }
        return None;
    }
    let sorted = sort_strings(all);
    proof {
        lemma_sort_len(strings_view(all@));
    }
    let mut m = String::from_str("agent contract violation: ");
    m.append(join_strings(&sorted, "; ").as_str());
    Some(m)
}

proof fn lemma_insert_len(s: Seq<Seq<char>>, x: Seq<char>)
    ensures
        crate::logic::strseq::insert_str(s, x).len() == s.len() + 1,
    decreases s.len(),
{
    if s.len() > 0 && !crate::text::seq_lt(x, s[0]) {
        lemma_insert_len(s.drop_first(), x);
    }
}

proof fn lemma_sort_len(s: Seq<Seq<char>>)
    ensures
        sort_strs(s).len() == s.len(),
    decreases s.len(),
{
    if s.len() > 0 {
        lemma_sort_len(s.drop_last());
        lemma_insert_len(sort_strs(s.drop_last()), s.last());
    }
}

/// The error text when a decomposition adds children elsewhere.
pub open spec fn restriction_failure(errors: Seq<Seq<char>>) -> Seq<char> {
    error_list("child-additions restriction failed after decomposition: "@, errors)
}

/// Why decomposing node `id` of `prev` into `cs` fails, if it does, in the
/// order the checks run.
pub open spec fn decompose_failure(prev: NodeV, id: Seq<char>, cs: Seq<TreeChildSpec>, max: u32) -> Option<Seq<char>> {
    let next = decomposed_tree(prev, id, cs, max);
    if find_first(prev, id) is None {
        Some("selected node '"@ + id + "' not found in tree"@)
    } else if child_addition_errors(prev, next, Some(id)).len() > 0 {
        Some(restriction_failure(child_addition_errors(prev, next, Some(id))))
    } else if immutability_errors(prev, next).len() > 0 {
        Some(error_list("immutability failed: "@, immutability_errors(prev, next)))
    } else if status_errors(prev, next, id, AgentStatus::Decomposed).len() > 0 {
        Some(error_list("status invariants failed: "@, status_errors(prev, next, id, AgentStatus::Decomposed)))
    } else if find_first(reset_tree(prev, next), id) is None {
        Some(state_update_failure(id))
    } else {
        None
    }
}

/// The message recorded when the tree agent asks to decompose without children.
pub open spec fn empty_decomposition_text() -> Seq<char> {
    "tree agent returned decision=decompose but children is empty"@
}

/// The attempt that follows a tree agent's `decompose` decision: an empty
/// child list is retried; otherwise the children are added, the result is
/// checked, and runner-owned state is updated for a `decomposed` status.
pub fn decompose_phase(
    prev_tree: &Node,
    selected_id: &str,
    decision: &TreeDecision,
    max_attempts_default: u32,
) -> (r: Result<AttemptOutcome, String>)
    requires
        preorder_ids(prev_tree@).len() + decision.children@.len() < u64::MAX,
    ensures
        decision.children@.len() == 0 ==> {
            &&& r is Ok <==> find_first(reset_tree(prev_tree@, prev_tree@), selected_id@) is Some
            &&& r matches Ok(a) ==> a.output.status == AgentStatus::Retry && a.output.summary@
                == empty_decomposition_text() && a.guard == GuardOutcome::Skipped && a.error_log
                == Some(a.output.summary) && a.tree@ == updated_tree(
                prev_tree@,
                prev_tree@,
                selected_id@,
                AgentStatus::Retry,
                GuardOutcome::Skipped,
            )
            &&& r matches Err(e) ==> e@ == state_update_failure(selected_id@)
        },
        decision.children@.len() > 0 ==> {
            let next = decomposed_tree(prev_tree@, selected_id@, decision.children@, max_attempts_default);
            &&& r is Ok <==> decompose_failure(prev_tree@, selected_id@, decision.children@, max_attempts_default) is None
            &&& r matches Err(e) ==> Some(e@) == decompose_failure(
                prev_tree@,
                selected_id@,
                decision.children@,
                max_attempts_default,
            )
            &&& r matches Ok(a) ==> a.output.status == AgentStatus::Decomposed && a.output.summary@
                == decision.summary@ && a.guard == GuardOutcome::Skipped && a.error_log is None && a.tree@
                == updated_tree(prev_tree@, next, selected_id@, AgentStatus::Decomposed, GuardOutcome::Skipped)
        },
{
    if decision.children.len() == 0 {
        let msg = String::from_str("tree agent returned decision=decompose but children is empty");
        return retry_with_message(prev_tree, selected_id, msg);
    }
    let next_tree = decompose_tree(prev_tree, selected_id, decision.children.as_slice(), max_attempts_default)?;
    let errors = validate_child_additions_restricted(prev_tree, &next_tree, Some(selected_id));
    if errors.len() > 0 {
        let mut m = String::from_str("child-additions restriction failed after decomposition: ");
        m.append(join_strings(&errors, "; ").as_str());
        return Err(m);
    }
    validate_post_exec_tree(prev_tree, &next_tree)?;
    validate_status(prev_tree, &next_tree, selected_id, AgentStatus::Decomposed)?;
    let output = AgentOutput { status: AgentStatus::Decomposed, summary: decision.summary.clone() };
    let mut updated = next_tree.deep_clone();
    match apply_state_updates(prev_tree, &mut updated, selected_id, AgentStatus::Decomposed, GuardOutcome::Skipped) {
        Ok(_) => Ok(AttemptOutcome { output, guard: GuardOutcome::Skipped, tree: updated, error_log: None }),
        Err(err) => {
            let mut m = String::from_str("state update failed: ");
            m.append(err.as_str());
            Err(m)
        },
    }
}

/// The attempt after the executor's output and the guard outcome are known:
/// runner-owned state is updated from the output and guards.
pub fn finish_execute(
    prev_tree: &Node,
    next_tree: &Node,
    selected_id: &str,
    output: AgentOutput,
    guard: GuardOutcome,
) -> (r: Result<AttemptOutcome, String>)
    ensures
        r is Ok <==> find_first(reset_tree(prev_tree@, next_tree@), selected_id@) is Some,
        r matches Ok(a) ==> a.output == output && a.guard == guard && a.error_log is None && a.tree@
            == updated_tree(prev_tree@, next_tree@, selected_id@, output.status, guard),
        r matches Err(e) ==> e@ == state_update_failure(selected_id@),
{
    let mut updated = next_tree.deep_clone();
    match apply_state_updates(prev_tree, &mut updated, selected_id, output.status, guard) {
        Ok(_) => Ok(AttemptOutcome { output, guard, tree: updated, error_log: None }),
        Err(err) => {
            let mut m = String::from_str("state update failed: ");
            m.append(err.as_str());
            Err(m)
        },
    }
}

/// The attempt recorded when the runner itself failed: a retry that leaves
/// the tree (and every node's attempts) as it was.
pub fn runner_error_outcome(prev_tree: &Node, error: &str) -> (r: AttemptOutcome)
    ensures
        r.output.status == AgentStatus::Retry,
        r.output.summary@ == "runner error (see runner_error.log)"@,
        r.guard == GuardOutcome::Skipped,
        r.tree@ == prev_tree@,
        r.error_log matches Some(l) && l@ == "runner error: "@ + error@,
{
    let mut log = String::from_str("runner error: ");
    log.append(error);
    AttemptOutcome {
        output: AgentOutput {
            status: AgentStatus::Retry,
            summary: String::from_str("runner error (see runner_error.log)"),
        },
        guard: GuardOutcome::Skipped,
        tree: prev_tree.deep_clone(),
        error_log: Some(log),
    }
}

/// The bookkeeping after iteration `iter`: the next iteration follows it, and
/// the output and guard outcome are remembered; a summary is remembered only
/// when the runner itself did not fail.
pub fn next_run_state(
    run_id: &str,
    iter: u32,
    output: &AgentOutput,
    guard: GuardOutcome,
    runner_failed: bool,
) -> (r: RunState)
    requires
        iter < u32::MAX,
    ensures
        r.run_id matches Some(id) && id@ == run_id@,
        r.next_iter == iter + 1,
        r.last_status == Some(output.status),
        r.last_summary == (if runner_failed { None } else { Some(output.summary) }),
        r.last_guard == Some(guard),
{
    RunState {
        run_id: Some(run_id.to_string()),
        next_iter: iter + 1,
        last_status: Some(output.status),
        last_summary: if runner_failed { None } else { Some(output.summary.clone()) },
        last_guard: Some(guard),
    }
}

/// The leaf a step works on, with its path.
#[derive(Debug, Clone)]
pub struct StepSelection {
    /// A copy of the selected leaf.
    pub node: Node,
    /// Its path from the root.
    pub path: String,
}

/// Picks the leftmost open leaf; a complete tree, a missing path or a stuck
/// leaf stops the step.
pub fn select_for_step(tree: &Node) -> (r: Result<StepSelection, StepError>)
    ensures
        match open_leaf(tree@) {
            None => r matches Err(StepError::Other(m)) && m@ == "no open leaf found (tree already complete)"@,
            Some(x) => match node_path_spec(tree@, x.id) {
                None => r matches Err(StepError::Other(m)) && m@ == "selected node path not found"@,
                Some(p) => if stuck(x) {
                    r matches Err(StepError::Stuck(e)) && e.id@ == x.id && e.path@ == p && e.attempts
                        == x.attempts && e.max_attempts == x.max_attempts
                } else {
                    r matches Ok(sel) && sel.node@ == x && sel.path@ == p
                },
            },
        },
{
    let selected = match leftmost_open_leaf(tree) {
        None => return Err(StepError::Other(String::from_str("no open leaf found (tree already complete)"))),
        Some(n) => n,
    };
    let path = match node_path(tree, selected.id.as_str()) {
        None => return Err(StepError::Other(String::from_str("selected node path not found"))),
        Some(p) => p,
    };
    if is_stuck(selected) {
        return Err(StepError::Stuck(StuckLeafError {
            id: selected.id.clone(),
            path,
            attempts: selected.attempts,
            max_attempts: selected.max_attempts,
        }));
    }
    Ok(StepSelection { node: selected.deep_clone(), path })
}

/// The run id recorded in `run_state`; a step needs a started run.
pub fn run_id_from_state(run_state: &RunState) -> (r: Result<String, String>)
    ensures
        match run_state.run_id {
            Some(id) => r == Ok::<String, String>(id),
            None => r matches Err(m) && m@ == "missing run id (run `runner start` first)"@,
        },
{
    match &run_state.run_id {
        Some(id) => Ok(id.clone()),
        None => Err(String::from_str("missing run id (run `runner start` first)")),
    }
}

/// `runner/<run_id>`, the branch a run works on.
pub open spec fn run_branch_name(run_id: Seq<char>) -> Seq<char> {
    "runner/"@ + run_id
}

/// The branch a run works on.
pub fn run_branch(run_id: &str) -> (r: String)
    ensures
        r@ == run_branch_name(run_id@),
{
    let mut b = String::from_str("runner/");
    b.append(run_id);
    b
}

/// Steps refuse to run on `main` or `master`.
pub fn check_branch_allowed(branch: &str) -> (r: Result<(), String>)
    ensures
        r is Ok <==> (branch@ != "main"@ && branch@ != "master"@),
        r matches Err(m) ==> m@ == "refuse to run on '"@ + branch@
            + "' (run `runner start` to create runner/<run-id> branch)"@,
{
    if crate::text::str_eq(branch, "main") || crate::text::str_eq(branch, "master") {
        let mut m = String::from_str("refuse to run on '");
        m.append(branch);
        m.append("' (run `runner start` to create runner/<run-id> branch)");
        return Err(m);
    }
    Ok(())
}

/// A step must run on the run's own branch.
pub fn check_on_run_branch(run_id: &str, branch: &str) -> (r: Result<(), String>)
    ensures
        r is Ok <==> branch@ == run_branch_name(run_id@),
        r matches Err(m) ==> m@ == "expected to be on '"@ + run_branch_name(run_id@) + "' but on '"@
            + branch@ + "' (run `runner start`)"@,
{
    let expected = run_branch(run_id);
    if !crate::text::str_eq(branch, expected.as_str()) {
        let mut m = String::from_str("expected to be on '");
        m.append(expected.as_str());
        m.append("' but on '");
        m.append(branch);
        m.append("' (run `runner start`)");
        return Err(m);
    }
    Ok(())
}

/// The goal document must carry the run's id.
pub fn check_run_id_matches_goal(run_id: &str, goal_id: Option<&str>, goal_path: &str) -> (r: Result<(), String>)
    ensures
        match goal_id {
            None => r matches Err(m) && m@ == "missing goal id in "@ + goal_path@ + " (run `runner start`)"@,
            Some(g) => {
                &&& r is Ok <==> g@ == run_id@
                &&& r matches Err(m) ==> m@ == "run id mismatch: run_state has '"@ + run_id@ + "' but GOAL.md has '"@
                    + g@ + "' (run `runner start`)"@
            },
        },
{
    match goal_id {
        None => {
            let mut m = String::from_str("missing goal id in ");
            m.append(goal_path);
            m.append(" (run `runner start`)");
            Err(m)
        },
        Some(g) => {
            if !crate::text::str_eq(g, run_id) {
                let mut m = String::from_str("run id mismatch: run_state has '");
                m.append(run_id);
                m.append("' but GOAL.md has '");
                m.append(g);
                m.append("' (run `runner start`)");
                return Err(m);
            }
            Ok(())
        },
    }
}

/// Whether some line of `ls`, trimmed, is `x`.
pub open spec fn has_trimmed_line(ls: Seq<Seq<char>>, x: Seq<char>) -> bool {
    exists|i: int| 0 <= i < ls.len() && crate::scan::trim(#[trigger] ls[i]) == x
}

/// The first required ignore line missing from `contents`, if any.
pub open spec fn missing_ignore(contents: Seq<char>) -> Option<Seq<char>> {
    let ls = crate::scan::lines_of(contents);
    if !has_trimmed_line(ls, "context/"@) {
        Some("context/"@)
    } else if !has_trimmed_line(ls, "iterations/"@) {
        Some("iterations/"@)
    } else {
        None
    }
}

fn has_line(ls: &Vec<String>, x: &str) -> (r: bool)
    ensures
        r == has_trimmed_line(strings_view(ls@), x@),
{
    let mut i: usize = 0;
    while i < ls.len()
        invariant
            i <= ls@.len(),
            forall|k: int| 0 <= k < i ==> crate::scan::trim(#[trigger] strings_view(ls@)[k]) != x@,
        decreases ls@.len() - i,
    {
        let t = crate::scan::trim_str(ls[i].as_str());
        if crate::text::str_eq(t.as_str(), x) {
            proof {
                assert(crate::scan::trim(strings_view(ls@)[i as int]) == x@);
            }
            return true;
        }
        i = i + 1;
    }
    false
}

/// The first of `context/` and `iterations/` that no line of `contents` holds.
pub fn missing_ignore_line(contents: &str) -> (r: Option<String>)
    ensures
        match r {
            Some(x) => missing_ignore(contents@) == Some(x@),
            None => missing_ignore(contents@) is None,
        },
{
    let ls = crate::scan::lines(contents);
    if !has_line(&ls, "context/") {
        return Some(String::from_str("context/"));
    }
    if !has_line(&ls, "iterations/") {
        return Some(String::from_str("iterations/"));
    }
    None
}

/// A step needs `.runner/.gitignore` (at `path`) to ignore `context/` and `iterations/`.
pub fn check_runner_gitignore(contents: &str, path: &str) -> (r: Result<(), String>)
    ensures
        r is Ok <==> missing_ignore(contents@) is None,
        r matches Err(m) ==> m@ == "missing '"@ + missing_ignore(contents@).unwrap() + "' in "@ + path@
            + " (run `runner start`)"@,
{
    match missing_ignore_line(contents) {
        None => Ok(()),
        Some(x) => {
            let mut m = String::from_str("missing '");
            m.append(x.as_str());
            m.append("' in ");
            m.append(path);
            m.append(" (run `runner start`)");
            Err(m)
        },
    }
}

} // verus!
