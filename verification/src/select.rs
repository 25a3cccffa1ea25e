//! Selection of the next leaf to work on.

use vstd::prelude::*;

use crate::logic::path::{node_path, node_path_spec, path_to, path_to_forest};
use crate::logic::selector::{is_stuck, leftmost_open_leaf, open_leaf, open_leaf_forest, stuck};
use crate::tree::{preorder_ids, preorder_ids_forest, Node, NodeV};

verus! {

/// Minimal selected leaf metadata for reporting.
#[derive(Debug, Clone, PartialEq, Eq)]
pub struct SelectedLeaf {
    pub id: String,
    pub path: String,
    pub attempts: u32,
    pub max_attempts: u32,
}

/// Structured selection outcome.
#[derive(Debug, Clone, PartialEq, Eq)]
pub enum SelectOutcome {
    /// Tree is complete (no open leaves).
    Complete,
    /// Open leaf selected.
    Open(SelectedLeaf),
    /// Selected leaf is stuck (attempts exhausted).
    Stuck(SelectedLeaf),
}

/// `leaf` describes the node `x` of the tree `t`.
pub open spec fn describes(leaf: SelectedLeaf, t: NodeV, x: NodeV) -> bool {
    &&& leaf.id@ == x.id
    &&& node_path_spec(t, x.id) == Some(leaf.path@)
    &&& leaf.attempts == x.attempts
    &&& leaf.max_attempts == x.max_attempts
}

/// What selection reports for the tree `t`.
pub open spec fn select_spec(t: NodeV, r: SelectOutcome) -> bool {
    match open_leaf(t) {
        None => r == SelectOutcome::Complete,
        Some(x) => match r {
            SelectOutcome::Complete => false,
            SelectOutcome::Open(leaf) => !stuck(x) && describes(leaf, t, x),
            SelectOutcome::Stuck(leaf) => stuck(x) && describes(leaf, t, x),
        },
    }
}

proof fn lemma_contains_concat(a: Seq<Seq<char>>, b: Seq<Seq<char>>, y: Seq<char>)
    ensures
        (a + b).contains(y) <==> (a.contains(y) || b.contains(y)),
{
    if (a + b).contains(y) {
        let j = choose|j: int| 0 <= j < (a + b).len() && (a + b)[j] == y;
        if j < a.len() {
            assert(a[j] == y);
        } else {
            assert(b[j - a.len()] == y);
        }
    }
    if a.contains(y) {
        let j = choose|j: int| 0 <= j < a.len() && a[j] == y;
        assert((a + b)[j] == y);
    }
    if b.contains(y) {
        let j = choose|j: int| 0 <= j < b.len() && b[j] == y;
        assert((a + b)[j + a.len()] == y);
    }
}

/// A path to `id` exists exactly when some node of `t` has that id.
pub proof fn lemma_path_exists(t: NodeV, id: Seq<char>)
    ensures
        path_to(t, id) is Some <==> preorder_ids(t).contains(id),
    decreases t, 1int,
{
    lemma_path_exists_forest(t.children, id);
    lemma_contains_concat(seq![t.id], preorder_ids_forest(t.children), id);
    if id == t.id {
        assert(seq![t.id][0] == id);
    }
    if seq![t.id].contains(id) {
        let j = choose|j: int| 0 <= j < 1 && seq![t.id][j] == id;
    }
}

proof fn lemma_path_exists_forest(s: Seq<NodeV>, id: Seq<char>)
    ensures
        path_to_forest(s, id) is Some <==> preorder_ids_forest(s).contains(id),
    decreases s, 0int,
{
    if s.len() > 0 {
        lemma_path_exists(s[0], id);
        lemma_path_exists_forest(s.drop_first(), id);
        lemma_contains_concat(preorder_ids(s[0]), preorder_ids_forest(s.drop_first()), id);
    }
}

/// The open leaf found in `t` is a node of `t`.
pub proof fn lemma_open_leaf_in_tree(t: NodeV)
    ensures
        open_leaf(t) matches Some(x) ==> preorder_ids(t).contains(x.id),
    decreases t, 1int,
{
    lemma_open_leaf_in_forest(t.children);
    if let Some(x) = open_leaf(t) {
        if t.children.len() == 0 {
            assert(preorder_ids(t)[0] == t.id);
        } else {
            lemma_contains_concat(seq![t.id], preorder_ids_forest(t.children), x.id);
        }
    }
}

proof fn lemma_open_leaf_in_forest(s: Seq<NodeV>)
    ensures
        open_leaf_forest(s) matches Some(x) ==> preorder_ids_forest(s).contains(x.id),
    decreases s, 0int,
{
    if s.len() > 0 {
        lemma_open_leaf_in_tree(s[0]);
        lemma_open_leaf_in_forest(s.drop_first());
        if let Some(x) = open_leaf_forest(s) {
            lemma_contains_concat(preorder_ids(s[0]), preorder_ids_forest(s.drop_first()), x.id);
        }
    }
}

/// Select the next leaf from an in-memory tree.
///
/// Never fails: the selected leaf always has a path from the root.
pub fn select_leaf(tree: &Node) -> (r: Result<SelectOutcome, String>)
    ensures
        r matches Ok(outcome) && select_spec(tree@, outcome),
{
    let selected = match leftmost_open_leaf(tree) {
        Some(node) => node,
        None => return Ok(SelectOutcome::Complete),
    };
    proof {
        lemma_open_leaf_in_tree(tree@);
        lemma_path_exists(tree@, selected@.id);
    }
    let path = match node_path(tree, selected.id.as_str()) {
        Some(p) => p,
        None => return Err(String::from_str("selected node path not found")),
    };
    let leaf = SelectedLeaf {
        id: selected.id.clone(),
        path,
        attempts: selected.attempts,
        max_attempts: selected.max_attempts,
    };
    if is_stuck(selected) {
        return Ok(SelectOutcome::Stuck(leaf));
    }
    Ok(SelectOutcome::Open(leaf))
}

} // verus!
