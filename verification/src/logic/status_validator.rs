//! Agent status invariants.
//!
//! Validates consistency between the agent's declared status and task-tree edits:
//! - `decomposed` requires that the selected node gained children.
//! - `done`/`retry` require that the selected node did not gain children.

use vstd::prelude::*;

use crate::logic::types::{status_label, AgentStatus};
use crate::text::{decimal, u64_to_string};
use crate::tree::{find_first, find_node, Node, NodeV};

verus! {

/// The error messages for the status invariants between `prev` and `next`.
pub open spec fn status_errors(prev: NodeV, next: NodeV, id: Seq<char>, status: AgentStatus) -> Seq<Seq<char>> {
    match find_first(prev, id) {
        None => seq!["selected node '"@ + id + "' missing in prev tree"@],
        Some(p) => match find_first(next, id) {
            None => seq!["selected node '"@ + id + "' missing in next tree"@],
            Some(q) => {
                let pc = p.children.len();
                let nc = q.children.len();
                let counts = " (prev="@ + decimal(pc) + ", next="@ + decimal(nc) + ")"@;
                if status == AgentStatus::Decomposed && !(nc > pc) {
                    seq!["status=decomposed but selected node '"@ + id + "' did not gain children"@ + counts]
                } else if status != AgentStatus::Decomposed && nc > pc {
                    seq!["status="@ + status_label(status) + " but selected node '"@ + id + "' gained children"@ + counts]
                } else {
                    Seq::empty()
                }
            },
        },
    }
}

/// Validate agent status invariants between `prev` and `next` trees.
///
/// Returns a list of stable error messages (empty on success).
pub fn validate_status_invariants(prev: &Node, next: &Node, selected_id: &str, status: AgentStatus) -> (errors: Vec<String>)
    ensures
        errors@.map_values(|e: String| e@) == status_errors(prev@, next@, selected_id@, status),
{
    let mut errors: Vec<String> = Vec::new();
    let prev_node = match find_node(prev, selected_id) {
        Some(node) => node,
        None => {
            let mut m = String::from_str("selected node '");
            m.append(selected_id);
            m.append("' missing in prev tree");
            errors.push(m);
            proof {
                assert(errors@.map_values(|e: String| e@) =~= status_errors(prev@, next@, selected_id@, status));
            }
            return errors;
        },
    };
    let next_node = match find_node(next, selected_id) {
        Some(node) => node,
        None => {
            let mut m = String::from_str("selected node '");
            m.append(selected_id);
            m.append("' missing in next tree");
            errors.push(m);
            proof {
                assert(errors@.map_values(|e: String| e@) =~= status_errors(prev@, next@, selected_id@, status));
            }
            return errors;
        },
    };
    proof {
        crate::tree::lemma_forest_view(prev_node.children@);
        crate::tree::lemma_forest_view(next_node.children@);
    }
    let prev_children = prev_node.children.len();
    let next_children = next_node.children.len();
    let gained = next_children > prev_children;
    let mut counts = String::from_str(" (prev=");
    counts.append(u64_to_string(prev_children as u64).as_str());
    counts.append(", next=");
    counts.append(u64_to_string(next_children as u64).as_str());
    counts.append(")");
    match status {
        AgentStatus::Decomposed => {
            if !gained {
                let mut m = String::from_str("status=decomposed but selected node '");
                m.append(selected_id);
                m.append("' did not gain children");
                m.append(counts.as_str());
                errors.push(m);
            }
        },
        _ => {
            if gained {
                let mut m = String::from_str("status=");
                m.append(status.label());
                m.append(" but selected node '");
                m.append(selected_id);
                m.append("' gained children");
                m.append(counts.as_str());
                errors.push(m);
            }
        },
    }
    proof {
        assert(errors@.map_values(|e: String| e@) =~= status_errors(prev@, next@, selected_id@, status));
    }
    errors
}

} // verus!
