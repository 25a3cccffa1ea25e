//! Deterministic selection logic for the task tree.

use vstd::prelude::*;

use crate::tree::{lemma_forest_view, Node, NodeV};

verus! {

/// The first leaf with `passes == false` in depth-first order, if any.
pub open spec fn open_leaf(t: NodeV) -> Option<NodeV>
    decreases t, 1int,
{
    if t.children.len() == 0 {
        if t.passes {
            None
        } else {
            Some(t)
        }
    } else {
        open_leaf_forest(t.children)
    }
}

/// The first open leaf among the trees of `s`, in order.
pub open spec fn open_leaf_forest(s: Seq<NodeV>) -> Option<NodeV>
    decreases s, 0int,
{
    if s.len() == 0 {
        None
    } else {
        match open_leaf(s[0]) {
            Some(x) => Some(x),
            None => open_leaf_forest(s.drop_first()),
        }
    }
}

/// A leaf is stuck when it has not passed and its attempts are exhausted.
pub open spec fn stuck(n: NodeV) -> bool {
    !n.passes && n.attempts >= n.max_attempts
}

/// Find the first leaf with `passes == false` via depth-first traversal.
///
/// Returns `None` if all leaves pass (the tree is complete).
pub fn leftmost_open_leaf(node: &Node) -> (r: Option<&Node>)
    ensures
        match r {
            Some(found) => open_leaf(node@) == Some(found@),
            None => open_leaf(node@) is None,
        },
    decreases node@,
{
    proof {
        lemma_forest_view(node.children@);
    }
    if node.children.len() == 0 {
        return if node.passes {
            None
        } else {
            Some(node)
        };
    }
    let ghost cs = node@.children;
    let n = node.children.len();
    let mut i: usize = 0;
    proof {
        assert(cs.subrange(0, n as int) =~= cs);
    }
    while i < n
        invariant
            n == node.children@.len(),
            cs == node@.children,
            cs.len() == n,
            i <= n,
            forall|k: int| 0 <= k < n ==> #[trigger] cs[k] == node.children@[k]@,
            open_leaf_forest(cs) == open_leaf_forest(cs.subrange(i as int, n as int)),
        decreases n - i,
    {
        proof {
            assert(cs.subrange(i as int, n as int)[0] == cs[i as int]);
            assert(cs.subrange(i as int, n as int).drop_first() =~= cs.subrange(i + 1, n as int));
            assert(decreases_to!(node@ => cs[i as int]));
        }
        if let Some(found) = leftmost_open_leaf(&node.children[i]) {
            return Some(found);
        }
        i = i + 1;
    }
    proof {
        assert(cs.subrange(n as int, n as int) =~= Seq::<NodeV>::empty());
    }
    None
}

/// Returns true if a leaf is considered stuck (attempts exhausted, not passed).
pub fn is_stuck(node: &Node) -> (r: bool)
    ensures
        r == stuck(node@),
{
    !node.passes && node.attempts >= node.max_attempts
}

} // verus!
