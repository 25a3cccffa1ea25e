//! Helpers for rendering deterministic node paths.

use vstd::prelude::*;

use crate::text::{join, join_strings, str_eq};
use crate::tree::{lemma_forest_view, strings_view, Node, NodeV};

verus! {

/// The ids from `t` down to the first node (depth-first) whose id is `target`.
pub open spec fn path_to(t: NodeV, target: Seq<char>) -> Option<Seq<Seq<char>>>
    decreases t, 1int,
{
    if t.id == target {
        Some(seq![t.id])
    } else {
        match path_to_forest(t.children, target) {
            Some(p) => Some(seq![t.id] + p),
            None => None,
        }
    }
}

/// The id path to the first match of `target` among the trees of `s`, in order.
pub open spec fn path_to_forest(s: Seq<NodeV>, target: Seq<char>) -> Option<Seq<Seq<char>>>
    decreases s, 0int,
{
    if s.len() == 0 {
        None
    } else {
        match path_to(s[0], target) {
            Some(p) => Some(p),
            None => path_to_forest(s.drop_first(), target),
        }
    }
}

/// The `/`-separated rendering of the id path to `target`, if `target` occurs.
pub open spec fn node_path_spec(t: NodeV, target: Seq<char>) -> Option<Seq<char>> {
    match path_to(t, target) {
        Some(p) => Some(join(p, "/"@)),
        None => None,
    }
}

fn path_ids(node: &Node, target_id: &str) -> (r: Option<Vec<String>>)
    ensures
        match r {
            Some(p) => path_to(node@, target_id@) == Some(strings_view(p@)),
            None => path_to(node@, target_id@) is None,
        },
    decreases node@,
{
    proof {
        lemma_forest_view(node.children@);
    }
    if str_eq(node.id.as_str(), target_id) {
        let mut p: Vec<String> = Vec::new();
        p.push(node.id.clone());
        proof {
            assert(strings_view(p@) =~= seq![node@.id]);
        }
        return Some(p);
    }
    let ghost cs = node@.children;
    let n = node.children.len();
    let mut i: usize = 0;
    proof {
        assert(cs.subrange(0, n as int) =~= cs);
    }
    while i < n
        invariant
            n == node.children@.len(),
            cs == node@.children,
            cs.len() == n,
            i <= n,
            node@.id != target_id@,
            forall|k: int| 0 <= k < n ==> #[trigger] cs[k] == node.children@[k]@,
            path_to_forest(cs, target_id@) == path_to_forest(
                cs.subrange(i as int, n as int),
                target_id@,
            ),
        decreases n - i,
    {
        proof {
            assert(cs.subrange(i as int, n as int)[0] == cs[i as int]);
            assert(cs.subrange(i as int, n as int).drop_first() =~= cs.subrange(i + 1, n as int));
            assert(decreases_to!(node@ => cs[i as int]));
        }
        if let Some(rest) = path_ids(&node.children[i], target_id) {
            let mut p: Vec<String> = Vec::new();
            p.push(node.id.clone());
            let mut j: usize = 0;
            while j < rest.len()
                invariant
                    j <= rest@.len(),
                    strings_view(p@) =~= seq![node@.id] + strings_view(rest@).take(j as int),
                decreases rest@.len() - j,
            {
                let ghost before = p@;
                p.push(rest[j].clone());
                proof {
                    assert(strings_view(p@) =~= strings_view(before).push(rest@[j as int]@));
                    assert(strings_view(rest@).take(j + 1) =~= strings_view(rest@).take(j as int).push(rest@[j as int]@));
                }
                j = j + 1;
            }
            proof {
                assert(strings_view(rest@).take(rest@.len() as int) =~= strings_view(rest@));
            }
            return Some(p);
        }
        i = i + 1;
    }
    proof {
        assert(cs.subrange(n as int, n as int) =~= Seq::<NodeV>::empty());
    }
    None
}

/// Return the `/`-separated id path to `target_id`, rooted at `root`.
pub fn node_path(root: &Node, target_id: &str) -> (r: Option<String>)
    ensures
        match r {
            Some(s) => node_path_spec(root@, target_id@) == Some(s@),
            None => node_path_spec(root@, target_id@) is None,
        },
{
    match path_ids(root, target_id) {
        Some(p) => Some(join_strings(&p, "/")),
        None => None,
    }
}

} // verus!
