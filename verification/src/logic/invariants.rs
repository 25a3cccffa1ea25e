//! Semantic invariants of the task tree that a JSON Schema cannot express.

use vstd::prelude::*;

use crate::text::{decimal, u64_to_string};
use crate::tree::{
    key_lt, lemma_forest_view, node_key_lt, preorder_ids, preorder_ids_forest, strings_view, Node,
    NodeV,
};

verus! {

/// Siblings are in non-decreasing `(order, id)` order.
pub open spec fn children_sorted(s: Seq<NodeV>) -> bool {
    forall|i: int| 0 <= i < s.len() - 1 ==> !key_lt(#[trigger] s[i + 1], s[i])
}

/// The errors reported for the node `t` itself, found at `path`, when the
/// ids in `earlier` were visited before it, apart from the order of its
/// children.
pub open spec fn own_errors_but_order(t: NodeV, path: Seq<char>, earlier: Seq<Seq<char>>) -> Seq<Seq<char>> {
    (if earlier.contains(t.id) {
        seq!["duplicate id '"@ + t.id + "' at "@ + path]
    } else {
        Seq::empty()
    }) + (if t.max_attempts == 0 {
        seq![path + ": max_attempts must be > 0"@]
    } else {
        Seq::empty()
    }) + (if t.attempts > t.max_attempts {
        seq![
            path + ": attempts "@ + decimal(t.attempts as nat) + " exceeds max_attempts "@
                + decimal(t.max_attempts as nat),
        ]
    } else {
        Seq::empty()
    })
}

/// The errors reported for the node `t` itself, found at `path`, when the ids
/// in `earlier` were visited before it.
pub open spec fn own_errors(t: NodeV, path: Seq<char>, earlier: Seq<Seq<char>>) -> Seq<Seq<char>> {
    own_errors_but_order(t, path, earlier) + (if !children_sorted(t.children) {
        seq![path + ": children must be sorted by (order,id)"@]
    } else {
        Seq::empty()
    })
}

/// All invariant errors of the subtree `t` at `path`, depth-first.
pub open spec fn invariant_errors(t: NodeV, path: Seq<char>, earlier: Seq<Seq<char>>) -> Seq<Seq<char>>
    decreases t, 1int,
{
    own_errors(t, path, earlier) + forest_errors(t.children, path, earlier.push(t.id))
}

/// The invariant errors of the sibling trees `s` under the parent at `path`.
pub open spec fn forest_errors(s: Seq<NodeV>, path: Seq<char>, earlier: Seq<Seq<char>>) -> Seq<Seq<char>>
    decreases s, 0int,
{
    if s.len() == 0 {
        Seq::empty()
    } else {
        invariant_errors(s[0], path + "/"@ + s[0].id, earlier) + forest_errors(
            s.drop_first(),
            path,
            earlier + preorder_ids(s[0]),
        )
    }
}

/// Check semantic invariants not expressible in JSON Schema:
/// - No duplicate ids
/// - `max_attempts > 0`
/// - `attempts <= max_attempts`
/// - Children sorted by `(order, id)`
pub fn validate_invariants(root: &Node) -> (errors: Vec<String>)
    ensures
        strings_view(errors@) == invariant_errors(root@, root@.id, Seq::empty()),
{
    let mut errors: Vec<String> = Vec::new();
    let mut seen: Vec<String> = Vec::new();
    let path = root.id.clone();
    validate_node(root, &mut seen, &mut errors, &path);
    proof {
        assert(strings_view(Seq::<String>::empty()) =~= Seq::<Seq<char>>::empty());
        assert(strings_view(errors@) =~= Seq::<Seq<char>>::empty() + invariant_errors(root@, root@.id, Seq::empty()));
    }
    errors
}

fn contains_string(v: &Vec<String>, s: &String) -> (r: bool)
    ensures
        r == strings_view(v@).contains(s@),
{
    let mut i: usize = 0;
    while i < v.len()
        invariant
            i <= v@.len(),
            forall|k: int| 0 <= k < i ==> v@[k]@ != s@,
        decreases v@.len() - i,
    {
        if v[i] == *s {
            proof {
                assert(strings_view(v@)[i as int] == s@);
            }
            return true;
        }
        i = i + 1;
    }
    proof {
        if strings_view(v@).contains(s@) {
            let k = choose|k: int| 0 <= k < strings_view(v@).len() && strings_view(v@)[k] == s@;
            assert(v@[k]@ == s@);
        }
    }
    false
}

fn children_sorted_exec(children: &Vec<Node>) -> (r: bool)
    ensures
        r == children_sorted(crate::tree::forest_view(children@)),
{
    proof {
        lemma_forest_view(children@);
    }
    let ghost cs = crate::tree::forest_view(children@);
    let mut i: usize = 1;
    while i < children.len()
        invariant
            cs == crate::tree::forest_view(children@),
            cs.len() == children@.len(),
            forall|k: int| 0 <= k < cs.len() ==> #[trigger] cs[k] == children@[k]@,
            1 <= i,
            i <= children@.len() || children@.len() == 0,
            forall|k: int| 0 <= k < i - 1 && k < cs.len() - 1 ==> !key_lt(#[trigger] cs[k + 1], cs[k]),
        decreases children@.len() - i,
    {
        if node_key_lt(&children[i], &children[i - 1]) {
            proof {
                assert(key_lt(cs[(i - 1) + 1], cs[i - 1]));
            }
            return false;
        }
        i = i + 1;
    }
    true
}

fn push_message(errors: &mut Vec<String>, m: String)
    ensures
        strings_view(final(errors)@) == strings_view(old(errors)@).push(m@),
{
    errors.push(m);
    proof {
        assert(strings_view(errors@) =~= strings_view(old(errors)@).push(m@));
    }
}

fn validate_node(node: &Node, seen: &mut Vec<String>, errors: &mut Vec<String>, path: &String)
    ensures
        strings_view(final(seen)@) == strings_view(old(seen)@) + preorder_ids(node@),
        strings_view(final(errors)@) == strings_view(old(errors)@) + invariant_errors(
            node@,
            path@,
            strings_view(old(seen)@),
        ),
    decreases node@,
{
    let ghost earlier = strings_view(seen@);
    let ghost errors0 = strings_view(errors@);
    if contains_string(seen, &node.id) {
        let mut m = String::from_str("duplicate id '");
        m.append(node.id.as_str());
        m.append("' at ");
        m.append(path.as_str());
        push_message(errors, m);
    }
    let ghost seen_before = seen@;
    seen.push(node.id.clone());
    proof {
        assert(strings_view(seen@) =~= earlier.push(node@.id));
    }
    if node.max_attempts == 0 {
        let mut m = path.clone();
        m.append(": max_attempts must be > 0");
        push_message(errors, m);
    }
    if node.attempts > node.max_attempts {
        let mut m = path.clone();
        m.append(": attempts ");
        m.append(u64_to_string(node.attempts as u64).as_str());
        m.append(" exceeds max_attempts ");
        m.append(u64_to_string(node.max_attempts as u64).as_str());
        push_message(errors, m);
    }
    if !children_sorted_exec(&node.children) {
        let mut m = path.clone();
        m.append(": children must be sorted by (order,id)");
        push_message(errors, m);
    }
    proof {
        assert(strings_view(errors@) =~= errors0 + own_errors(node@, path@, earlier));
        lemma_forest_view(node.children@);
    }
    let ghost cs = node@.children;
    let n = node.children.len();
    let ghost mid = strings_view(errors@);
    let mut i: usize = 0;
    proof {
        assert(cs.subrange(0, 0) =~= Seq::<NodeV>::empty());
        assert(preorder_ids_forest(cs.subrange(0, 0)) =~= Seq::<Seq<char>>::empty());
        assert(forest_errors(cs.subrange(0, 0), path@, earlier.push(node@.id)) =~= Seq::<Seq<char>>::empty());
        assert(cs.subrange(0, n as int) =~= cs);
        assert(earlier.push(node@.id) + Seq::<Seq<char>>::empty() =~= earlier.push(node@.id));
        assert(mid + Seq::<Seq<char>>::empty() =~= mid);
        assert(Seq::<Seq<char>>::empty() + forest_errors(cs, path@, earlier.push(node@.id)) =~= forest_errors(cs, path@, earlier.push(node@.id)));
    }
    while i < n
        invariant
            n == node.children@.len(),
            cs == node@.children,
            cs.len() == n,
            i <= n,
            forall|k: int| 0 <= k < n ==> #[trigger] cs[k] == node.children@[k]@,
            strings_view(seen@) == earlier.push(node@.id) + preorder_ids_forest(cs.subrange(0, i as int)),
            forest_errors(cs, path@, earlier.push(node@.id)) == forest_errors(cs.subrange(0, i as int), path@, earlier.push(node@.id))
                + forest_errors(cs.subrange(i as int, n as int), path@, strings_view(seen@)),
            strings_view(errors@) == mid + forest_errors(cs.subrange(0, i as int), path@, earlier.push(node@.id)),
        decreases n - i,
    {
        proof {
            assert(decreases_to!(node@ => cs[i as int]));
        }
        let child = &node.children[i];
        let mut child_path = path.clone();
        child_path.append("/");
        child_path.append(child.id.as_str());
        let ghost seen_i = strings_view(seen@);
        let ghost errs_i = strings_view(errors@);
        validate_node(child, seen, errors, &child_path);
        proof {
            let e = earlier.push(node@.id);
            lemma_forest_split(cs, i as int, path@, e);
            let a = preorder_ids_forest(cs.subrange(0, i as int));
            let b = preorder_ids(cs[i as int]);
            assert(e + (a + b) =~= (e + a) + b);
            assert(strings_view(seen@) == e + preorder_ids_forest(cs.subrange(0, i + 1)));
            let x = forest_errors(cs.subrange(0, i as int), path@, e);
            let y = invariant_errors(cs[i as int], path@ + "/"@ + cs[i as int].id, e + a);
            let z = forest_errors(cs.subrange(i + 1, n as int), path@, e + preorder_ids_forest(cs.subrange(0, i + 1)));
            assert(x + (y + z) =~= (x + y) + z);
            assert(mid + (x + y) =~= (mid + x) + y);
        }
        i = i + 1;
    }
    proof {
        assert(cs.subrange(0, n as int) =~= cs);
    }
}

proof fn lemma_forest_split(s: Seq<NodeV>, i: int, path: Seq<char>, e: Seq<Seq<char>>)
    requires
        0 <= i < s.len(),
    ensures
        forest_errors(s.subrange(0, i + 1), path, e) == forest_errors(s.subrange(0, i), path, e)
            + invariant_errors(s[i], path + "/"@ + s[i].id, e + preorder_ids_forest(s.subrange(0, i))),
        preorder_ids_forest(s.subrange(0, i + 1)) == preorder_ids_forest(s.subrange(0, i)) + preorder_ids(s[i]),
        forest_errors(s.subrange(i, s.len() as int), path, e + preorder_ids_forest(s.subrange(0, i)))
            == invariant_errors(s[i], path + "/"@ + s[i].id, e + preorder_ids_forest(s.subrange(0, i)))
            + forest_errors(s.subrange(i + 1, s.len() as int), path, e + preorder_ids_forest(s.subrange(0, i + 1))),
{
    lemma_prefix_step(s, i, path, e);
    let t = s.subrange(i, s.len() as int);
    assert(t[0] == s[i]);
    assert(t.drop_first() =~= s.subrange(i + 1, s.len() as int));
    let e2 = e + preorder_ids_forest(s.subrange(0, i));
    assert(e2 + preorder_ids(s[i]) =~= e + preorder_ids_forest(s.subrange(0, i + 1)));
}

proof fn lemma_prefix_step(s: Seq<NodeV>, i: int, path: Seq<char>, e: Seq<Seq<char>>)
    requires
        0 <= i < s.len(),
    ensures
        forest_errors(s.subrange(0, i + 1), path, e) == forest_errors(s.subrange(0, i), path, e)
            + invariant_errors(s[i], path + "/"@ + s[i].id, e + preorder_ids_forest(s.subrange(0, i))),
        preorder_ids_forest(s.subrange(0, i + 1)) == preorder_ids_forest(s.subrange(0, i)) + preorder_ids(s[i]),
    decreases i,
{
    if i == 0 {
        let one = s.subrange(0, 1);
        assert(one[0] == s[0]);
        assert(one.drop_first() =~= Seq::<NodeV>::empty());
        let z = s.subrange(0, 0);
        assert(z =~= Seq::<NodeV>::empty());
        assert(preorder_ids_forest(z) == Seq::<Seq<char>>::empty());
        assert(forest_errors(z, path, e) == Seq::<Seq<char>>::empty());
        assert(forest_errors(one.drop_first(), path, e + preorder_ids(one[0])) == Seq::<Seq<char>>::empty());
        assert(preorder_ids_forest(one.drop_first()) == Seq::<Seq<char>>::empty());
        assert(e + preorder_ids_forest(z) =~= e);
        let x = invariant_errors(s[0], path + "/"@ + s[0].id, e);
        assert(forest_errors(one, path, e) == x + Seq::<Seq<char>>::empty());
        assert(x + Seq::<Seq<char>>::empty() =~= x);
        assert(Seq::<Seq<char>>::empty() + x =~= x);
        assert(preorder_ids_forest(one) == preorder_ids(s[0]) + Seq::<Seq<char>>::empty());
        assert(preorder_ids(s[0]) + Seq::<Seq<char>>::empty() =~= preorder_ids(s[0]));
        assert(Seq::<Seq<char>>::empty() + preorder_ids(s[0]) =~= preorder_ids(s[0]));
    } else {
        let d = s.drop_first();
        lemma_prefix_step(d, i - 1, path, e + preorder_ids(s[0]));
        let p1 = s.subrange(0, i + 1);
        let p0 = s.subrange(0, i);
        assert(p1[0] == s[0]);
        assert(p0[0] == s[0]);
        assert(p1.drop_first() =~= d.subrange(0, i));
        assert(p0.drop_first() =~= d.subrange(0, i - 1));
        assert(d[i - 1] == s[i]);
        let e1 = e + preorder_ids(s[0]);
        assert(preorder_ids_forest(p0) == preorder_ids(s[0]) + preorder_ids_forest(d.subrange(0, i - 1)));
        assert(preorder_ids_forest(p1) == preorder_ids(s[0]) + preorder_ids_forest(d.subrange(0, i)));
        assert(e1 + preorder_ids_forest(d.subrange(0, i - 1)) =~= e + preorder_ids_forest(p0));
        let a = invariant_errors(s[0], path + "/"@ + s[0].id, e);
        let b = forest_errors(d.subrange(0, i - 1), path, e1);
        let c = invariant_errors(s[i], path + "/"@ + s[i].id, e + preorder_ids_forest(p0));
        assert(forest_errors(p1, path, e) == a + forest_errors(d.subrange(0, i), path, e1));
        assert(forest_errors(p0, path, e) == a + b);
        assert(a + (b + c) =~= (a + b) + c);
        let ia = preorder_ids(s[0]);
        let ib = preorder_ids_forest(d.subrange(0, i - 1));
        let ic = preorder_ids(s[i]);
        assert(ia + (ib + ic) =~= (ia + ib) + ic);
    }
}

} // verus!
