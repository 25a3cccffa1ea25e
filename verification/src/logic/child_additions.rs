//! Restrictions on adding new children to nodes.
//!
//! Agents may edit open nodes, but new children may only be introduced under
//! the selected node. This keeps decomposition localized.

use vstd::prelude::*;

use crate::logic::strseq::{contains_str, push_str, sorted_set, sorted_set_of};
use crate::text::{join, join_strings, str_eq};
use crate::tree::{lemma_forest_view, preorder_ids, strings_view, Node, NodeV};

verus! {

/// The ids of the children of `t`, in order.
pub open spec fn child_ids(t: NodeV) -> Seq<Seq<char>> {
    t.children.map_values(|c: NodeV| c.id)
}

/// `(id, child ids)` of every node of `t`, depth-first with parents first.
pub open spec fn child_entries(t: NodeV) -> Seq<(Seq<char>, Seq<Seq<char>>)>
    decreases t, 1int,
{
    seq![(t.id, child_ids(t))] + child_entries_forest(t.children)
}

pub open spec fn child_entries_forest(s: Seq<NodeV>) -> Seq<(Seq<char>, Seq<Seq<char>>)>
    decreases s, 0int,
{
    if s.len() == 0 {
        Seq::empty()
    } else {
        child_entries(s[0]) + child_entries_forest(s.drop_first())
    }
}

/// The value of the last entry whose key is `k` (later entries overwrite earlier ones).
pub open spec fn lookup_last<V>(entries: Seq<(Seq<char>, V)>, k: Seq<char>) -> Option<V>
    decreases entries.len(),
{
    if entries.len() == 0 {
        None
    } else if entries.last().0 == k {
        Some(entries.last().1)
    } else {
        lookup_last(entries.drop_last(), k)
    }
}

/// The children of `next_children` that are not among `prev_children`, each once, sorted.
pub open spec fn added_children(next_children: Seq<Seq<char>>, prev_children: Seq<Seq<char>>) -> Seq<Seq<char>> {
    sorted_set(next_children.filter(|c: Seq<char>| !prev_children.contains(c)))
}

/// The error for the parent `k`, if it gained children and is not the allowed parent.
pub open spec fn parent_error(
    k: Seq<char>,
    prev: Seq<(Seq<char>, Seq<Seq<char>>)>,
    next: Seq<(Seq<char>, Seq<Seq<char>>)>,
    allowed: Option<Seq<char>>,
) -> Seq<Seq<char>> {
    match lookup_last(prev, k) {
        None => Seq::empty(),
        Some(prev_children) => {
            let added = added_children(lookup_last(next, k).unwrap(), prev_children);
            if added.len() == 0 || allowed == Some(k) {
                Seq::empty()
            } else {
                seq!["node '"@ + k + "' gained new children: "@ + join(added, ", "@)]
            }
        },
    }
}

/// The errors for the parents `keys`, in order.
pub open spec fn parents_errors(
    keys: Seq<Seq<char>>,
    prev: Seq<(Seq<char>, Seq<Seq<char>>)>,
    next: Seq<(Seq<char>, Seq<Seq<char>>)>,
    allowed: Option<Seq<char>>,
) -> Seq<Seq<char>>
    decreases keys.len(),
{
    if keys.len() == 0 {
        Seq::empty()
    } else {
        parents_errors(keys.drop_last(), prev, next, allowed) + parent_error(keys.last(), prev, next, allowed)
    }
}

/// Every node present in both trees (by id) whose child-id set grew, except
/// `allowed`, reported in id order.
pub open spec fn child_addition_errors(prev: NodeV, next: NodeV, allowed: Option<Seq<char>>) -> Seq<Seq<char>> {
    parents_errors(sorted_set(preorder_ids(next)), child_entries(prev), child_entries(next), allowed)
}

pub open spec fn entries_view(v: Seq<(String, Vec<String>)>) -> Seq<(Seq<char>, Seq<Seq<char>>)> {
    v.map_values(|e: (String, Vec<String>)| (e.0@, strings_view(e.1@)))
}

pub open spec fn opt_str_view(o: Option<&str>) -> Option<Seq<char>> {
    match o {
        Some(s) => Some(s@),
        None => None,
    }
}

fn collect_entries(node: &Node, out: &mut Vec<(String, Vec<String>)>, ids: &mut Vec<String>)
    ensures
        entries_view(final(out)@) == entries_view(old(out)@) + child_entries(node@),
        strings_view(final(ids)@) == strings_view(old(ids)@) + preorder_ids(node@),
    decreases node@,
{
    proof {
        lemma_forest_view(node.children@);
    }
    let ghost out0 = entries_view(out@);
    let ghost ids0 = strings_view(ids@);
    let mut cids: Vec<String> = Vec::new();
    let mut i: usize = 0;
    while i < node.children.len()
        invariant
            i <= node.children@.len(),
            node@.children.len() == node.children@.len(),
            forall|k: int| 0 <= k < node.children@.len() ==> #[trigger] node@.children[k] == node.children@[k]@,
            strings_view(cids@) =~= child_ids(node@).take(i as int),
        decreases node.children@.len() - i,
    {
        push_str(&mut cids, node.children[i].id.clone());
        i = i + 1;
    }
    proof {
        assert(child_ids(node@).take(node.children@.len() as int) =~= child_ids(node@));
    }
    out.push((node.id.clone(), cids));
    push_str(ids, node.id.clone());
    proof {
        assert(entries_view(out@) =~= out0.push((node@.id, child_ids(node@))));
    }
    let ghost cs = node@.children;
    let ghost mid = entries_view(out@);
    let ghost mid_ids = strings_view(ids@);
    let n = node.children.len();
    let mut i: usize = 0;
    proof {
        assert(child_entries_forest(cs.subrange(0, 0)) =~= Seq::empty());
        assert(crate::tree::preorder_ids_forest(cs.subrange(0, 0)) =~= Seq::empty());
        assert(mid + Seq::<(Seq<char>, Seq<Seq<char>>)>::empty() =~= mid);
        assert(mid_ids + Seq::<Seq<char>>::empty() =~= mid_ids);
    }
    while i < n
        invariant
            n == node.children@.len(),
            cs == node@.children,
            cs.len() == n,
            i <= n,
            forall|k: int| 0 <= k < n ==> #[trigger] cs[k] == node.children@[k]@,
            entries_view(out@) == mid + child_entries_forest(cs.subrange(0, i as int)),
            strings_view(ids@) == mid_ids + crate::tree::preorder_ids_forest(cs.subrange(0, i as int)),
        decreases n - i,
    {
        proof {
            assert(decreases_to!(node@ => cs[i as int]));
        }
        collect_entries(&node.children[i], out, ids);
        proof {
            lemma_entries_step(cs, i as int);
            crate::tree::lemma_ids_step(cs, i as int);
            assert(mid + (child_entries_forest(cs.subrange(0, i as int)) + child_entries(cs[i as int]))
                =~= (mid + child_entries_forest(cs.subrange(0, i as int))) + child_entries(cs[i as int]));
            assert(mid_ids + (crate::tree::preorder_ids_forest(cs.subrange(0, i as int)) + preorder_ids(cs[i as int]))
                =~= (mid_ids + crate::tree::preorder_ids_forest(cs.subrange(0, i as int))) + preorder_ids(cs[i as int]));
        }
        i = i + 1;
    }
    proof {
        assert(cs.subrange(0, n as int) =~= cs);
        assert(out0 + (seq![(node@.id, child_ids(node@))] + child_entries_forest(cs))
            =~= out0.push((node@.id, child_ids(node@))) + child_entries_forest(cs));
        assert(ids0 + (seq![node@.id] + crate::tree::preorder_ids_forest(cs))
            =~= ids0.push(node@.id) + crate::tree::preorder_ids_forest(cs));
    }
}

proof fn lemma_entries_step(s: Seq<NodeV>, i: int)
    requires
        0 <= i < s.len(),
    ensures
        child_entries_forest(s.subrange(0, i + 1)) == child_entries_forest(s.subrange(0, i)) + child_entries(s[i]),
    decreases i,
{
    if i == 0 {
        let one = s.subrange(0, 1);
        assert(one[0] == s[0]);
        assert(one.drop_first() =~= Seq::<NodeV>::empty());
        assert(s.subrange(0, 0) =~= Seq::<NodeV>::empty());
        assert(child_entries_forest(one.drop_first()) == Seq::<(Seq<char>, Seq<Seq<char>>)>::empty());
        assert(child_entries(s[0]) + Seq::<(Seq<char>, Seq<Seq<char>>)>::empty() =~= child_entries(s[0]));
        assert(child_entries_forest(s.subrange(0, 0)) == Seq::<(Seq<char>, Seq<Seq<char>>)>::empty());
        assert(Seq::<(Seq<char>, Seq<Seq<char>>)>::empty() + child_entries(s[0]) =~= child_entries(s[0]));
    } else {
        let d = s.drop_first();
        lemma_entries_step(d, i - 1);
        let p1 = s.subrange(0, i + 1);
        let p0 = s.subrange(0, i);
        assert(p1[0] == s[0]);
        assert(p0[0] == s[0]);
        assert(p1.drop_first() =~= d.subrange(0, i));
        assert(p0.drop_first() =~= d.subrange(0, i - 1));
        assert(d[i - 1] == s[i]);
        let a = child_entries(s[0]);
        let b = child_entries_forest(d.subrange(0, i - 1));
        let c = child_entries(s[i]);
        assert(a + (b + c) =~= (a + b) + c);
    }
}

fn lookup_entry(entries: &Vec<(String, Vec<String>)>, k: &String) -> (r: Option<usize>)
    ensures
        match r {
            Some(j) => j < entries@.len() && lookup_last(entries_view(entries@), k@) == Some(
                strings_view(entries@[j as int].1@),
            ),
            None => lookup_last(entries_view(entries@), k@) is None,
        },
{
    let ghost ev = entries_view(entries@);
    let mut i: usize = entries.len();
    proof {
        assert(ev.take(i as int) =~= ev);
    }
    while i > 0
        invariant
            i <= entries@.len(),
            ev == entries_view(entries@),
            lookup_last(ev, k@) == lookup_last(ev.take(i as int), k@),
        decreases i,
    {
        proof {
            assert(ev.take(i as int).last() == (entries@[i - 1].0@, strings_view(entries@[i - 1].1@)));
            assert(ev.take(i as int).drop_last() =~= ev.take(i - 1));
        }
        if entries[i - 1].0 == *k {
            return Some(i - 1);
        }
        i = i - 1;
    }
    None
}

/// The elements of `next_children` not in `prev_children`, each once, sorted.
fn added_ids(next_children: &Vec<String>, prev_children: &Vec<String>) -> (r: Vec<String>)
    ensures
        strings_view(r@) == added_children(strings_view(next_children@), strings_view(prev_children@)),
{
    let ghost nv = strings_view(next_children@);
    let ghost pv = strings_view(prev_children@);
    let ghost f = |c: Seq<char>| !pv.contains(c);
    let mut kept: Vec<String> = Vec::new();
    let mut i: usize = 0;
    proof {
        assert(nv.take(0).filter(f) =~= Seq::<Seq<char>>::empty());
        assert(strings_view(kept@) =~= Seq::<Seq<char>>::empty());
    }
    while i < next_children.len()
        invariant
            i <= next_children@.len(),
            nv == strings_view(next_children@),
            pv == strings_view(prev_children@),
            f == (|c: Seq<char>| !pv.contains(c)),
            strings_view(kept@) == nv.take(i as int).filter(f),
        decreases next_children@.len() - i,
    {
        proof {
            assert(nv.take(i + 1).drop_last() =~= nv.take(i as int));
            assert(nv.take(i + 1).last() == next_children@[i as int]@);
            reveal_with_fuel(Seq::filter, 1);
        }
        if !contains_str(prev_children, next_children[i].as_str()) {
            push_str(&mut kept, next_children[i].clone());
        }
        i = i + 1;
    }
    proof {
        assert(nv.take(next_children@.len() as int) =~= nv);
    }
    sorted_set_of(&kept)
}

/// Validate that no node gained new children, except optionally `allowed_parent_id`.
///
/// "New child" is defined by child id set difference between `prev` and `next`
/// for each parent that exists in both trees.
///
/// Returns a list of stable error messages (sorted by parent id).
pub fn validate_child_additions_restricted(prev: &Node, next: &Node, allowed_parent_id: Option<&str>) -> (errors: Vec<String>)
    ensures
        strings_view(errors@) == child_addition_errors(prev@, next@, opt_str_view(allowed_parent_id)),
{
    let mut prev_entries: Vec<(String, Vec<String>)> = Vec::new();
    let mut prev_ids: Vec<String> = Vec::new();
    collect_entries(prev, &mut prev_entries, &mut prev_ids);
    let mut next_entries: Vec<(String, Vec<String>)> = Vec::new();
    let mut next_ids: Vec<String> = Vec::new();
    collect_entries(next, &mut next_entries, &mut next_ids);
    proof {
        assert(entries_view(prev_entries@) =~= child_entries(prev@));
        assert(entries_view(next_entries@) =~= child_entries(next@));
        assert(strings_view(next_ids@) =~= preorder_ids(next@));
    }
    let keys = sorted_set_of(&next_ids);
    let ghost kv = strings_view(keys@);
    let ghost pe = child_entries(prev@);
    let ghost ne = child_entries(next@);
    let ghost al = opt_str_view(allowed_parent_id);
    let mut errors: Vec<String> = Vec::new();
    let mut i: usize = 0;
    proof {
        assert(kv.take(0) =~= Seq::<Seq<char>>::empty());
        assert(strings_view(errors@) =~= Seq::<Seq<char>>::empty());
    }
    while i < keys.len()
        invariant
            i <= keys@.len(),
            kv == strings_view(keys@),
            pe == entries_view(prev_entries@),
            ne == entries_view(next_entries@),
            al == opt_str_view(allowed_parent_id),
            kv == sorted_set(strings_view(next_ids@)),
            strings_view(next_ids@) == preorder_ids(next@),
            ne == child_entries(next@),
            strings_view(errors@) == parents_errors(kv.take(i as int), pe, ne, al),
        decreases keys@.len() - i,
    {
        let k = &keys[i];
        proof {
            assert(kv.take(i + 1).drop_last() =~= kv.take(i as int));
            assert(kv.take(i + 1).last() == k@);
        }
        let ghost before = strings_view(errors@);
        match lookup_entry(&prev_entries, k) {
            None => {},
            Some(pj) => {
                match lookup_entry(&next_entries, k) {
                    None => {
                        // Every key comes from the ids of `next`.
                        proof {
                            lemma_entries_ids(next@);
                            lemma_key_found(ne, kv, i as int, strings_view(next_ids@));
                        }
                    },
                    Some(nj) => {
                        let added = added_ids(&next_entries[nj].1, &prev_entries[pj].1);
                        let skip = match allowed_parent_id {
                            Some(a) => str_eq(a, k.as_str()),
                            None => false,
                        };
                        if added.len() > 0 && !skip {
                            let mut m = String::from_str("node '");
                            m.append(k.as_str());
                            m.append("' gained new children: ");
                            m.append(join_strings(&added, ", ").as_str());
                            push_str(&mut errors, m);
                        }
                    },
                }
            },
        }
        i = i + 1;
    }
    proof {
        assert(kv.take(keys@.len() as int) =~= kv);
    }
    errors
}

proof fn lemma_key_found(
    ne: Seq<(Seq<char>, Seq<Seq<char>>)>,
    kv: Seq<Seq<char>>,
    i: int,
    ids: Seq<Seq<char>>,
)
    requires
        0 <= i < kv.len(),
        kv == crate::logic::strseq::sorted_set(ids),
        forall|j: int| 0 <= j < ids.len() ==> #[trigger] ids[j] == ne[j].0,
        ids.len() == ne.len(),
    ensures
        lookup_last(ne, kv[i]) is Some,
{
    crate::logic::strseq::lemma_sorted_set_members(ids);
    let j = choose|j: int| 0 <= j < ids.len() && ids[j] == kv[i];
    lemma_lookup_found(ne, kv[i], j);
}

proof fn lemma_entries_ids(t: NodeV)
    ensures
        child_entries(t).len() == preorder_ids(t).len(),
        forall|j: int| 0 <= j < preorder_ids(t).len() ==> #[trigger] preorder_ids(t)[j] == child_entries(t)[j].0,
    decreases t, 1int,
{
    lemma_entries_ids_forest(t.children);
}

proof fn lemma_entries_ids_forest(s: Seq<NodeV>)
    ensures
        child_entries_forest(s).len() == crate::tree::preorder_ids_forest(s).len(),
        forall|j: int| 0 <= j < crate::tree::preorder_ids_forest(s).len()
            ==> #[trigger] crate::tree::preorder_ids_forest(s)[j] == child_entries_forest(s)[j].0,
    decreases s, 0int,
{
    if s.len() > 0 {
        lemma_entries_ids(s[0]);
        lemma_entries_ids_forest(s.drop_first());
        let a = child_entries(s[0]);
        let b = child_entries_forest(s.drop_first());
        let ia = preorder_ids(s[0]);
        let ib = crate::tree::preorder_ids_forest(s.drop_first());
        assert forall|j: int| 0 <= j < (ia + ib).len() implies #[trigger] (ia + ib)[j] == (a + b)[j].0 by {
            if j < ia.len() {
            } else {
                assert((ia + ib)[j] == ib[j - ia.len()]);
                assert((a + b)[j] == b[j - a.len()]);
            }
        }
    }
}

proof fn lemma_lookup_found<V>(entries: Seq<(Seq<char>, V)>, k: Seq<char>, j: int)
    requires
        0 <= j < entries.len(),
        entries[j].0 == k,
    ensures
        lookup_last(entries, k) is Some,
    decreases entries.len(),
{
    if entries.last().0 != k {
        assert(entries.drop_last()[j] == entries[j]);
        lemma_lookup_found(entries.drop_last(), k, j);
    }
}

} // verus!
