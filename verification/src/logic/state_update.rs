//! Runner-owned state transitions for task trees.
//!
//! `passes` and `attempts` belong to the runner: whatever an agent wrote into
//! them is replaced by the previous tree's values before the step's transition
//! is applied.

use vstd::prelude::*;

use crate::logic::child_additions::lookup_last;
use crate::logic::strseq::{push_str, sort_strings, sort_strs};
use crate::logic::types::{AgentStatus, GuardOutcome, StateUpdateSummary};
use crate::tree::{find_first, find_node, lemma_forest_view, sorted_tree, strings_view, Node, NodeV};

verus! {

/// Runner-owned state of a node: `(passes, attempts)`.
pub type Owned = (bool, u32);

/// `(id, (passes, attempts))` for every node of `t`, depth-first with parents first.
pub open spec fn owned_entries(t: NodeV) -> Seq<(Seq<char>, Owned)>
    decreases t, 1int,
{
    seq![(t.id, (t.passes, t.attempts))] + owned_entries_forest(t.children)
}

pub open spec fn owned_entries_forest(s: Seq<NodeV>) -> Seq<(Seq<char>, Owned)>
    decreases s, 0int,
{
    if s.len() == 0 {
        Seq::empty()
    } else {
        owned_entries(s[0]) + owned_entries_forest(s.drop_first())
    }
}

/// `t` with `passes`/`attempts` of every node taken from `m` by id
/// (the last entry for that id), or `(false, 0)` for ids absent from `m`.
pub open spec fn reset_owned(t: NodeV, m: Seq<(Seq<char>, Owned)>) -> NodeV
    decreases t, 1int,
{
    let o = match lookup_last(m, t.id) {
        Some(o) => o,
        None => (false, 0u32),
    };
    NodeV { passes: o.0, attempts: o.1, children: reset_owned_forest(t.children, m), ..t }
}

pub open spec fn reset_owned_forest(s: Seq<NodeV>, m: Seq<(Seq<char>, Owned)>) -> Seq<NodeV>
    decreases s, 0int,
{
    if s.len() == 0 {
        s
    } else {
        reset_owned_forest(s.drop_last(), m).push(reset_owned(s.last(), m))
    }
}

/// The selected node after the step's transition:
/// - `done` + guards pass: `passes = true`;
/// - `done` + guards fail, or `retry`: `attempts + 1`, saturating at `max_attempts`;
/// - otherwise unchanged.
pub open spec fn transition(n: NodeV, status: AgentStatus, guard: GuardOutcome) -> NodeV {
    if status == AgentStatus::Done && guard == GuardOutcome::Pass {
        NodeV { passes: true, ..n }
    } else if (status == AgentStatus::Done && guard == GuardOutcome::Fail) || status == AgentStatus::Retry {
        if n.attempts < n.max_attempts {
            NodeV { attempts: (n.attempts + 1) as u32, ..n }
        } else {
            n
        }
    } else {
        n
    }
}

/// `t` with `transition` applied to the first node (depth-first) whose id is `id`.
pub open spec fn apply_first(t: NodeV, id: Seq<char>, status: AgentStatus, guard: GuardOutcome) -> NodeV
    decreases t, 1int,
{
    if t.id == id {
        transition(t, status, guard)
    } else {
        NodeV { children: apply_first_forest(t.children, id, status, guard), ..t }
    }
}

pub open spec fn apply_first_forest(s: Seq<NodeV>, id: Seq<char>, status: AgentStatus, guard: GuardOutcome) -> Seq<NodeV>
    decreases s, 0int,
{
    if s.len() == 0 {
        s
    } else if find_first(s[0], id) is Some {
        seq![apply_first(s[0], id, status, guard)] + s.drop_first()
    } else {
        seq![s[0]] + apply_first_forest(s.drop_first(), id, status, guard)
    }
}

/// Whether every tree of `s` passes.
pub open spec fn all_pass(s: Seq<NodeV>) -> bool {
    forall|i: int| 0 <= i < s.len() ==> #[trigger] s[i].passes
}

/// `t` with the `passes` of every internal node derived from its children:
/// an internal node passes exactly when all of its children pass.
pub open spec fn derive_passes(t: NodeV) -> NodeV
    decreases t, 1int,
{
    if t.children.len() == 0 {
        t
    } else {
        let cs = derive_passes_forest(t.children);
        NodeV { passes: all_pass(cs), children: cs, ..t }
    }
}

pub open spec fn derive_passes_forest(s: Seq<NodeV>) -> Seq<NodeV>
    decreases s, 0int,
{
    if s.len() == 0 {
        s
    } else {
        derive_passes_forest(s.drop_last()).push(derive_passes(s.last()))
    }
}

/// The ids of the internal nodes whose `passes` the derivation turns from
/// false to true, children before parents.
pub open spec fn derived_ids(t: NodeV) -> Seq<Seq<char>>
    decreases t, 1int,
{
    if t.children.len() == 0 {
        Seq::empty()
    } else {
        derived_ids_forest(t.children) + (if !t.passes && all_pass(derive_passes_forest(t.children)) {
            seq![t.id]
        } else {
            Seq::empty()
        })
    }
}

pub open spec fn derived_ids_forest(s: Seq<NodeV>) -> Seq<Seq<char>>
    decreases s, 0int,
{
    if s.len() == 0 {
        Seq::empty()
    } else {
        derived_ids_forest(s.drop_last()) + derived_ids(s.last())
    }
}

/// `next` with runner-owned fields restored from `prev`.
pub open spec fn reset_tree(prev: NodeV, next: NodeV) -> NodeV {
    reset_owned(next, owned_entries(prev))
}

/// `next` after reset and the selected node's transition, before derivation.
pub open spec fn transitioned_tree(prev: NodeV, next: NodeV, id: Seq<char>, status: AgentStatus, guard: GuardOutcome) -> NodeV {
    apply_first(reset_tree(prev, next), id, status, guard)
}

/// The tree written after a step: reset, transition, derivation, sorting.
pub open spec fn updated_tree(prev: NodeV, next: NodeV, id: Seq<char>, status: AgentStatus, guard: GuardOutcome) -> NodeV {
    sorted_tree(derive_passes(transitioned_tree(prev, next, id, status, guard)))
}

/// Ids the transition marks as passed.
pub open spec fn passes_set_spec(sel: NodeV, status: AgentStatus, guard: GuardOutcome) -> Seq<Seq<char>> {
    if status == AgentStatus::Done && guard == GuardOutcome::Pass && !sel.passes {
        seq![sel.id]
    } else {
        Seq::empty()
    }
}

/// Ids whose attempts the transition increments.
pub open spec fn attempts_incremented_spec(sel: NodeV, status: AgentStatus, guard: GuardOutcome) -> Seq<Seq<char>> {
    if ((status == AgentStatus::Done && guard == GuardOutcome::Fail) || status == AgentStatus::Retry)
        && sel.attempts < sel.max_attempts {
        seq![sel.id]
    } else {
        Seq::empty()
    }
}

pub open spec fn owned_view(v: Seq<(String, bool, u32)>) -> Seq<(Seq<char>, Owned)> {
    v.map_values(|e: (String, bool, u32)| (e.0@, (e.1, e.2)))
}

proof fn lemma_owned_step(s: Seq<NodeV>, i: int)
    requires
        0 <= i < s.len(),
    ensures
        owned_entries_forest(s.subrange(0, i + 1)) == owned_entries_forest(s.subrange(0, i)) + owned_entries(s[i]),
    decreases i,
{
    if i == 0 {
        let one = s.subrange(0, 1);
        assert(one[0] == s[0]);
        assert(one.drop_first() =~= Seq::<NodeV>::empty());
        assert(s.subrange(0, 0) =~= Seq::<NodeV>::empty());
        assert(owned_entries_forest(one.drop_first()) == Seq::<(Seq<char>, Owned)>::empty());
        assert(owned_entries_forest(s.subrange(0, 0)) == Seq::<(Seq<char>, Owned)>::empty());
        assert(owned_entries(s[0]) + Seq::<(Seq<char>, Owned)>::empty() =~= owned_entries(s[0]));
        assert(Seq::<(Seq<char>, Owned)>::empty() + owned_entries(s[0]) =~= owned_entries(s[0]));
    } else {
        let d = s.drop_first();
        lemma_owned_step(d, i - 1);
        let p1 = s.subrange(0, i + 1);
        let p0 = s.subrange(0, i);
        assert(p1[0] == s[0]);
        assert(p0[0] == s[0]);
        assert(p1.drop_first() =~= d.subrange(0, i));
        assert(p0.drop_first() =~= d.subrange(0, i - 1));
        assert(d[i - 1] == s[i]);
        let a = owned_entries(s[0]);
        let b = owned_entries_forest(d.subrange(0, i - 1));
        let c = owned_entries(s[i]);
        assert(a + (b + c) =~= (a + b) + c);
    }
}

fn collect_owned(node: &Node, out: &mut Vec<(String, bool, u32)>)
    ensures
        owned_view(final(out)@) == owned_view(old(out)@) + owned_entries(node@),
    decreases node@,
{
    proof {
        lemma_forest_view(node.children@);
    }
    let ghost out0 = owned_view(out@);
    out.push((node.id.clone(), node.passes, node.attempts));
    proof {
        assert(owned_view(out@) =~= out0.push((node@.id, (node@.passes, node@.attempts))));
    }
    let ghost cs = node@.children;
    let ghost mid = owned_view(out@);
    let n = node.children.len();
    let mut i: usize = 0;
    proof {
        assert(cs.subrange(0, 0) =~= Seq::<NodeV>::empty());
        assert(owned_entries_forest(cs.subrange(0, 0)) == Seq::<(Seq<char>, Owned)>::empty());
        assert(mid + Seq::<(Seq<char>, Owned)>::empty() =~= mid);
    }
    while i < n
        invariant
            n == node.children@.len(),
            cs == node@.children,
            cs.len() == n,
            i <= n,
            forall|k: int| 0 <= k < n ==> #[trigger] cs[k] == node.children@[k]@,
            owned_view(out@) == mid + owned_entries_forest(cs.subrange(0, i as int)),
        decreases n - i,
    {
        proof {
            assert(decreases_to!(node@ => cs[i as int]));
        }
        collect_owned(&node.children[i], out);
        proof {
            lemma_owned_step(cs, i as int);
            let a = owned_entries_forest(cs.subrange(0, i as int));
            let b = owned_entries(cs[i as int]);
            assert(mid + (a + b) =~= (mid + a) + b);
        }
        i = i + 1;
    }
    proof {
        assert(cs.subrange(0, n as int) =~= cs);
        let x = (node@.id, (node@.passes, node@.attempts));
        assert(out0 + (seq![x] + owned_entries_forest(cs)) =~= out0.push(x) + owned_entries_forest(cs));
    }
}

fn lookup_owned(entries: &Vec<(String, bool, u32)>, k: &String) -> (r: Option<Owned>)
    ensures
        r == lookup_last(owned_view(entries@), k@),
{
    let ghost ev = owned_view(entries@);
    let mut i: usize = entries.len();
    proof {
        assert(ev.take(i as int) =~= ev);
    }
    while i > 0
        invariant
            i <= entries@.len(),
            ev == owned_view(entries@),
            lookup_last(ev, k@) == lookup_last(ev.take(i as int), k@),
        decreases i,
    {
        proof {
            assert(ev.take(i as int).last() == ev[i - 1]);
            assert(ev.take(i as int).drop_last() =~= ev.take(i - 1));
        }
        if entries[i - 1].0 == *k {
            return Some((entries[i - 1].1, entries[i - 1].2));
        }
        i = i - 1;
    }
    None
}

fn reset_fields(node: &mut Node, m: &Vec<(String, bool, u32)>)
    ensures
        final(node)@ == reset_owned(old(node)@, owned_view(m@)),
    decreases old(node)@,
{
    let ghost mv = owned_view(m@);
    match lookup_owned(m, &node.id) {
        Some((p, a)) => {
            node.passes = p;
            node.attempts = a;
        },
        None => {
            node.passes = false;
            node.attempts = 0;
        },
    }
    let ghost old_children = node.children@;
    proof {
        lemma_forest_view(old_children);
        assert(forest_view_eq(old_children, old(node)@.children));
    }
    let mut rest: Vec<Node> = Vec::new();
    std::mem::swap(&mut rest, &mut node.children);
    let n: usize = rest.len();
    let mut out: Vec<Node> = Vec::new();
    let mut k: usize = 0;
    proof {
        assert(forest_view_of(out@) =~= reset_owned_forest(old(node)@.children.take(0), mv));
    }
    while rest.len() > 0
        invariant
            rest@ == old_children.subrange(k as int, n as int),
            n == old_children.len(),
            k <= n,
            rest@.len() == n - k,
            mv == owned_view(m@),
            old(node)@.children.len() == n,
            forall|i: int| 0 <= i < n ==> #[trigger] old(node)@.children[i] == old_children[i]@,
            forest_view_of(out@) == reset_owned_forest(old(node)@.children.take(k as int), mv),
        decreases n - k,
    {
        let mut c = rest.remove(0);
        proof {
            assert(c == old_children[k as int]);
            assert(decreases_to!(old(node)@ => old(node)@.children[k as int]));
        }
        reset_fields(&mut c, m);
        let ghost before = out@;
        out.push(c);
        proof {
            lemma_forest_view(before);
            lemma_forest_view(out@);
            assert(forest_view_of(out@) =~= forest_view_of(before).push(c@));
            assert(old(node)@.children.take(k + 1).drop_last() =~= old(node)@.children.take(k as int));
            assert(rest@ =~= old_children.subrange(k + 1, n as int));
        }
        k = k + 1;
    }
    node.children = out;
    proof {
        assert(old(node)@.children.take(n as int) =~= old(node)@.children);
    }
}

spec fn forest_view_of(s: Seq<Node>) -> Seq<NodeV> {
    crate::tree::forest_view(s)
}

spec fn forest_view_eq(s: Seq<Node>, v: Seq<NodeV>) -> bool {
    crate::tree::forest_view(s) == v
}

proof fn lemma_sort_small(s: Seq<Seq<char>>)
    requires
        s.len() <= 1,
    ensures
        sort_strs(s) == s,
{
    if s.len() == 1 {
        assert(s.drop_last() =~= Seq::<Seq<char>>::empty());
        assert(sort_strs(s.drop_last()) == Seq::<Seq<char>>::empty());
        assert(crate::logic::strseq::insert_str(Seq::<Seq<char>>::empty(), s.last()) == seq![s.last()]);
        assert(seq![s.last()] =~= s);
    }
}

proof fn lemma_apply_forest_skip(cs: Seq<NodeV>, k: int, id: Seq<char>, st: AgentStatus, g: GuardOutcome)
    requires
        0 <= k < cs.len(),
    ensures
        cs.skip(k)[0] == cs[k],
        cs.skip(k).drop_first() =~= cs.skip(k + 1),
        find_first(cs[k], id) is Some ==> apply_first_forest(cs.skip(k), id, st, g) == seq![apply_first(cs[k], id, st, g)] + cs.skip(k + 1),
        find_first(cs[k], id) is None ==> apply_first_forest(cs.skip(k), id, st, g) == seq![cs[k]] + apply_first_forest(cs.skip(k + 1), id, st, g),
{
    assert(cs.skip(k)[0] == cs[k]);
    assert(cs.skip(k).drop_first() =~= cs.skip(k + 1));
}

fn apply_transition(node: &mut Node, id: &str, status: AgentStatus, guard: GuardOutcome)
    ensures
        final(node)@ == apply_first(old(node)@, id@, status, guard),
    decreases old(node)@,
{
    if crate::text::str_eq(node.id.as_str(), id) {
        match (status, guard) {
            (AgentStatus::Done, GuardOutcome::Pass) => {
                node.passes = true;
            },
            (AgentStatus::Done, GuardOutcome::Fail) | (AgentStatus::Retry, _) => {
                if node.attempts < node.max_attempts {
                    node.attempts = node.attempts + 1;
                }
            },
            _ => {},
        }
        return;
    }
    let ghost old_children = node.children@;
    let ghost cs = old(node)@.children;
    proof {
        lemma_forest_view(old_children);
    }
    let mut rest: Vec<Node> = Vec::new();
    std::mem::swap(&mut rest, &mut node.children);
    let n: usize = rest.len();
    let mut out: Vec<Node> = Vec::new();
    let mut done = false;
    let mut k: usize = 0;
    proof {
        lemma_forest_view(out@);
        assert(cs.take(0) =~= Seq::<NodeV>::empty());
        assert(cs.skip(0) =~= cs);
        assert(crate::tree::forest_view(out@) =~= cs.take(0));
        assert(cs.take(0) + apply_first_forest(cs.skip(0), id@, status, guard) =~= apply_first_forest(cs, id@, status, guard));
    }
    while rest.len() > 0
        invariant
            rest@ == old_children.subrange(k as int, n as int),
            n == old_children.len(),
            k <= n,
            rest@.len() == n - k,
            cs == old(node)@.children,
            cs.len() == n,
            forall|i: int| 0 <= i < n ==> #[trigger] cs[i] == old_children[i]@,
            !done ==> crate::tree::forest_view(out@) == cs.take(k as int),
            !done ==> apply_first_forest(cs, id@, status, guard) == cs.take(k as int) + apply_first_forest(cs.skip(k as int), id@, status, guard),
            done ==> crate::tree::forest_view(out@) + cs.skip(k as int) == apply_first_forest(cs, id@, status, guard),
        decreases n - k,
    {
        let mut c = rest.remove(0);
        proof {
            assert(c == old_children[k as int]);
            assert(c@ == cs[k as int]);
            assert(decreases_to!(old(node)@ => cs[k as int]));
            lemma_apply_forest_skip(cs, k as int, id@, status, guard);
        }
        let ghost before = out@;
        let ghost was_done = done;
        if !done && find_node(&c, id).is_some() {
            apply_transition(&mut c, id, status, guard);
            done = true;
        }
        out.push(c);
        proof {
            lemma_forest_view(before);
            lemma_forest_view(out@);
            assert(crate::tree::forest_view(out@) =~= crate::tree::forest_view(before).push(c@));
            assert(rest@ =~= old_children.subrange(k + 1, n as int));
            let r = apply_first_forest(cs, id@, status, guard);
            if was_done {
                assert(crate::tree::forest_view(before) + cs.skip(k as int) == r);
                assert(cs.skip(k as int) =~= seq![cs[k as int]] + cs.skip(k + 1));
                assert(crate::tree::forest_view(out@) + cs.skip(k + 1) =~= crate::tree::forest_view(before) + cs.skip(k as int));
            } else if done {
                assert(crate::tree::forest_view(out@) + cs.skip(k + 1) =~= cs.take(k as int) + (seq![apply_first(cs[k as int], id@, status, guard)] + cs.skip(k + 1)));
            } else {
                assert(cs.take(k + 1) =~= cs.take(k as int).push(cs[k as int]));
                assert(cs.take(k as int) + (seq![cs[k as int]] + apply_first_forest(cs.skip(k + 1), id@, status, guard))
                    =~= cs.take(k + 1) + apply_first_forest(cs.skip(k + 1), id@, status, guard));
            }
        }
        k = k + 1;
    }
    node.children = out;
    proof {
        assert(cs.take(n as int) =~= cs);
        assert(cs.skip(n as int) =~= Seq::<NodeV>::empty());
        assert(apply_first_forest(cs.skip(n as int), id@, status, guard) == Seq::<NodeV>::empty());
        assert(cs + Seq::<NodeV>::empty() =~= cs);
        assert(crate::tree::forest_view(node.children@) + Seq::<NodeV>::empty() =~= crate::tree::forest_view(node.children@));
    }
}

fn derive(node: &mut Node, derived: &mut Vec<String>) -> (r: bool)
    ensures
        final(node)@ == derive_passes(old(node)@),
        r == final(node)@.passes,
        strings_view(final(derived)@) == strings_view(old(derived)@) + derived_ids(old(node)@),
    decreases old(node)@,
{
    if node.children.len() == 0 {
        proof {
            lemma_forest_view(node.children@);
            assert(strings_view(derived@) + Seq::<Seq<char>>::empty() =~= strings_view(derived@));
        }
        return node.passes;
    }
    let ghost old_children = node.children@;
    let ghost cs = old(node)@.children;
    let ghost d0 = strings_view(derived@);
    proof {
        lemma_forest_view(old_children);
    }
    let mut rest: Vec<Node> = Vec::new();
    std::mem::swap(&mut rest, &mut node.children);
    let n: usize = rest.len();
    let mut out: Vec<Node> = Vec::new();
    let mut all = true;
    let mut k: usize = 0;
    proof {
        lemma_forest_view(out@);
        assert(cs.take(0) =~= Seq::<NodeV>::empty());
        assert(crate::tree::forest_view(out@) =~= derive_passes_forest(cs.take(0)));
        assert(derived_ids_forest(cs.take(0)) == Seq::<Seq<char>>::empty());
        assert(d0 + Seq::<Seq<char>>::empty() =~= d0);
    }
    while rest.len() > 0
        invariant
            rest@ == old_children.subrange(k as int, n as int),
            n == old_children.len(),
            k <= n,
            rest@.len() == n - k,
            cs == old(node)@.children,
            cs.len() == n,
            forall|i: int| 0 <= i < n ==> #[trigger] cs[i] == old_children[i]@,
            crate::tree::forest_view(out@) == derive_passes_forest(cs.take(k as int)),
            all == all_pass(derive_passes_forest(cs.take(k as int))),
            strings_view(derived@) == d0 + derived_ids_forest(cs.take(k as int)),
        decreases n - k,
    {
        let mut c = rest.remove(0);
        proof {
            assert(c == old_children[k as int]);
            assert(c@ == cs[k as int]);
            assert(decreases_to!(old(node)@ => cs[k as int]));
        }
        let ghost dbefore = strings_view(derived@);
        let p = derive(&mut c, derived);
        all = all && p;
        let ghost before = out@;
        out.push(c);
        proof {
            lemma_forest_view(before);
            lemma_forest_view(out@);
            assert(crate::tree::forest_view(out@) =~= crate::tree::forest_view(before).push(c@));
            assert(rest@ =~= old_children.subrange(k + 1, n as int));
            assert(cs.take(k + 1).drop_last() =~= cs.take(k as int));
            assert(cs.take(k + 1).last() == cs[k as int]);
            let prev_d = derive_passes_forest(cs.take(k as int));
            let new_d = derive_passes_forest(cs.take(k + 1));
            assert(new_d == prev_d.push(derive_passes(cs[k as int])));
            assert(all_pass(new_d) == (all_pass(prev_d) && derive_passes(cs[k as int]).passes)) by {
                if all_pass(prev_d) && derive_passes(cs[k as int]).passes {
                    assert forall|i: int| 0 <= i < new_d.len() implies #[trigger] new_d[i].passes by {
                        if i < prev_d.len() {
                            assert(new_d[i] == prev_d[i]);
                        }
                    }
                }
                if all_pass(new_d) {
                    assert(new_d[prev_d.len() as int].passes);
                    assert forall|i: int| 0 <= i < prev_d.len() implies #[trigger] prev_d[i].passes by {
                        assert(new_d[i] == prev_d[i]);
                    }
                }
            }
            let a = derived_ids_forest(cs.take(k as int));
            let b = derived_ids(cs[k as int]);
            assert(d0 + (a + b) =~= (d0 + a) + b);
        }
        k = k + 1;
    }
    proof {
        assert(cs.take(n as int) =~= cs);
    }
    node.children = out;
    let ghost before_flag = derived@;
    if node.passes != all {
        node.passes = all;
        if all {
            push_str(derived, node.id.clone());
        }
    }
    proof {
        let x = derived_ids_forest(cs);
        if !old(node)@.passes && all {
            assert(strings_view(derived@) =~= d0 + (x + seq![old(node)@.id]));
        } else {
            assert(strings_view(derived@) =~= d0 + (x + Seq::<Seq<char>>::empty()));
        }
    }
    node.passes
}

/// Apply runner-owned state updates to `next` using `prev` as the source of truth.
///
/// This enforces runner ownership of `passes` and `attempts`, applies the
/// selected-node transition, and derives internal passes from children.
/// When `selected_id` does not occur, `next` keeps the restored runner-owned
/// fields and an error is returned.
pub fn apply_state_updates(
    prev: &Node,
    next: &mut Node,
    selected_id: &str,
    status: AgentStatus,
    guard: GuardOutcome,
) -> (r: Result<StateUpdateSummary, String>)
    ensures
        match r {
            Err(e) => {
                &&& find_first(reset_tree(prev@, old(next)@), selected_id@) is None
                &&& final(next)@ == reset_tree(prev@, old(next)@)
                &&& e@ == "selected node '"@ + selected_id@ + "' not found"@
            },
            Ok(summary) => {
                let sel = find_first(reset_tree(prev@, old(next)@), selected_id@).unwrap();
                &&& find_first(reset_tree(prev@, old(next)@), selected_id@) is Some
                &&& final(next)@ == updated_tree(prev@, old(next)@, selected_id@, status, guard)
                &&& summary.status == status
                &&& summary.guard_outcome == guard
                &&& strings_view(summary.passes_set@) == passes_set_spec(sel, status, guard)
                &&& strings_view(summary.attempts_incremented@) == attempts_incremented_spec(sel, status, guard)
                &&& strings_view(summary.derived_passes_set@) == sort_strs(
                    derived_ids(transitioned_tree(prev@, old(next)@, selected_id@, status, guard)),
                )
            },
        },
{
    let mut owned: Vec<(String, bool, u32)> = Vec::new();
    collect_owned(prev, &mut owned);
    proof {
        assert(owned_view(owned@) =~= owned_entries(prev@));
    }
    reset_fields(next, &owned);
    let (found, was_passes, attempts, max_attempts) = match find_node(next, selected_id) {
        None => {
            let mut m = String::from_str("selected node '");
            m.append(selected_id);
            m.append("' not found");
            return Err(m);
        },
        Some(sel) => (sel.id.clone(), sel.passes, sel.attempts, sel.max_attempts),
    };
    let mut passes_set: Vec<String> = Vec::new();
    let mut attempts_incremented: Vec<String> = Vec::new();
    match (status, guard) {
        (AgentStatus::Done, GuardOutcome::Pass) => {
            if !was_passes {
                push_str(&mut passes_set, found.clone());
            }
        },
        (AgentStatus::Done, GuardOutcome::Fail) | (AgentStatus::Retry, _) => {
            if attempts < max_attempts {
                push_str(&mut attempts_incremented, found.clone());
            }
        },
        _ => {},
    }
    apply_transition(next, selected_id, status, guard);
    let mut derived: Vec<String> = Vec::new();
    derive(next, &mut derived);
    next.sort_children();
    proof {
        assert(strings_view(Seq::<String>::empty()) + derived_ids(transitioned_tree(prev@, old(next)@, selected_id@, status, guard))
            =~= derived_ids(transitioned_tree(prev@, old(next)@, selected_id@, status, guard)));
        assert(strings_view(passes_set@) =~= passes_set_spec(
            find_first(reset_tree(prev@, old(next)@), selected_id@).unwrap(), status, guard));
        assert(strings_view(attempts_incremented@) =~= attempts_incremented_spec(
            find_first(reset_tree(prev@, old(next)@), selected_id@).unwrap(), status, guard));
    }
    let passes_set = sort_strings(passes_set);
    let attempts_incremented = sort_strings(attempts_incremented);
    let derived_passes_set = sort_strings(derived);
    proof {
        let sel = find_first(reset_tree(prev@, old(next)@), selected_id@).unwrap();
        lemma_sort_small(passes_set_spec(sel, status, guard));
        lemma_sort_small(attempts_incremented_spec(sel, status, guard));
    }
    Ok(StateUpdateSummary { status, guard_outcome: guard, passes_set, attempts_incremented, derived_passes_set })
}

} // verus!
