//! Properties of the runner that hold across its operations.

use vstd::multiset::Multiset;
use vstd::prelude::*;

use crate::io::sections::{
    budgeted, cut_last, cut_length, drop_key, drop_pass, droppable_from, SectionV,
};
use crate::logic::child_additions::{child_entries, child_entries_forest, child_ids, lookup_last};
use crate::logic::immutability::{
    all_passed_errors, immutability_errors, insert_by_id, keyed, parent_entries, passed_entries, passed_errors, sort_by_id,
    ParentEntry,
};
use crate::logic::selector::{open_leaf, open_leaf_forest};
use crate::logic::state_update::{
    all_pass, apply_first, apply_first_forest, derive_passes, derive_passes_forest, reset_tree,
    transition, transitioned_tree, updated_tree,
};
use crate::logic::types::{AgentStatus, GuardOutcome};
use crate::io::goal::{
    closing_fence, fence, frontmatter_doc, frontmatter_id, frontmatter_parts, has_id_line, id_char_ok, id_error,
    id_from_lines, id_key, id_line, is_id_line, replace_id_lines, unquote, upsert_id, with_final_nl, with_goal_id,
};
use crate::logic::strseq::{dedup, insert_str, sort_strs, sorted_set};
use crate::scan::{child_id, find_from, find_seq, is_ws, lines_of, split_nl, split_once, trim, trim_end, trim_start};
use crate::text::seq_lt;
use crate::step::{allocated_ids, least_free, lemma_least_free};
use crate::tree::{find_first, find_first_forest, insert_by_key, key_lt, sort_by_key, sorted_forest, sorted_tree, NodeV};

verus! {

broadcast use {vstd::multiset::group_multiset_axioms, vstd::seq_lib::group_to_multiset_ensures, vstd::multiset::lemma_multiset_empty_len};

// ---------------------------------------------------------------------------
// Selection

/// The leaf selected for work is a leaf that has not passed.
pub proof fn law_open_leaf_is_unfinished_leaf(t: NodeV)
    ensures
        open_leaf(t) matches Some(x) ==> x.children.len() == 0 && !x.passes,
    decreases t, 1int,
{
    if t.children.len() > 0 {
        lemma_open_leaf_forest(t.children);
    }
}

proof fn lemma_open_leaf_forest(s: Seq<NodeV>)
    ensures
        open_leaf_forest(s) matches Some(x) ==> x.children.len() == 0 && !x.passes,
    decreases s, 0int,
{
    if s.len() > 0 {
        law_open_leaf_is_unfinished_leaf(s[0]);
        lemma_open_leaf_forest(s.drop_first());
    }
}

// ---------------------------------------------------------------------------
// Runner-owned state

/// A `decomposed` status changes no node's `passes` or `attempts`: the
/// selected node is left as the runner last recorded it.
pub proof fn law_decomposition_consumes_no_attempt(prev: NodeV, next: NodeV, id: Seq<char>, guard: GuardOutcome)
    ensures
        transitioned_tree(prev, next, id, AgentStatus::Decomposed, guard) == reset_tree(prev, next),
{
    lemma_apply_first_decomposed(reset_tree(prev, next), id, guard);
}

proof fn lemma_apply_first_decomposed(t: NodeV, id: Seq<char>, guard: GuardOutcome)
    ensures
        apply_first(t, id, AgentStatus::Decomposed, guard) == t,
    decreases t, 1int,
{
    if t.id != id {
        lemma_apply_first_forest_decomposed(t.children, id, guard);
    }
}

proof fn lemma_apply_first_forest_decomposed(s: Seq<NodeV>, id: Seq<char>, guard: GuardOutcome)
    ensures
        apply_first_forest(s, id, AgentStatus::Decomposed, guard) == s,
    decreases s, 0int,
{
    if s.len() > 0 {
        lemma_apply_first_decomposed(s[0], id, guard);
        lemma_apply_first_forest_decomposed(s.drop_first(), id, guard);
        assert(seq![s[0]] + s.drop_first() =~= s);
    }
}

/// A step's transition never takes a node's attempts past its maximum, and
/// raises them by at most one.
pub proof fn law_attempts_saturate(n: NodeV, status: AgentStatus, guard: GuardOutcome)
    requires
        n.attempts <= n.max_attempts,
    ensures
        transition(n, status, guard).attempts <= n.max_attempts,
        n.attempts <= transition(n, status, guard).attempts <= n.attempts + 1,
        transition(n, status, guard).max_attempts == n.max_attempts,
{
}

/// Only `done` with passing guards marks a node passed.
pub proof fn law_only_passing_guards_mark_done(n: NodeV, status: AgentStatus, guard: GuardOutcome)
    ensures
        transition(n, status, guard).passes != n.passes ==> status == AgentStatus::Done && guard == GuardOutcome::Pass,
{
}

/// Whether every internal node of `t` passes exactly when all its children pass.
pub open spec fn passes_derived(t: NodeV) -> bool
    decreases t, 1int,
{
    &&& (t.children.len() > 0 ==> t.passes == all_pass(t.children))
    &&& passes_derived_forest(t.children)
}

pub open spec fn passes_derived_forest(s: Seq<NodeV>) -> bool
    decreases s, 0int,
{
    s.len() > 0 ==> passes_derived(s[0]) && passes_derived_forest(s.drop_first())
}

proof fn lemma_derived_forest_index(s: Seq<NodeV>)
    ensures
        passes_derived_forest(s) <==> forall|i: int| 0 <= i < s.len() ==> passes_derived(#[trigger] s[i]),
    decreases s.len(),
{
    if s.len() > 0 {
        lemma_derived_forest_index(s.drop_first());
        if forall|i: int| 0 <= i < s.len() ==> passes_derived(#[trigger] s[i]) {
            assert forall|i: int| 0 <= i < s.drop_first().len() implies passes_derived(#[trigger] s.drop_first()[i]) by {
                assert(s.drop_first()[i] == s[i + 1]);
            }
        }
        if passes_derived_forest(s) {
            assert forall|i: int| 0 <= i < s.len() implies passes_derived(#[trigger] s[i]) by {
                if i > 0 {
                    assert(s[i] == s.drop_first()[i - 1]);
                }
            }
        }
    }
}

proof fn lemma_derive_passes_ok(t: NodeV)
    ensures
        passes_derived(derive_passes(t)),
        derive_passes(t).children.len() == t.children.len(),
    decreases t, 1int,
{
    if t.children.len() > 0 {
        lemma_derive_forest_ok(t.children);
        lemma_derived_forest_index(derive_passes_forest(t.children));
    } else {
        lemma_derived_forest_index(t.children);
    }
}

proof fn lemma_derive_forest_ok(s: Seq<NodeV>)
    ensures
        derive_passes_forest(s).len() == s.len(),
        forall|i: int| 0 <= i < s.len() ==> passes_derived(#[trigger] derive_passes_forest(s)[i]),
    decreases s, 0int,
{
    if s.len() > 0 {
        lemma_derive_forest_ok(s.drop_last());
        assert(decreases_to!(s => s.last()));
        lemma_derive_passes_ok(s.last());
    }
}

proof fn lemma_insert_pass(s: Seq<NodeV>, x: NodeV)
    ensures
        insert_by_key(s, x).len() == s.len() + 1,
        all_pass(insert_by_key(s, x)) == (all_pass(s) && x.passes),
        (forall|i: int| 0 <= i < s.len() ==> passes_derived(#[trigger] s[i])) && passes_derived(x) ==> forall|i: int|
            0 <= i < s.len() + 1 ==> passes_derived(#[trigger] insert_by_key(s, x)[i]),
    decreases s.len(),
{
    if s.len() > 0 && !crate::tree::key_lt(x, s[0]) {
        lemma_insert_pass(s.drop_first(), x);
        let r = insert_by_key(s, x);
        let q = insert_by_key(s.drop_first(), x);
        assert(r == seq![s[0]] + q);
        if all_pass(s) && x.passes {
            assert forall|i: int| 0 <= i < r.len() implies #[trigger] r[i].passes by {
                if i > 0 {
                    assert(r[i] == q[i - 1]);
                    assert forall|k: int| 0 <= k < s.drop_first().len() implies #[trigger] s.drop_first()[k].passes by {
                        assert(s.drop_first()[k] == s[k + 1]);
                    }
                }
            }
        }
        if all_pass(r) {
            assert(s[0].passes) by {
                assert(r[0] == s[0]);
            }
            assert forall|k: int| 0 <= k < q.len() implies #[trigger] q[k].passes by {
                assert(q[k] == r[k + 1]);
            }
            assert forall|k: int| 0 <= k < s.len() implies #[trigger] s[k].passes by {
                if k > 0 {
                    assert(s[k] == s.drop_first()[k - 1]);
                }
            }
        }
        if (forall|i: int| 0 <= i < s.len() ==> passes_derived(#[trigger] s[i])) && passes_derived(x) {
            assert forall|i: int| 0 <= i < s.drop_first().len() implies passes_derived(#[trigger] s.drop_first()[i]) by {
                assert(s.drop_first()[i] == s[i + 1]);
            }
            assert forall|i: int| 0 <= i < r.len() implies passes_derived(#[trigger] r[i]) by {
                if i > 0 {
                    assert(r[i] == q[i - 1]);
                }
            }
        }
    } else {
        let r = insert_by_key(s, x);
        assert(r == seq![x] + s);
        if all_pass(s) && x.passes {
            assert forall|i: int| 0 <= i < r.len() implies #[trigger] r[i].passes by {
                if i > 0 {
                    assert(r[i] == s[i - 1]);
                }
            }
        }
        if all_pass(r) {
            assert(r[0] == x);
            assert forall|k: int| 0 <= k < s.len() implies #[trigger] s[k].passes by {
                assert(s[k] == r[k + 1]);
            }
        }
        if (forall|i: int| 0 <= i < s.len() ==> passes_derived(#[trigger] s[i])) && passes_derived(x) {
            assert forall|i: int| 0 <= i < r.len() implies passes_derived(#[trigger] r[i]) by {
                if i > 0 {
                    assert(r[i] == s[i - 1]);
                }
            }
        }
    }
}

proof fn lemma_sort_pass(s: Seq<NodeV>)
    ensures
        sort_by_key(s).len() == s.len(),
        all_pass(sort_by_key(s)) == all_pass(s),
        (forall|i: int| 0 <= i < s.len() ==> passes_derived(#[trigger] s[i])) ==> forall|i: int|
            0 <= i < s.len() ==> passes_derived(#[trigger] sort_by_key(s)[i]),
    decreases s.len(),
{
    if s.len() > 0 {
        let p = s.drop_last();
        lemma_sort_pass(p);
        lemma_insert_pass(sort_by_key(p), s.last());
        if all_pass(s) {
            assert forall|k: int| 0 <= k < p.len() implies #[trigger] p[k].passes by {
                assert(p[k] == s[k]);
            }
        }
        if all_pass(p) && s.last().passes {
            assert forall|k: int| 0 <= k < s.len() implies #[trigger] s[k].passes by {
                if k < p.len() {
                    assert(s[k] == p[k]);
                }
            }
        }
        if forall|i: int| 0 <= i < s.len() ==> passes_derived(#[trigger] s[i]) {
            assert forall|i: int| 0 <= i < p.len() implies passes_derived(#[trigger] p[i]) by {
                assert(p[i] == s[i]);
            }
        }
    }
}

proof fn lemma_sorted_keeps_derived(t: NodeV)
    requires
        passes_derived(t),
    ensures
        passes_derived(sorted_tree(t)),
        sorted_tree(t).passes == t.passes,
    decreases t, 1int,
{
    lemma_derived_forest_index(t.children);
    lemma_sorted_forest_derived(t.children);
    let sf = sorted_forest(t.children);
    lemma_sort_pass(sf);
    lemma_derived_forest_index(sort_by_key(sf));
}

proof fn lemma_sorted_forest_derived(s: Seq<NodeV>)
    requires
        forall|i: int| 0 <= i < s.len() ==> passes_derived(#[trigger] s[i]),
    ensures
        sorted_forest(s).len() == s.len(),
        forall|i: int| 0 <= i < s.len() ==> passes_derived(#[trigger] sorted_forest(s)[i]),
        forall|i: int| 0 <= i < s.len() ==> (#[trigger] sorted_forest(s)[i]).passes == s[i].passes,
        all_pass(sorted_forest(s)) == all_pass(s),
    decreases s, 0int,
{
    if s.len() > 0 {
        let p = s.drop_last();
        assert forall|i: int| 0 <= i < p.len() implies passes_derived(#[trigger] p[i]) by {
            assert(p[i] == s[i]);
        }
        lemma_sorted_forest_derived(p);
        assert(decreases_to!(s => s.last()));
        lemma_sorted_keeps_derived(s.last());
        let r = sorted_forest(s);
        assert(r == sorted_forest(p).push(sorted_tree(s.last())));
        assert forall|i: int| 0 <= i < s.len() implies (#[trigger] r[i]).passes == s[i].passes by {
            if i < p.len() {
                assert(r[i] == sorted_forest(p)[i]);
                assert(s[i] == p[i]);
            }
        }
        assert forall|i: int| 0 <= i < s.len() implies passes_derived(#[trigger] r[i]) by {
            if i < p.len() {
                assert(r[i] == sorted_forest(p)[i]);
            }
        }
        if all_pass(s) {
            assert forall|k: int| 0 <= k < r.len() implies #[trigger] r[k].passes by {
                assert(r[k].passes == s[k].passes);
            }
        }
        if all_pass(r) {
            assert forall|k: int| 0 <= k < s.len() implies #[trigger] s[k].passes by {
                assert(r[k].passes == s[k].passes);
            }
        }
    }
}

/// After a step, every internal node passes exactly when all of its children pass.
pub proof fn law_internal_passes_follow_children(
    prev: NodeV,
    next: NodeV,
    id: Seq<char>,
    status: AgentStatus,
    guard: GuardOutcome,
)
    ensures
        passes_derived(updated_tree(prev, next, id, status, guard)),
{
    let t = transitioned_tree(prev, next, id, status, guard);
    lemma_derive_passes_ok(t);
    lemma_sorted_keeps_derived(derive_passes(t));
}

// ---------------------------------------------------------------------------
// Decomposition

/// The ids given to new children are new: none was used before, and no two are equal.
pub proof fn law_allocated_ids_are_fresh(parent: Seq<char>, used: Seq<Seq<char>>, k: nat)
    ensures
        allocated_ids(parent, used, k).len() == k,
        forall|i: int| 0 <= i < k ==> !used.contains(#[trigger] allocated_ids(parent, used, k)[i]),
        forall|i: int, j: int| 0 <= i < j < k ==> allocated_ids(parent, used, k)[i] != allocated_ids(parent, used, k)[j],
    decreases k,
{
    if k > 0 {
        let p = allocated_ids(parent, used, (k - 1) as nat);
        law_allocated_ids_are_fresh(parent, used, (k - 1) as nat);
        lemma_least_free(parent, used + p);
        let x = child_id(parent, least_free(parent, used + p));
        let all = allocated_ids(parent, used, k);
        assert(all == p.push(x));
        assert(!(used + p).contains(x));
        assert forall|i: int| 0 <= i < k implies !used.contains(#[trigger] all[i]) by {
            if i < k - 1 {
                assert(all[i] == p[i]);
            } else {
                if used.contains(x) {
                    let j = choose|j: int| 0 <= j < used.len() && used[j] == x;
                    assert((used + p)[j] == x);
                }
            }
        }
        assert forall|i: int, j: int| 0 <= i < j < k implies all[i] != all[j] by {
            if j == k - 1 {
                assert(all[i] == p[i]);
                assert((used + p)[used.len() + i] == p[i]);
            } else {
                assert(all[i] == p[i]);
                assert(all[j] == p[j]);
            }
        }
    }
}

// ---------------------------------------------------------------------------
// Prompt budget

/// The keys of the required sections of `secs`, in order.
pub open spec fn required_keys(secs: Seq<SectionV>) -> Seq<Seq<char>>
    decreases secs.len(),
{
    if secs.len() == 0 {
        Seq::empty()
    } else if secs.last().1 {
        required_keys(secs.drop_last()).push(secs.last().0)
    } else {
        required_keys(secs.drop_last())
    }
}

proof fn lemma_required_remove(secs: Seq<SectionV>, j: int)
    requires
        0 <= j < secs.len(),
        !secs[j].1,
    ensures
        required_keys(secs.remove(j)) == required_keys(secs),
    decreases secs.len(),
{
    if j < secs.len() - 1 {
        lemma_required_remove(secs.drop_last(), j);
        assert(secs.remove(j).drop_last() =~= secs.drop_last().remove(j));
        assert(secs.remove(j).last() == secs.last());
    } else {
        assert(secs.remove(j) =~= secs.drop_last());
    }
}

proof fn lemma_droppable_found(secs: Seq<SectionV>, key: Seq<char>, j: int)
    requires
        0 <= j,
    ensures
        droppable_from(secs, key, j) matches Some(i) ==> 0 <= i < secs.len() && !secs[i].1,
    decreases secs.len() - j,
{
    if 0 <= j < secs.len() && !(secs[j].0 == key && !secs[j].1) {
        lemma_droppable_found(secs, key, j + 1);
    }
}

proof fn lemma_drop_pass_required(secs: Seq<SectionV>, budget: nat, keys: Seq<Seq<char>>)
    ensures
        required_keys(drop_pass(secs, budget, keys)) == required_keys(secs),
    decreases keys.len(),
{
    if !(keys.len() == 0 || crate::io::sections::content_bytes(secs) <= budget) {
        lemma_droppable_found(secs, keys[0], 0);
        match droppable_from(secs, keys[0], 0) {
            Some(j) => {
                lemma_required_remove(secs, j);
            },
            None => {},
        }
        lemma_drop_pass_required(drop_key(secs, keys[0]), budget, keys.drop_first());
    }
}

proof fn lemma_required_update_last(secs: Seq<SectionV>, text: Seq<char>)
    requires
        secs.len() > 0,
    ensures
        required_keys(secs.update(secs.len() - 1, (secs.last().0, secs.last().1, text))) == required_keys(secs),
{
    let u = secs.update(secs.len() - 1, (secs.last().0, secs.last().1, text));
    assert(u.drop_last() =~= secs.drop_last());
}

/// Fitting a prompt to its budget never drops a required section: the
/// required sections come out in the same order, with the same keys.
pub proof fn law_budget_keeps_required_sections(secs: Seq<SectionV>, budget: nat)
    ensures
        required_keys(budgeted(secs, budget)) == required_keys(secs),
{
    let d = drop_pass(secs, budget, crate::io::sections::drop_order());
    lemma_drop_pass_required(secs, budget, crate::io::sections::drop_order());
    match cut_length(d, budget) {
        None => {},
        Some(n) => {
            let last = d.last();
            let kept = last.2.take(crate::io::git::char_index_at_byte(last.2, n as int).unwrap());
            let text = if crate::io::sections::allowed_bytes(d, budget) > 12 { kept + "\n[truncated]"@ } else { kept };
            lemma_required_update_last(d, text);
        },
    }
}

// ---------------------------------------------------------------------------
// Goal document

proof fn lemma_id_chars(id: Seq<char>)
    requires
        id_error(id) is None,
    ensures
        id.len() > 0,
        forall|i: int| 0 <= i < id.len() ==> id_char_ok(#[trigger] id[i]),
{
    if exists|i: int| 0 <= i < id.len() && !id_char_ok(#[trigger] id[i]) {
        assert(id_error(id) is Some);
    }
}

proof fn lemma_id_char_plain(c: char)
    requires
        id_char_ok(c),
    ensures
        !is_ws(c),
        c != '\n',
        c != ':',
        c != '"',
        c != '\'',
        c != '#',
{
}

proof fn lemma_split_nl_single(s: Seq<char>)
    requires
        forall|i: int| 0 <= i < s.len() ==> s[i] != '\n',
    ensures
        split_nl(s) == seq![s],
    decreases s.len(),
{
    if s.len() > 0 {
        let p = s.drop_last();
        assert forall|i: int| 0 <= i < p.len() implies p[i] != '\n' by {
            assert(p[i] == s[i]);
        }
        lemma_split_nl_single(p);
        assert(s.last() == s[s.len() - 1]);
        assert(p.push(s.last()) =~= s);
        let q = seq![p];
        assert(q.update(0, s) =~= seq![s]);
    } else {
        assert(s =~= Seq::<char>::empty());
    }
}

proof fn lemma_find_at(s: Seq<char>, pat: Seq<char>, i: int, k: int)
    requires
        0 <= i <= k,
        pat.len() > 0,
        k + pat.len() <= s.len(),
        s.subrange(k, k + pat.len()) == pat,
        forall|j: int| i <= j < k ==> s[j] != pat[0],
    ensures
        find_from(s, pat, i) == Some(k),
    decreases k - i,
{
    if i < k {
        assert(s.subrange(i, i + pat.len())[0] == s[i]);
        lemma_find_at(s, pat, i + 1, k);
    }
}

proof fn lemma_find_skip(s: Seq<char>, pat: Seq<char>, i: int, k: int)
    requires
        0 <= i <= k,
        pat.len() > 0,
        forall|j: int| i <= j < k ==> s[j] != pat[0],
    ensures
        find_from(s, pat, i) == find_from(s, pat, k),
    decreases k - i,
{
    if i < k {
        if i + pat.len() <= s.len() {
            assert(s.subrange(i, i + pat.len())[0] == s[i]);
        }
        lemma_find_skip(s, pat, i + 1, k);
    }
}

proof fn lemma_find_bounded(s: Seq<char>, pat: Seq<char>, i: int, k: int)
    requires
        0 <= i <= k,
        k + pat.len() <= s.len(),
        s.subrange(k, k + pat.len()) == pat,
    ensures
        find_from(s, pat, i) matches Some(e) && i <= e <= k,
    decreases k - i,
{
    if i < k {
        lemma_find_bounded(s, pat, i + 1, k);
    }
}

proof fn lemma_split_nl_concat(a: Seq<char>, b: Seq<char>)
    ensures
        split_nl(a + seq!['\n'] + b) == split_nl(a) + split_nl(b),
    decreases b.len(),
{
    let s = a + seq!['\n'] + b;
    if b.len() == 0 {
        assert(s.drop_last() =~= a);
        assert(split_nl(b) =~= seq![Seq::<char>::empty()]);
        assert(split_nl(a).push(Seq::empty()) =~= split_nl(a) + split_nl(b));
    } else {
        let b1 = b.drop_last();
        assert(s.drop_last() =~= a + seq!['\n'] + b1);
        assert(s.last() == b.last());
        lemma_split_nl_concat(a, b1);
        lemma_split_nl_nonempty_local(b1);
        if b.last() == '\n' {
            assert(split_nl(a + seq!['\n'] + b1).push(Seq::empty()) =~= split_nl(a) + split_nl(b1).push(Seq::empty()));
        } else {
            let p = split_nl(a) + split_nl(b1);
            let q = split_nl(b1);
            assert(p.update(p.len() - 1, p.last().push(b.last())) =~= split_nl(a) + q.update(
                q.len() - 1,
                q.last().push(b.last()),
            ));
        }
    }
}

proof fn lemma_split_nl_nonempty_local(s: Seq<char>)
    ensures
        split_nl(s).len() > 0,
    decreases s.len(),
{
    if s.len() > 0 {
        lemma_split_nl_nonempty_local(s.drop_last());
    }
}

proof fn lemma_trim_end_keeps(s: Seq<char>, k: int)
    requires
        0 < k <= s.len(),
        !is_ws(s[k - 1]),
    ensures
        k <= trim_end(s).len() <= s.len(),
        trim_end(s) == s.take(trim_end(s).len() as int),
    decreases s.len(),
{
    if s.len() > 0 && is_ws(s.last()) {
        assert(s.last() == s[s.len() - 1]);
        assert(k < s.len());
        assert(s.drop_last()[k - 1] == s[k - 1]);
        lemma_trim_end_keeps(s.drop_last(), k);
        assert(s.drop_last().take(trim_end(s).len() as int) =~= s.take(trim_end(s).len() as int));
    } else {
        assert(s.take(s.len() as int) =~= s);
    }
}

proof fn lemma_join_first(out: Seq<Seq<char>>, sep: Seq<char>)
    requires
        out.len() >= 2,
    ensures
        crate::text::join(out, sep) == out[0] + sep + crate::text::join(out.skip(1), sep),
    decreases out.len(),
{
    let d = out.drop_last();
    let r = out.skip(1);
    assert(crate::text::join(out, sep) == crate::text::join(d, sep) + sep + out.last());
    if out.len() == 2 {
        assert(r =~= seq![out[1]]);
        assert(crate::text::join(r, sep) == out[1]);
        assert(crate::text::join(d, sep) == d[0]);
        assert(d[0] == out[0]);
        assert(out.last() == out[1]);
        assert(crate::text::join(out, sep) =~= out[0] + sep + crate::text::join(r, sep));
    } else {
        lemma_join_first(d, sep);
        assert(d[0] == out[0]);
        assert(d.skip(1) =~= r.drop_last());
        assert(r.last() == out.last());
        assert(crate::text::join(r, sep) == crate::text::join(r.drop_last(), sep) + sep + r.last());
        assert(crate::text::join(out, sep) =~= out[0] + sep + crate::text::join(r, sep));
    }
}

/// The facts about `id: <id>` that reading it back needs.
proof fn lemma_idl_reads_back(id: Seq<char>, ls: Seq<Seq<char>>)
    requires
        id_error(id) is None,
        ls.len() > 0,
        ls[0] == id_line(id),
    ensures
        id_from_lines(ls) == Some(id),
{
    lemma_id_chars(id);
    let idl = id_line(id);
    assert forall|i: int| 0 <= i < idl.len() implies idl[i] != '\n' && !(i >= 4 && is_ws(idl[i])) by {
        if i >= 4 {
            assert(idl[i] == id[i - 4]);
            lemma_id_char_plain(id[i - 4]);
        }
    }
    assert(idl.last() == id.last());
    lemma_id_char_plain(id.last());
    assert(trim_end(idl) == idl);
    assert(trim_start(idl) == idl);
    assert(trim(idl) == idl);
    let colon = seq![':'];
    assert(idl.subrange(2, 3) =~= colon);
    assert(idl[0] != ':' && idl[1] != ':');
    lemma_find_at(idl, colon, 0, 2);
    assert(split_once(idl, ':') == Some((idl.take(2), idl.skip(3))));
    assert(idl.take(2) =~= id_key());
    assert(trim_start(id_key()) == id_key());
    assert(trim_end(id_key()) == id_key());
    let v = idl.skip(3);
    assert(v =~= seq![' '] + id);
    assert(trim_start(v) == trim_start(id)) by {
        assert(v.drop_first() =~= id);
    }
    assert(id[0] == idl[4]);
    lemma_id_char_plain(id[0]);
    assert(trim_start(id) == id);
    assert(trim_end(id) == id);
    assert(unquote(id) == id);
}

/// A document whose frontmatter text, once trimmed, opens with the line
/// `id: <id>` gives that id back.
proof fn lemma_doc_reads_id(f: Seq<char>, rest: Seq<char>, id: Seq<char>)
    requires
        id_error(id) is None,
        trim_end(f).len() >= id_line(id).len(),
        trim_end(f).take(id_line(id).len() as int) == id_line(id),
        trim_end(f).len() == id_line(id).len() || trim_end(f)[id_line(id).len() as int] == '\n',
    ensures
        frontmatter_id(frontmatter_doc(f, rest)) == Some(id),
{
    lemma_id_chars(id);
    let idl = id_line(id);
    let l = idl.len() as int;
    let t = trim_end(f);
    assert forall|i: int| 0 <= i < l implies idl[i] != '\n' by {
        if i >= 4 {
            assert(idl[i] == id[i - 4]);
            lemma_id_char_plain(id[i - 4]);
        }
    }
    assert(idl.last() == id.last());
    lemma_id_char_plain(id.last());
    let body = fence() + t + seq!['\n'] + fence() + seq!['\n'] + crate::io::goal::drop_leading_nl(rest);
    let doc = with_final_nl(body);
    assert(doc.take(4) =~= fence());
    let after = doc.skip(4);
    let n = t.len() as int;
    assert(after.subrange(n, n + 5) =~= closing_fence()) by {
        assert forall|j: int| 0 <= j < 5 implies after.subrange(n, n + 5)[j] == closing_fence()[j] by {
            assert(after[n + j] == body[4 + n + j]);
        }
    }
    assert forall|j: int| 0 <= j < l implies after[j] != closing_fence()[0] by {
        assert(after[j] == t[j]);
        assert(t[j] == t.take(l)[j]);
    }
    lemma_find_skip(after, closing_fence(), 0, l);
    lemma_find_bounded(after, closing_fence(), l, n);
    let e = find_from(after, closing_fence(), l).unwrap();
    assert(find_seq(after, closing_fence()) == Some(e));
    let fmx = after.take(e);
    assert(frontmatter_parts(doc) == Some((fmx, after.skip(e + 5))));
    assert(fmx.take(l) =~= idl) by {
        assert forall|j: int| 0 <= j < l implies fmx.take(l)[j] == idl[j] by {
            assert(after[j] == t[j]);
            assert(t[j] == t.take(l)[j]);
        }
    }
    let ls = lines_of(fmx);
    if e == l {
        assert(fmx =~= idl);
        lemma_split_nl_single(idl);
        assert(ls =~= seq![idl]);
    } else {
        assert(fmx[l] == '\n') by {
            assert(after[l] == t[l]);
        }
        let b = fmx.skip(l + 1);
        assert(fmx =~= idl + seq!['\n'] + b);
        lemma_split_nl_concat(idl, b);
        lemma_split_nl_single(idl);
        lemma_split_nl_nonempty_local(b);
        let p = split_nl(fmx);
        assert(p =~= seq![idl] + split_nl(b));
        assert(p.len() >= 2);
        assert(p.drop_last()[0] == idl);
        assert(crate::scan::strip_cr(idl) == idl);
        assert(ls[0] == idl);
    }
    lemma_idl_reads_back(id, ls);
}

/// `pat` occurs in `s` at index `j`.
spec fn occurs_at(s: Seq<char>, pat: Seq<char>, j: int) -> bool {
    0 <= j && j + pat.len() <= s.len() && s.subrange(j, j + pat.len()) == pat
}

proof fn lemma_find_skip_matches(s: Seq<char>, pat: Seq<char>, i: int, k: int)
    requires
        0 <= i <= k,
        forall|j: int| i <= j < k ==> !#[trigger] occurs_at(s, pat, j),
    ensures
        find_from(s, pat, i) == find_from(s, pat, k),
    decreases k - i,
{
    if i < k {
        assert(!occurs_at(s, pat, i));
        lemma_find_skip_matches(s, pat, i + 1, k);
    }
}

proof fn lemma_split_nl_no_nl(s: Seq<char>)
    ensures
        forall|i: int, k: int| 0 <= i < split_nl(s).len() && 0 <= k < split_nl(s)[i].len() ==> #[trigger] split_nl(s)[i][k]
            != '\n',
    decreases s.len(),
{
    if s.len() > 0 {
        lemma_split_nl_no_nl(s.drop_last());
        lemma_split_nl_nonempty_local(s.drop_last());
        let p = split_nl(s.drop_last());
        if s.last() != '\n' {
            let q = p.update(p.len() - 1, p.last().push(s.last()));
            assert forall|i: int, k: int| 0 <= i < q.len() && 0 <= k < q[i].len() implies #[trigger] q[i][k] != '\n' by {
                if i == p.len() - 1 && k == p.last().len() {
                } else if i == p.len() - 1 {
                    assert(q[i][k] == p[i][k]);
                }
            }
        } else {
            let q = p.push(Seq::<char>::empty());
            assert forall|i: int, k: int| 0 <= i < q.len() && 0 <= k < q[i].len() implies #[trigger] q[i][k] != '\n' by {
                assert(q[i] == p[i]);
            }
        }
    }
}

/// No line of `fm` holds a line feed.
proof fn lemma_lines_no_nl(fm: Seq<char>)
    ensures
        forall|i: int, k: int| 0 <= i < lines_of(fm).len() && 0 <= k < lines_of(fm)[i].len() ==> #[trigger] lines_of(
            fm,
        )[i][k] != '\n',
{
    lemma_split_nl_no_nl(fm);
    lemma_split_nl_nonempty_local(fm);
    let p = split_nl(fm);
    let ls = lines_of(fm);
    assert forall|i: int, k: int| 0 <= i < ls.len() && 0 <= k < ls[i].len() implies #[trigger] ls[i][k] != '\n' by {
        if i < p.len() - 1 {
            assert(ls[i] == crate::scan::strip_cr(p[i]));
            assert(ls[i][k] == p[i][k]);
        } else {
            assert(ls[i] == p.last());
            assert(p.last() == p[p.len() - 1]);
        }
    }
}

proof fn lemma_split_join(ls: Seq<Seq<char>>)
    requires
        ls.len() >= 1,
        forall|i: int, k: int| 0 <= i < ls.len() && 0 <= k < ls[i].len() ==> #[trigger] ls[i][k] != '\n',
    ensures
        split_nl(crate::text::join(ls, seq!['\n'])) == ls,
    decreases ls.len(),
{
    if ls.len() == 1 {
        assert forall|k: int| 0 <= k < ls[0].len() implies ls[0][k] != '\n' by {}
        lemma_split_nl_single(ls[0]);
        assert(seq![ls[0]] =~= ls);
    } else {
        let d = ls.drop_last();
        assert forall|i: int, k: int| 0 <= i < d.len() && 0 <= k < d[i].len() implies #[trigger] d[i][k] != '\n' by {
            assert(d[i] == ls[i]);
        }
        lemma_split_join(d);
        assert forall|k: int| 0 <= k < ls.last().len() implies ls.last()[k] != '\n' by {
            assert(ls.last() == ls[ls.len() - 1]);
        }
        lemma_split_nl_single(ls.last());
        lemma_split_nl_concat(crate::text::join(d, seq!['\n']), ls.last());
        assert(d + seq![ls.last()] =~= ls);
    }
}

/// `---`.
spec fn dash_line() -> Seq<char> {
    seq!['-', '-', '-']
}

/// `z` does not open with the line `---`.
spec fn no_dash_start(z: Seq<char>) -> bool {
    !(z.len() >= 4 && z.subrange(0, 4) == seq!['-', '-', '-', '\n'])
}

/// Lines joined by line feeds, none of them `---`, and followed by a line
/// feed and text that does not open with `---`, hold no closing fence up to
/// that line feed.
proof fn lemma_no_fence(ls: Seq<Seq<char>>, z: Seq<char>)
    requires
        ls.len() >= 1,
        forall|i: int, k: int| 0 <= i < ls.len() && 0 <= k < ls[i].len() ==> #[trigger] ls[i][k] != '\n',
        forall|i: int| 0 <= i < ls.len() ==> #[trigger] ls[i] != dash_line(),
        no_dash_start(z),
    ensures
        ({
            let x = crate::text::join(ls, seq!['\n']) + seq!['\n'] + z;
            forall|j: int| 0 <= j <= crate::text::join(ls, seq!['\n']).len() ==> !#[trigger] occurs_at(x, closing_fence(), j)
        }),
    decreases ls.len(),
{
    let jn = crate::text::join(ls, seq!['\n']);
    let x = jn + seq!['\n'] + z;
    let last = ls.last();
    assert(last == ls[ls.len() - 1]);
    assert forall|k: int| 0 <= k < last.len() implies last[k] != '\n' by {}
    if ls.len() == 1 {
        assert(jn == last);
        assert forall|j: int| 0 <= j <= jn.len() implies !#[trigger] occurs_at(x, closing_fence(), j) by {
            if occurs_at(x, closing_fence(), j) {
                let w = x.subrange(j, j + 5);
                assert(w == closing_fence());
                if j < jn.len() {
                    assert(w[0] == x[j]);
                    assert(x[j] == last[j]);
                    assert(closing_fence()[0] == '\n');
                } else {
                    assert(z.subrange(0, 4) =~= w.subrange(1, 5));
                    assert(w.subrange(1, 5) =~= seq!['-', '-', '-', '\n']);
                }
            }
        }
    } else {
        let d = ls.drop_last();
        let jd = crate::text::join(d, seq!['\n']);
        assert(jn == jd + seq!['\n'] + last);
        let z2 = last + seq!['\n'] + z;
        assert(x =~= jd + seq!['\n'] + z2);
        assert forall|i: int, k: int| 0 <= i < d.len() && 0 <= k < d[i].len() implies #[trigger] d[i][k] != '\n' by {
            assert(d[i] == ls[i]);
        }
        assert forall|i: int| 0 <= i < d.len() implies #[trigger] d[i] != dash_line() by {
            assert(d[i] == ls[i]);
        }
        assert(no_dash_start(z2)) by {
            if z2.len() >= 4 && z2.subrange(0, 4) == seq!['-', '-', '-', '\n'] {
                if last.len() >= 4 {
                    assert(z2[3] == last[3]);
                } else if last.len() == 3 {
                    assert(last =~= z2.subrange(0, 3));
                    assert(z2.subrange(0, 3) =~= dash_line());
                } else {
                    assert(z2[last.len() as int] == '\n');
                }
            }
        }
        lemma_no_fence(d, z2);
        assert forall|j: int| 0 <= j <= jn.len() implies !#[trigger] occurs_at(x, closing_fence(), j) by {
            if j > jd.len() && occurs_at(x, closing_fence(), j) {
                let w = x.subrange(j, j + 5);
                assert(w == closing_fence());
                if j < jn.len() {
                    assert(w[0] == x[j]);
                    assert(x[j] == last[j - jd.len() - 1]);
                    assert(closing_fence()[0] == '\n');
                } else {
                    assert(z.subrange(0, 4) =~= w.subrange(1, 5));
                    assert(w.subrange(1, 5) =~= seq!['-', '-', '-', '\n']);
                }
            }
        }
    }
}

proof fn lemma_trim_drop_ws_last(s: Seq<char>)
    requires
        s.len() > 0,
        is_ws(s.last()),
    ensures
        trim(s.drop_last()) == trim(s),
    decreases s.len(),
{
    if is_ws(s[0]) {
        if s.len() == 1 {
            assert(s.drop_last() =~= Seq::<char>::empty());
            assert(s.drop_first() =~= Seq::<char>::empty());
        } else {
            assert(s.drop_last()[0] == s[0]);
            assert(s.drop_last().drop_first() =~= s.drop_first().drop_last());
            assert(s.drop_first().last() == s.last());
            lemma_trim_drop_ws_last(s.drop_first());
        }
    } else {
        assert(s.len() >= 2);
        assert(s.drop_last()[0] == s[0]);
    }
}

/// Whether a frontmatter line can come before the id line without ending
/// the search for it: blank, a comment, or a `key: value` line.
pub open spec fn skippable_line(l: Seq<char>) -> bool {
    trim(l).len() == 0 || trim(l)[0] == '#' || split_once(trim(l), ':') is Some
}

/// Every line before the first id line of `ls` is skippable.
pub open spec fn skippable_until_id(ls: Seq<Seq<char>>) -> bool
    decreases ls.len(),
{
    ls.len() == 0 || is_id_line(ls[0]) || (skippable_line(ls[0]) && skippable_until_id(ls.drop_first()))
}

proof fn lemma_skippable_not_dash(l: Seq<char>)
    requires
        skippable_line(l),
    ensures
        l != dash_line(),
{
    if l == dash_line() {
        assert(!is_ws('-'));
        assert(trim_start(l) == l);
        assert(trim_end(l) == l);
        assert(trim(l) == l);
        crate::scan::lemma_find_from_some(l, seq![':'], 0);
        if let Some(i) = find_seq(l, seq![':']) {
            assert(l.subrange(i, i + 1)[0] == l[i]);
        }
    }
}

/// Reading stops at the id line when every line before it is skippable.
proof fn lemma_reads_through(pre: Seq<Seq<char>>, rest: Seq<Seq<char>>, id: Seq<char>)
    requires
        id_error(id) is None,
        rest.len() > 0,
        rest[0] == id_line(id),
        forall|i: int| 0 <= i < pre.len() ==> skippable_line(#[trigger] pre[i]) && !is_id_line(pre[i]),
    ensures
        id_from_lines(pre + rest) == Some(id),
    decreases pre.len(),
{
    if pre.len() == 0 {
        assert(pre + rest =~= rest);
        lemma_idl_reads_back(id, rest);
    } else {
        let ls = pre + rest;
        assert(ls[0] == pre[0]);
        assert(ls.drop_first() =~= pre.drop_first() + rest);
        assert forall|i: int| 0 <= i < pre.drop_first().len() implies skippable_line(#[trigger] pre.drop_first()[i])
            && !is_id_line(pre.drop_first()[i]) by {
            assert(pre.drop_first()[i] == pre[i + 1]);
        }
        lemma_reads_through(pre.drop_first(), rest, id);
        assert(skippable_line(pre[0]) && !is_id_line(pre[0]));
    }
}

/// Where the id line lands when `ls` has one: the lines before the first id
/// line stay, and the id line takes its place.
proof fn lemma_replace_structure(ls: Seq<Seq<char>>, idl: Seq<char>) -> (p: int)
    requires
        has_id_line(ls),
    ensures
        0 <= p < ls.len(),
        is_id_line(ls[p]),
        forall|q: int| 0 <= q < p ==> !is_id_line(#[trigger] ls[q]),
        replace_id_lines(ls, idl).len() > p,
        replace_id_lines(ls, idl).take(p) == ls.take(p),
        replace_id_lines(ls, idl)[p] == idl,
    decreases ls.len(),
{
    let d = ls.drop_last();
    let r = replace_id_lines(d, idl);
    if has_id_line(d) {
        let p = lemma_replace_structure(d, idl);
        assert forall|q: int| 0 <= q < p implies !is_id_line(#[trigger] ls[q]) by {
            assert(ls[q] == d[q]);
        }
        assert(ls[p] == d[p]);
        let out = replace_id_lines(ls, idl);
        if is_id_line(ls.last()) {
            assert(out == r);
        } else {
            assert(out == r.push(ls.last()));
            assert(out.take(p) =~= r.take(p));
            assert(out[p] == r[p]);
        }
        assert(d.take(p) =~= ls.take(p));
        p
    } else {
        assert(is_id_line(ls.last()));
        crate::io::goal::lemma_replace_without_id(d, idl);
        lemma_no_id_line_each(d);
        let p = d.len() as int;
        assert(ls[p] == ls.last());
        assert forall|q: int| 0 <= q < p implies !is_id_line(#[trigger] ls[q]) by {
            assert(ls[q] == d[q]);
        }
        let out = replace_id_lines(ls, idl);
        assert(out == d.push(idl));
        assert(out.take(p) =~= d);
        assert(ls.take(p) =~= d);
        p
    }
}

proof fn lemma_no_id_line_each(ls: Seq<Seq<char>>)
    requires
        !has_id_line(ls),
    ensures
        forall|q: int| 0 <= q < ls.len() ==> !is_id_line(#[trigger] ls[q]),
    decreases ls.len(),
{
    if ls.len() > 0 {
        lemma_no_id_line_each(ls.drop_last());
        assert forall|q: int| 0 <= q < ls.len() implies !is_id_line(#[trigger] ls[q]) by {
            if q < ls.len() - 1 {
                assert(ls[q] == ls.drop_last()[q]);
            }
        }
    }
}

proof fn lemma_skippable_prefix(ls: Seq<Seq<char>>, p: int)
    requires
        skippable_until_id(ls),
        0 <= p <= ls.len(),
        forall|q: int| 0 <= q < p ==> !is_id_line(#[trigger] ls[q]),
    ensures
        forall|q: int| 0 <= q < p ==> skippable_line(#[trigger] ls[q]),
    decreases p,
{
    if p > 0 {
        assert(!is_id_line(ls[0]));
        assert forall|q: int| 0 <= q < p - 1 implies !is_id_line(#[trigger] ls.drop_first()[q]) by {
            assert(ls.drop_first()[q] == ls[q + 1]);
        }
        lemma_skippable_prefix(ls.drop_first(), p - 1);
        assert forall|q: int| 0 <= q < p implies skippable_line(#[trigger] ls[q]) by {
            if q > 0 {
                assert(ls.drop_first()[q - 1] == ls[q]);
            }
        }
    }
}

/// Writing a run id into a goal document, then reading the id back, gives
/// the id that was written, whenever every frontmatter line before the id
/// line is blank, a comment or a `key: value` line.
pub proof fn law_goal_id_round_trip(contents: Seq<char>, id: Seq<char>)
    requires
        id_error(id) is None,
        frontmatter_parts(contents) matches Some((fm, _)) ==> skippable_until_id(lines_of(fm)),
    ensures
        frontmatter_id(with_goal_id(contents, id)) == Some(id),
{
    lemma_id_chars(id);
    let idl = id_line(id);
    let l = idl.len() as int;
    assert forall|i: int| 0 <= i < l implies idl[i] != '\n' && !(i >= 4 && is_ws(idl[i])) by {
        if i >= 4 {
            assert(idl[i] == id[i - 4]);
            lemma_id_char_plain(id[i - 4]);
        }
    }
    assert(idl.last() == id.last());
    lemma_id_char_plain(id.last());
    match frontmatter_parts(contents) {
        None => {
            let f = idl.push('\n');
            assert(f[l - 1] == idl[l - 1]);
            lemma_trim_end_keeps(f, l);
            assert(trim_end(f).take(l) =~= idl);
            lemma_doc_reads_id(f, contents, id);
        },
        Some((fm, rest)) => {
            let ls = lines_of(fm);
            lemma_lines_no_nl(fm);
            if !has_id_line(ls) {
                let out = seq![idl] + ls;
                assert(out.len() > 0 && out[0] == idl);
                lemma_first_line_doc(out, rest, id);
                assert(with_final_nl(crate::text::join(out, seq!['\n'])) == upsert_id(fm, id));
            } else {
                let p = lemma_replace_structure(ls, idl);
                let out = replace_id_lines(ls, idl);
                lemma_skippable_prefix(ls, p);
                lemma_general_doc(ls, out, p, rest, id);
                assert(with_final_nl(crate::text::join(out, seq!['\n'])) == upsert_id(fm, id));
            }
        },
    }
}

proof fn lemma_join_split(out: Seq<Seq<char>>, n: int, sep: Seq<char>)
    requires
        1 <= n < out.len(),
    ensures
        crate::text::join(out, sep) == crate::text::join(out.take(n), sep) + sep + crate::text::join(out.skip(n), sep),
    decreases out.len(),
{
    let d = out.drop_last();
    assert(crate::text::join(out, sep) == crate::text::join(d, sep) + sep + out.last());
    if n == out.len() - 1 {
        assert(out.take(n) =~= d);
        assert(out.skip(n) =~= seq![out.last()]);
        assert(crate::text::join(out.skip(n), sep) == out.last());
    } else {
        lemma_join_split(d, n, sep);
        assert(d.take(n) =~= out.take(n));
        let r = out.skip(n);
        assert(r.drop_last() =~= d.skip(n));
        assert(r.last() == out.last());
        assert(crate::text::join(r, sep) == crate::text::join(r.drop_last(), sep) + sep + r.last());
        assert(crate::text::join(out, sep) =~= crate::text::join(out.take(n), sep) + sep + crate::text::join(r, sep));
    }
}

/// A frontmatter whose lines before `id: <id>` are skippable lines kept from
/// the document reads back `id`.
#[verifier::rlimit(100)]
proof fn lemma_general_doc(ls: Seq<Seq<char>>, out: Seq<Seq<char>>, p: int, rest: Seq<char>, id: Seq<char>)
    requires
        id_error(id) is None,
        forall|i: int, k: int| 0 <= i < ls.len() && 0 <= k < ls[i].len() ==> #[trigger] ls[i][k] != '\n',
        0 <= p < ls.len(),
        out.len() > p,
        out.take(p) == ls.take(p),
        out[p] == id_line(id),
        forall|q: int| 0 <= q < p ==> skippable_line(#[trigger] ls[q]),
        forall|q: int| 0 <= q < p ==> !is_id_line(#[trigger] ls[q]),
    ensures
        frontmatter_id(frontmatter_doc(with_final_nl(crate::text::join(out, seq!['\n'])), rest)) == Some(id),
{
    lemma_id_chars(id);
    let nl = seq!['\n'];
    let idl = id_line(id);
    let l = idl.len() as int;
    assert(idl.last() == id.last());
    lemma_id_char_plain(id.last());
    assert forall|i: int| 0 <= i < l implies idl[i] != '\n' by {
        if i >= 4 {
            assert(idl[i] == id[i - 4]);
            lemma_id_char_plain(id[i - 4]);
        }
    }
    let pre = out.take(p);
    let head = out.take(p + 1);
    assert(head =~= pre.push(idl));
    assert forall|i: int, k: int| 0 <= i < head.len() && 0 <= k < head[i].len() implies #[trigger] head[i][k] != '\n' by {
        if i < p {
            assert(head[i] == ls.take(p)[i]);
            assert(ls.take(p)[i] == ls[i]);
        } else {
            assert(head[i] == idl);
        }
    }
    let h = crate::text::join(head, nl);
    let jp = crate::text::join(pre, nl);
    if p > 0 {
        assert(head.drop_last() =~= pre);
        assert(h == jp + nl + idl);
    } else {
        assert(head =~= seq![idl]);
        assert(h == idl);
    }
    let m = h.len() as int;
    assert(h.take(m) =~= h);
    assert(m >= l && h.subrange(m - l, m) =~= idl) by {
        if p > 0 {
            assert(h.subrange(m - l, m) =~= idl);
        }
    }
    let j = crate::text::join(out, nl);
    if out.len() > p + 1 {
        lemma_join_split(out, p + 1, nl);
    } else {
        assert(out.take(p + 1) =~= out);
    }
    let f = with_final_nl(j);
    assert(f.len() > m && f.take(m) =~= h && f[m] == '\n');
    assert(f[m - 1] == idl[l - 1]);
    lemma_trim_end_keeps(f, m);
    let t = trim_end(f);
    assert(t.take(m) =~= h) by {
        assert forall|k: int| 0 <= k < m implies t.take(m)[k] == h[k] by {
            assert(t[k] == f.take(t.len() as int)[k]);
            assert(f[k] == f.take(m)[k]);
        }
    }
    if t.len() > m {
        assert(t[m] == f.take(t.len() as int)[m]);
    }
    // The document and where its frontmatter ends.
    let body = fence() + t + seq!['\n'] + fence() + seq!['\n'] + crate::io::goal::drop_leading_nl(rest);
    let doc = with_final_nl(body);
    assert(doc.take(4) =~= fence());
    let after = doc.skip(4);
    let n = t.len() as int;
    assert(after.subrange(n, n + 5) =~= closing_fence()) by {
        assert forall|q: int| 0 <= q < 5 implies after.subrange(n, n + 5)[q] == closing_fence()[q] by {
            assert(after[n + q] == body[4 + n + q]);
        }
    }
    assert forall|q: int| 0 <= q < m implies after[q] == h[q] by {
        assert(after[q] == t[q]);
        assert(t[q] == t.take(m)[q]);
    }
    assert forall|q: int| 0 <= q < m implies !#[trigger] occurs_at(after, closing_fence(), q) by {
        if q + 5 > after.len() {
        } else if q >= m - l {
            assert(after.subrange(q, q + 5)[0] == after[q]);
            assert(h[q] == h.subrange(m - l, m)[q - (m - l)]);
        } else {
            assert(p > 0);
            let z = after.skip(jp.len() + 1int);
            assert(after =~= jp + nl + z) by {
                assert forall|k: int| 0 <= k <= jp.len() implies after[k] == (jp + nl)[k] by {
                    assert(after[k] == h[k]);
                }
            }
            assert(z[0] == idl[0]) by {
                assert(after[jp.len() + 1int] == h[jp.len() + 1int]);
            }
            assert(no_dash_start(z)) by {
                if z.len() >= 4 && z.subrange(0, 4) == seq!['-', '-', '-', '\n'] {
                    assert(z.subrange(0, 4)[0] == z[0]);
                }
            }
            assert forall|i: int, k: int| 0 <= i < pre.len() && 0 <= k < pre[i].len() implies #[trigger] pre[i][k] != '\n' by {
                assert(pre[i] == head[i]);
            }
            assert forall|i: int| 0 <= i < pre.len() implies #[trigger] pre[i] != dash_line() by {
                assert(pre[i] == ls.take(p)[i]);
                assert(ls.take(p)[i] == ls[i]);
                lemma_skippable_not_dash(ls[i]);
            }
            lemma_no_fence(pre, z);
        }
    }
    lemma_find_skip_matches(after, closing_fence(), 0, m);
    lemma_find_bounded(after, closing_fence(), m, n);
    let e = find_from(after, closing_fence(), m).unwrap();
    assert(find_seq(after, closing_fence()) == Some(e));
    let fmx = after.take(e);
    assert(frontmatter_parts(doc) == Some((fmx, after.skip(e + 5))));
    assert(fmx.take(m) =~= h) by {
        assert forall|k: int| 0 <= k < m implies fmx.take(m)[k] == h[k] by {}
    }
    lemma_split_join(head);
    let sp = split_nl(fmx);
    if e == m {
        assert(fmx =~= h);
        assert(sp == head);
    } else {
        assert(fmx[m] == '\n') by {
            assert(after[m] == t[m]);
        }
        let b = fmx.skip(m + 1);
        assert(fmx =~= h + nl + b);
        lemma_split_nl_concat(h, b);
        lemma_split_nl_nonempty_local(b);
        assert(sp == head + split_nl(b));
    }
    assert(sp.len() >= p + 1);
    assert forall|q: int| 0 <= q <= p implies sp[q] == head[q] by {}
    let lines = lines_of(fmx);
    assert(crate::scan::strip_cr(idl) == idl);
    let pre2 = lines.take(p);
    let rest2 = lines.skip(p);
    assert(lines.len() >= p + 1) by {
        if sp.last().len() == 0 {
            assert(sp.len() >= p + 2 || sp.last() == idl);
        }
    }
    assert(rest2[0] == idl) by {
        if p < sp.len() - 1 {
            assert(lines[p] == crate::scan::strip_cr(sp[p]));
        } else {
            assert(sp.last() == sp[p]);
        }
    }
    assert forall|q: int| 0 <= q < pre2.len() implies skippable_line(#[trigger] pre2[q]) && !is_id_line(pre2[q]) by {
        let x = ls[q];
        assert(sp[q] == head[q]);
        assert(head[q] == ls.take(p)[q]);
        assert(ls.take(p)[q] == x);
        assert(pre2[q] == lines[q]);
        assert(lines[q] == crate::scan::strip_cr(x));
        if x.len() > 0 && x.last() == '\r' {
            lemma_trim_drop_ws_last(x);
        }
        assert(trim(pre2[q]) == trim(x));
    }
    assert(lines =~= pre2 + rest2);
    lemma_reads_through(pre2, rest2, id);
}

/// A frontmatter whose first line is `id: <id>` reads back `id`.
proof fn lemma_first_line_doc(out: Seq<Seq<char>>, rest: Seq<char>, id: Seq<char>)
    requires
        id_error(id) is None,
        out.len() > 0,
        out[0] == id_line(id),
    ensures
        frontmatter_id(frontmatter_doc(with_final_nl(crate::text::join(out, seq!['\n'])), rest)) == Some(id),
{
    lemma_id_chars(id);
    let idl = id_line(id);
    let l = idl.len() as int;
    assert(idl.last() == id.last());
    lemma_id_char_plain(id.last());
    assert forall|i: int| 0 <= i < l implies idl[i] != '\n' by {
        if i >= 4 {
            assert(idl[i] == id[i - 4]);
            lemma_id_char_plain(id[i - 4]);
        }
    }
    let j = crate::text::join(out, seq!['\n']);
    let f = with_final_nl(j);
    if out.len() == 1 {
        assert(j == idl);
        assert(f =~= idl.push('\n'));
    } else {
        lemma_join_first(out, seq!['\n']);
        assert(j =~= idl + (seq!['\n'] + crate::text::join(out.skip(1), seq!['\n'])));
    }
    assert(f.len() > l && f.take(l) =~= idl && f[l] == '\n');
    assert(f[l - 1] == idl[l - 1]);
    lemma_trim_end_keeps(f, l);
    let t = trim_end(f);
    assert(t.take(l) =~= idl) by {
        assert forall|k: int| 0 <= k < l implies t.take(l)[k] == idl[k] by {
            assert(t[k] == f.take(t.len() as int)[k]);
            assert(f[k] == f.take(l)[k]);
        }
    }
    if t.len() > l {
        assert(t[l] == f.take(t.len() as int)[l]);
    }
    lemma_doc_reads_id(f, rest, id);
}

// ---------------------------------------------------------------------------
// The runner's `.gitignore`

proof fn lemma_seq_lt_irrefl(a: Seq<char>)
    ensures
        !seq_lt(a, a),
    decreases a.len(),
{
    if a.len() > 0 {
        lemma_seq_lt_irrefl(a.drop_first());
    }
}

proof fn lemma_seq_lt_asym(a: Seq<char>, b: Seq<char>)
    ensures
        seq_lt(a, b) ==> !seq_lt(b, a),
    decreases a.len(),
{
    if a.len() > 0 && b.len() > 0 && a[0] == b[0] {
        lemma_seq_lt_asym(a.drop_first(), b.drop_first());
    }
}

proof fn lemma_seq_lt_total(a: Seq<char>, b: Seq<char>)
    ensures
        a != b ==> seq_lt(a, b) || seq_lt(b, a),
    decreases a.len(),
{
    if a.len() > 0 && b.len() > 0 && a[0] == b[0] {
        lemma_seq_lt_total(a.drop_first(), b.drop_first());
        if a.drop_first() == b.drop_first() {
            assert(a =~= seq![a[0]] + a.drop_first());
            assert(b =~= seq![b[0]] + b.drop_first());
        }
    } else if a.len() == 0 && b.len() == 0 {
        assert(a =~= b);
    }
}

proof fn lemma_seq_lt_trans(a: Seq<char>, b: Seq<char>, c: Seq<char>)
    ensures
        seq_lt(a, b) && seq_lt(b, c) ==> seq_lt(a, c),
    decreases a.len(),
{
    if a.len() > 0 && b.len() > 0 && c.len() > 0 && a[0] == b[0] && b[0] == c[0] {
        lemma_seq_lt_trans(a.drop_first(), b.drop_first(), c.drop_first());
    }
}

/// Each element of `s` is smaller than every later one.
spec fn strictly_sorted(s: Seq<Seq<char>>) -> bool {
    forall|i: int, j: int| 0 <= i < j < s.len() ==> seq_lt(#[trigger] s[i], #[trigger] s[j])
}

/// No element of `s` occurs twice.
spec fn distinct(s: Seq<Seq<char>>) -> bool {
    forall|i: int, j: int| 0 <= i < j < s.len() ==> #[trigger] s[i] != #[trigger] s[j]
}

proof fn lemma_dedup_distinct(s: Seq<Seq<char>>)
    ensures
        distinct(dedup(s)),
    decreases s.len(),
{
    if s.len() > 0 {
        lemma_dedup_distinct(s.drop_last());
        let d = dedup(s.drop_last());
        if !d.contains(s.last()) {
            assert forall|i: int, j: int| 0 <= i < j < d.push(s.last()).len() implies #[trigger] d.push(s.last())[i]
                != #[trigger] d.push(s.last())[j] by {
                if j == d.len() {
                    assert(d.push(s.last())[i] == d[i]);
                    if d[i] == s.last() {
                        assert(d.contains(s.last()));
                    }
                } else {
                    assert(d.push(s.last())[i] == d[i]);
                    assert(d.push(s.last())[j] == d[j]);
                }
            }
        }
    }
}

proof fn lemma_insert_sorted(t: Seq<Seq<char>>, x: Seq<char>)
    requires
        strictly_sorted(t),
        !t.contains(x),
    ensures
        strictly_sorted(insert_str(t, x)),
    decreases t.len(),
{
    if t.len() == 0 {
        assert(insert_str(t, x) =~= seq![x]);
    } else if seq_lt(x, t[0]) {
        let r = seq![x] + t;
        assert(insert_str(t, x) == r);
        assert forall|i: int, j: int| 0 <= i < j < r.len() implies seq_lt(#[trigger] r[i], #[trigger] r[j]) by {
            if i == 0 {
                if j > 1 {
                    lemma_seq_lt_trans(x, t[0], t[j - 1]);
                }
            } else {
                assert(r[i] == t[i - 1] && r[j] == t[j - 1]);
            }
        }
    } else {
        let rest = t.drop_first();
        assert forall|i: int, j: int| 0 <= i < j < rest.len() implies seq_lt(#[trigger] rest[i], #[trigger] rest[j]) by {
            assert(rest[i] == t[i + 1] && rest[j] == t[j + 1]);
        }
        if rest.contains(x) {
            let k = choose|k: int| 0 <= k < rest.len() && rest[k] == x;
            assert(t[k + 1] == x);
        }
        lemma_insert_sorted(rest, x);
        let ins = insert_str(rest, x);
        crate::logic::strseq::lemma_insert_members(rest, x);
        if x == t[0] {
            assert(t.contains(x));
        }
        lemma_seq_lt_total(x, t[0]);
        let r = seq![t[0]] + ins;
        assert(insert_str(t, x) == r);
        assert forall|i: int, j: int| 0 <= i < j < r.len() implies seq_lt(#[trigger] r[i], #[trigger] r[j]) by {
            if i == 0 {
                let y = ins[j - 1];
                assert(r[j] == y);
                assert(ins.contains(y));
                if y != x {
                    assert(rest.contains(y));
                    let k = choose|k: int| 0 <= k < rest.len() && rest[k] == y;
                    assert(t[k + 1] == y);
                }
            } else {
                assert(r[i] == ins[i - 1] && r[j] == ins[j - 1]);
            }
        }
    }
}

proof fn lemma_sort_sorted(d: Seq<Seq<char>>)
    requires
        distinct(d),
    ensures
        strictly_sorted(sort_strs(d)),
    decreases d.len(),
{
    if d.len() > 0 {
        let p = d.drop_last();
        assert forall|i: int, j: int| 0 <= i < j < p.len() implies #[trigger] p[i] != #[trigger] p[j] by {
            assert(p[i] == d[i] && p[j] == d[j]);
        }
        lemma_sort_sorted(p);
        crate::logic::strseq::lemma_sort_members(p);
        if sort_strs(p).contains(d.last()) {
            assert(p.contains(d.last()));
            let k = choose|k: int| 0 <= k < p.len() && p[k] == d.last();
            assert(d[k] == d[d.len() - 1]);
        }
        lemma_insert_sorted(sort_strs(p), d.last());
    }
}

proof fn lemma_sorted_fixed(s: Seq<Seq<char>>)
    requires
        strictly_sorted(s),
    ensures
        sort_strs(s) == s,
        dedup(s) == s,
    decreases s.len(),
{
    if s.len() > 0 {
        let p = s.drop_last();
        assert forall|i: int, j: int| 0 <= i < j < p.len() implies seq_lt(#[trigger] p[i], #[trigger] p[j]) by {
            assert(p[i] == s[i] && p[j] == s[j]);
        }
        lemma_sorted_fixed(p);
        assert forall|k: int| 0 <= k < p.len() implies !seq_lt(s.last(), #[trigger] p[k]) by {
            assert(p[k] == s[k]);
            lemma_seq_lt_asym(s[k], s.last());
        }
        crate::logic::strseq::lemma_insert_str_at(p, s.last(), p.len() as int);
        assert(p.insert(p.len() as int, s.last()) =~= s);
        if p.contains(s.last()) {
            let k = choose|k: int| 0 <= k < p.len() && p[k] == s.last();
            assert(s[k] == s.last());
            lemma_seq_lt_irrefl(s.last());
        }
        assert(p.push(s.last()) =~= s);
    }
}

proof fn lemma_trim_start_suffix(s: Seq<char>)
    ensures
        trim_start(s).len() <= s.len(),
        forall|k: int| 0 <= k < trim_start(s).len() ==> #[trigger] trim_start(s)[k] == s[k + (s.len() - trim_start(s).len())],
        trim_start(s).len() > 0 ==> !is_ws(trim_start(s)[0]),
    decreases s.len(),
{
    if s.len() > 0 && is_ws(s[0]) {
        lemma_trim_start_suffix(s.drop_first());
        let t = trim_start(s);
        assert forall|k: int| 0 <= k < t.len() implies #[trigger] t[k] == s[k + (s.len() - t.len())] by {
            assert(t[k] == s.drop_first()[k + (s.drop_first().len() - t.len())]);
        }
    }
}

proof fn lemma_trim_end_prefix_of(s: Seq<char>)
    ensures
        trim_end(s) == s.take(trim_end(s).len() as int),
        trim_end(s).len() <= s.len(),
        trim_end(s).len() > 0 ==> !is_ws(trim_end(s).last()),
    decreases s.len(),
{
    if s.len() > 0 && is_ws(s.last()) {
        lemma_trim_end_prefix_of(s.drop_last());
        assert(s.drop_last().take(trim_end(s).len() as int) =~= s.take(trim_end(s).len() as int));
    } else {
        assert(s.take(s.len() as int) =~= s);
    }
}

/// A trimmed text is trimmed already, and holds only characters of the original.
proof fn lemma_trim_facts(l: Seq<char>)
    ensures
        trim(trim(l)) == trim(l),
        forall|k: int| 0 <= k < trim(l).len() ==> exists|q: int| 0 <= q < l.len() && l[q] == #[trigger] trim(l)[k],
        trim(l).len() > 0 ==> !is_ws(trim(l).last()) && !is_ws(trim(l)[0]),
{
    let a = trim_start(l);
    let t = trim_end(a);
    lemma_trim_start_suffix(l);
    lemma_trim_end_prefix_of(a);
    assert forall|k: int| 0 <= k < t.len() implies exists|q: int| 0 <= q < l.len() && l[q] == #[trigger] t[k] by {
        assert(t[k] == a.take(t.len() as int)[k]);
        assert(a[k] == l[k + (l.len() - a.len())]);
        let q = k + (l.len() - a.len());
        assert(0 <= q < l.len() && l[q] == t[k]);
    }
    if t.len() > 0 {
        assert(t[0] == a[0]);
        assert(trim_start(t) == t);
        lemma_trim_end_prefix_of(t);
        assert(trim_end(t) == t);
    } else {
        assert(trim_start(t) =~= t);
    }
}

proof fn lemma_trimmed_nonblank_fixed(ls: Seq<Seq<char>>)
    requires
        forall|i: int| 0 <= i < ls.len() ==> trim(#[trigger] ls[i]) == ls[i] && ls[i].len() > 0,
    ensures
        crate::start::trimmed_nonblank(ls) == ls,
    decreases ls.len(),
{
    if ls.len() > 0 {
        let p = ls.drop_last();
        assert forall|i: int| 0 <= i < p.len() implies trim(#[trigger] p[i]) == p[i] && p[i].len() > 0 by {
            assert(p[i] == ls[i]);
        }
        lemma_trimmed_nonblank_fixed(p);
        assert(ls.last() == ls[ls.len() - 1]);
        assert(p.push(ls.last()) =~= ls);
    }
}

proof fn lemma_trimmed_nonblank_elems(ls: Seq<Seq<char>>)
    ensures
        forall|i: int| 0 <= i < crate::start::trimmed_nonblank(ls).len() ==> (exists|j: int| 0 <= j < ls.len()
            && #[trigger] crate::start::trimmed_nonblank(ls)[i] == trim(ls[j])) && crate::start::trimmed_nonblank(ls)[i].len()
            > 0,
    decreases ls.len(),
{
    if ls.len() > 0 {
        let p = ls.drop_last();
        lemma_trimmed_nonblank_elems(p);
        let tp = crate::start::trimmed_nonblank(p);
        let t = crate::start::trimmed_nonblank(ls);
        assert forall|i: int| 0 <= i < t.len() implies (exists|j: int| 0 <= j < ls.len() && #[trigger] t[i] == trim(ls[j]))
            && t[i].len() > 0 by {
            if i < tp.len() {
                assert(t[i] == tp[i]);
                let j = choose|j: int| 0 <= j < p.len() && tp[i] == trim(p[j]);
                assert(ls[j] == p[j]);
            } else {
                assert(t[i] == trim(ls.last()));
                assert(ls.last() == ls[ls.len() - 1]);
            }
        }
    }
}

/// A text with its line feeds in the right places, written back and read
/// again: the lines that were joined.
proof fn lemma_lines_of_joined(ls: Seq<Seq<char>>)
    requires
        ls.len() >= 1,
        forall|i: int, k: int| 0 <= i < ls.len() && 0 <= k < ls[i].len() ==> #[trigger] ls[i][k] != '\n',
        forall|i: int| 0 <= i < ls.len() ==> #[trigger] ls[i].len() > 0 && !is_ws(ls[i].last()),
    ensures
        lines_of(crate::text::join(ls, seq!['\n']).push('\n')) == ls,
{
    let j = crate::text::join(ls, seq!['\n']);
    lemma_split_join(ls);
    lemma_split_nl_concat(j, Seq::empty());
    assert(j + seq!['\n'] + Seq::<char>::empty() =~= j.push('\n'));
    assert(split_nl(Seq::<char>::empty()) =~= seq![Seq::<char>::empty()]);
    let p = split_nl(j.push('\n'));
    assert(p == ls + seq![Seq::<char>::empty()]);
    assert(p.drop_last() =~= ls);
    assert forall|i: int| 0 <= i < ls.len() implies crate::scan::strip_cr(#[trigger] ls[i]) == ls[i] by {
        assert(ls[i].last() != '\r');
    }
    assert(ls.map_values(|l: Seq<char>| crate::scan::strip_cr(l)) =~= ls);
}

proof fn lemma_gitignore_text(existing: Seq<char>)
    ensures
        crate::start::gitignore_text(crate::start::gitignore_text(existing)) == crate::start::gitignore_text(existing),
        crate::step::missing_ignore(crate::start::gitignore_text(existing)) is None,
{
    reveal_strlit("\n");
    reveal_strlit("context/");
    reveal_strlit("iterations/");
    let c = "context/"@;
    let it = "iterations/"@;
    let base = crate::start::trimmed_nonblank(lines_of(existing));
    let ls = crate::start::with_line(crate::start::with_line(base, c), it);
    let sorted = sorted_set(ls);
    assert("\n"@ =~= seq!['\n']);
    let g = crate::text::join(sorted, seq!['\n']).push('\n');
    assert(crate::start::gitignore_text(existing) == g);
    // Every line kept is trimmed, non-blank and free of line feeds.
    lemma_lines_no_nl(existing);
    lemma_trimmed_nonblank_elems(lines_of(existing));
    assert forall|i: int| 0 <= i < ls.len() implies ({
        let e = #[trigger] ls[i];
        &&& trim(e) == e
        &&& e.len() > 0
        &&& !is_ws(e.last())
        &&& forall|k: int| 0 <= k < e.len() ==> e[k] != '\n'
    }) by {
        let e = ls[i];
        let l1 = crate::start::with_line(base, c);
        if i < base.len() {
            assert(l1[i] == base[i]);
            assert(e == base[i]);
            let j = choose|j: int| 0 <= j < lines_of(existing).len() && base[i] == trim(lines_of(existing)[j]);
            let src = lines_of(existing)[j];
            lemma_trim_facts(src);
            assert forall|k: int| 0 <= k < e.len() implies e[k] != '\n' by {
                let q = choose|q: int| 0 <= q < src.len() && src[q] == #[trigger] trim(src)[k];
                assert(lines_of(existing)[j][q] != '\n');
            }
        } else if i < l1.len() {
            assert(e == l1[i]);
            assert(e == c);
            assert(!is_ws(c[0]) && !is_ws(c.last()));
            assert(trim_start(c) == c);
            assert(trim_end(c) == c);
        } else {
            assert(e == it);
            assert(!is_ws(it[0]) && !is_ws(it.last()));
            assert(trim_start(it) == it);
            assert(trim_end(it) == it);
        }
    }
    crate::logic::strseq::lemma_sorted_set_members(ls);
    lemma_dedup_distinct(ls);
    lemma_sort_sorted(dedup(ls));
    assert(sorted.len() >= 1) by {
        let l1 = crate::start::with_line(base, c);
        assert(ls.contains(it)) by {
            if !l1.contains(it) {
                assert(ls[l1.len() as int] == it);
            }
        }
    }
    assert forall|i: int| 0 <= i < sorted.len() implies ({
        let e = #[trigger] sorted[i];
        &&& trim(e) == e
        &&& e.len() > 0
        &&& !is_ws(e.last())
        &&& forall|k: int| 0 <= k < e.len() ==> e[k] != '\n'
    }) by {
        let j = choose|j: int| 0 <= j < ls.len() && ls[j] == sorted[i];
        assert(ls[j] == sorted[i]);
    }
    assert forall|i: int, k: int| 0 <= i < sorted.len() && 0 <= k < sorted[i].len() implies #[trigger] sorted[i][k] != '\n' by {
        assert(trim(sorted[i]) == sorted[i]);
    }
    assert forall|i: int| 0 <= i < sorted.len() implies #[trigger] sorted[i].len() > 0 && !is_ws(sorted[i].last()) by {
        assert(trim(sorted[i]) == sorted[i]);
    }
    lemma_lines_of_joined(sorted);
    assert forall|i: int| 0 <= i < sorted.len() implies trim(#[trigger] sorted[i]) == sorted[i] && sorted[i].len() > 0 by {}
    lemma_trimmed_nonblank_fixed(sorted);
    // Both required lines are already there.
    assert(sorted.contains(c)) by {
        assert(crate::start::with_line(base, c).contains(c)) by {
            if !base.contains(c) {
                assert(base.push(c)[base.len() as int] == c);
            }
        }
        let l1 = crate::start::with_line(base, c);
        let k = choose|k: int| 0 <= k < l1.len() && l1[k] == c;
        if !l1.contains(it) {
            assert(ls[k] == l1[k]);
        }
        assert(ls.contains(c));
    }
    assert(sorted.contains(it)) by {
        let l1 = crate::start::with_line(base, c);
        if !l1.contains(it) {
            assert(ls[l1.len() as int] == it);
        }
        assert(ls.contains(it));
    }
    assert(crate::start::with_line(crate::start::with_line(sorted, c), it) == sorted);
    lemma_sorted_fixed(sorted);
    assert(sorted_set(sorted) == sorted);
    // Each required line stands on a line of its own.
    assert(lines_of(g) == sorted);
    let kc = choose|k: int| 0 <= k < sorted.len() && sorted[k] == c;
    assert(trim(lines_of(g)[kc]) == c);
    let ki = choose|k: int| 0 <= k < sorted.len() && sorted[k] == it;
    assert(trim(lines_of(g)[ki]) == it);
}

/// Normalizing the runner's `.gitignore` a second time changes nothing:
/// starting a run twice leaves the file as the first start wrote it.
pub proof fn law_gitignore_normalization_is_stable(existing: Seq<char>)
    ensures
        crate::start::gitignore_text(crate::start::gitignore_text(existing)) == crate::start::gitignore_text(existing),
{
    lemma_gitignore_text(existing);
}

/// The `.gitignore` that starting a run writes is one that a step accepts:
/// it ignores both `context/` and `iterations/`, whatever the file held before.
pub proof fn law_started_gitignore_is_accepted(existing: Seq<char>)
    ensures
        crate::step::missing_ignore(crate::start::gitignore_text(existing)) is None,
{
    lemma_gitignore_text(existing);
}

// ---------------------------------------------------------------------------
// Stable order of a written tree

/// No later sibling sorts before an earlier one.
pub open spec fn key_sorted(s: Seq<NodeV>) -> bool {
    forall|i: int, j: int| 0 <= i < j < s.len() ==> !key_lt(#[trigger] s[j], #[trigger] s[i])
}

proof fn lemma_key_lt_order(a: NodeV, b: NodeV, c: NodeV)
    ensures
        key_lt(a, b) ==> !key_lt(b, a),
        !key_lt(a, a),
        key_lt(a, b) && key_lt(b, c) ==> key_lt(a, c),
        !key_lt(b, a) && !key_lt(c, b) ==> !key_lt(c, a),
{
    lemma_seq_lt_asym(a.id, b.id);
    lemma_seq_lt_irrefl(a.id);
    lemma_seq_lt_trans(a.id, b.id, c.id);
    lemma_seq_lt_trans(c.id, a.id, b.id);
    lemma_seq_lt_trans(b.id, c.id, a.id);
    lemma_seq_lt_total(a.id, b.id);
    lemma_seq_lt_total(b.id, c.id);
    lemma_seq_lt_total(a.id, c.id);
    lemma_seq_lt_asym(c.id, a.id);
    lemma_seq_lt_asym(b.id, c.id);
}

proof fn lemma_insert_key_members(s: Seq<NodeV>, x: NodeV)
    ensures
        insert_by_key(s, x).len() == s.len() + 1,
        forall|y: NodeV| #[trigger] insert_by_key(s, x).contains(y) ==> y == x || s.contains(y),
    decreases s.len(),
{
    if s.len() > 0 && !key_lt(x, s[0]) {
        let rest = s.drop_first();
        lemma_insert_key_members(rest, x);
        let r = insert_by_key(s, x);
        assert(r == seq![s[0]] + insert_by_key(rest, x));
        assert forall|y: NodeV| #[trigger] r.contains(y) implies y == x || s.contains(y) by {
            let k = choose|k: int| 0 <= k < r.len() && r[k] == y;
            if k == 0 {
                assert(s[0] == y);
            } else {
                assert(insert_by_key(rest, x)[k - 1] == y);
                assert(insert_by_key(rest, x).contains(y));
                if y != x {
                    let m = choose|m: int| 0 <= m < rest.len() && rest[m] == y;
                    assert(s[m + 1] == y);
                }
            }
        }
    } else if s.len() > 0 {
        let r = insert_by_key(s, x);
        assert(r == seq![x] + s);
        assert forall|y: NodeV| #[trigger] r.contains(y) implies y == x || s.contains(y) by {
            let k = choose|k: int| 0 <= k < r.len() && r[k] == y;
            if k > 0 {
                assert(s[k - 1] == y);
            }
        }
    } else {
        assert(insert_by_key(s, x) =~= seq![x]);
    }
}

proof fn lemma_sort_key_members(s: Seq<NodeV>)
    ensures
        sort_by_key(s).len() == s.len(),
        forall|y: NodeV| #[trigger] sort_by_key(s).contains(y) ==> s.contains(y),
    decreases s.len(),
{
    if s.len() > 0 {
        let p = s.drop_last();
        lemma_sort_key_members(p);
        lemma_insert_key_members(sort_by_key(p), s.last());
        assert forall|y: NodeV| #[trigger] sort_by_key(s).contains(y) implies s.contains(y) by {
            if y == s.last() {
                assert(s[s.len() - 1] == y);
            } else {
                assert(sort_by_key(p).contains(y));
                let m = choose|m: int| 0 <= m < p.len() && p[m] == y;
                assert(s[m] == y);
            }
        }
    }
}

proof fn lemma_insert_key_sorted(s: Seq<NodeV>, x: NodeV)
    requires
        key_sorted(s),
    ensures
        key_sorted(insert_by_key(s, x)),
    decreases s.len(),
{
    if s.len() == 0 {
        assert(insert_by_key(s, x) =~= seq![x]);
    } else if key_lt(x, s[0]) {
        let r = seq![x] + s;
        assert(insert_by_key(s, x) == r);
        assert forall|i: int, j: int| 0 <= i < j < r.len() implies !key_lt(#[trigger] r[j], #[trigger] r[i]) by {
            if i == 0 {
                assert(r[j] == s[j - 1]);
                lemma_key_lt_order(s[j - 1], x, s[0]);
                lemma_key_lt_order(x, s[0], s[0]);
            } else {
                assert(r[i] == s[i - 1] && r[j] == s[j - 1]);
            }
        }
    } else {
        let rest = s.drop_first();
        assert forall|i: int, j: int| 0 <= i < j < rest.len() implies !key_lt(#[trigger] rest[j], #[trigger] rest[i]) by {
            assert(rest[i] == s[i + 1] && rest[j] == s[j + 1]);
        }
        lemma_insert_key_sorted(rest, x);
        lemma_insert_key_members(rest, x);
        let ins = insert_by_key(rest, x);
        let r = seq![s[0]] + ins;
        assert(insert_by_key(s, x) == r);
        assert forall|i: int, j: int| 0 <= i < j < r.len() implies !key_lt(#[trigger] r[j], #[trigger] r[i]) by {
            if i == 0 {
                let y = ins[j - 1];
                assert(r[j] == y);
                assert(ins.contains(y));
                if y != x {
                    let m = choose|m: int| 0 <= m < rest.len() && rest[m] == y;
                    assert(s[m + 1] == y);
                }
            } else {
                assert(r[i] == ins[i - 1] && r[j] == ins[j - 1]);
            }
        }
    }
}

proof fn lemma_sort_key_sorted(s: Seq<NodeV>)
    ensures
        key_sorted(sort_by_key(s)),
    decreases s.len(),
{
    if s.len() > 0 {
        lemma_sort_key_sorted(s.drop_last());
        lemma_insert_key_sorted(sort_by_key(s.drop_last()), s.last());
    }
}

proof fn lemma_key_sorted_fixed(s: Seq<NodeV>)
    requires
        key_sorted(s),
    ensures
        sort_by_key(s) == s,
    decreases s.len(),
{
    if s.len() > 0 {
        let p = s.drop_last();
        assert forall|i: int, j: int| 0 <= i < j < p.len() implies !key_lt(#[trigger] p[j], #[trigger] p[i]) by {
            assert(p[i] == s[i] && p[j] == s[j]);
        }
        lemma_key_sorted_fixed(p);
        assert forall|k: int| 0 <= k < p.len() implies !key_lt(s.last(), #[trigger] p[k]) by {
            assert(p[k] == s[k]);
            assert(s.last() == s[s.len() - 1]);
        }
        crate::tree::lemma_insert_at(p, s.last(), p.len() as int);
        assert(p.insert(p.len() as int, s.last()) =~= s);
    }
}

/// A forest whose trees are all sorted already is left as it is.
proof fn lemma_fixed_forest(s: Seq<NodeV>)
    requires
        forall|i: int| 0 <= i < s.len() ==> sorted_tree(#[trigger] s[i]) == s[i],
    ensures
        sorted_forest(s) == s,
{
    crate::tree::lemma_sorted_forest(s);
    assert(sorted_forest(s) =~= s);
}

proof fn lemma_sorted_tree_fixed(t: NodeV)
    ensures
        sorted_tree(sorted_tree(t)) == sorted_tree(t),
    decreases t, 1int,
{
    lemma_sorted_forest_fixed(t.children);
    let x = sorted_forest(t.children);
    let y = sort_by_key(x);
    lemma_sort_key_members(x);
    assert forall|i: int| 0 <= i < y.len() implies sorted_tree(#[trigger] y[i]) == y[i] by {
        assert(y.contains(y[i]));
        assert(x.contains(y[i]));
    }
    lemma_fixed_forest(y);
    lemma_sort_key_sorted(x);
    lemma_key_sorted_fixed(y);
    assert(sorted_tree(t).children == y);
}

proof fn lemma_sorted_forest_fixed(s: Seq<NodeV>)
    ensures
        forall|i: int| 0 <= i < sorted_forest(s).len() ==> sorted_tree(#[trigger] sorted_forest(s)[i]) == sorted_forest(s)[i],
    decreases s, 0int,
{
    if s.len() > 0 {
        let p = s.drop_last();
        lemma_sorted_forest_fixed(p);
        assert(decreases_to!(s => s.last()));
        lemma_sorted_tree_fixed(s.last());
        let r = sorted_forest(s);
        assert(r == sorted_forest(p).push(sorted_tree(s.last())));
        assert forall|i: int| 0 <= i < r.len() implies sorted_tree(#[trigger] r[i]) == r[i] by {
            if i < sorted_forest(p).len() {
                assert(r[i] == sorted_forest(p)[i]);
            }
        }
    }
}

/// A written tree keeps its order: sorting the children of every node by
/// `(order, id)` leaves the siblings in order, and sorting a sorted tree
/// again changes nothing.
pub proof fn law_tree_order_is_stable(t: NodeV)
    ensures
        sorted_tree(sorted_tree(t)) == sorted_tree(t),
        crate::logic::invariants::children_sorted(sorted_tree(t).children),
{
    lemma_sorted_tree_fixed(t);
    lemma_sort_key_sorted(sorted_forest(t.children));
    let c = sorted_tree(t).children;
    assert forall|i: int| 0 <= i < c.len() - 1 implies !key_lt(#[trigger] c[i + 1], c[i]) by {
        assert(c[i + 1] == c[i + 1]);
    }
}

// ---------------------------------------------------------------------------
// The run's branch

/// The branch that starting a run checks out, `runner/<run-id>`, is never
/// one that steps refuse to run on (`main` or `master`).
pub proof fn law_run_branch_is_accepted(run_id: Seq<char>)
    ensures
        crate::step::run_branch_name(run_id) != "main"@,
        crate::step::run_branch_name(run_id) != "master"@,
{
    reveal_strlit("runner/");
    reveal_strlit("main");
    reveal_strlit("master");
    assert(crate::step::run_branch_name(run_id).len() >= 7);
    assert("main"@.len() == 4);
    assert("master"@.len() == 6);
}

// ---------------------------------------------------------------------------
// Passed nodes that nobody touched

/// No two nodes of `t` share an id.
pub open spec fn ids_unique(t: NodeV) -> bool {
    let ids = crate::tree::preorder_ids(t);
    forall|i: int, j: int| 0 <= i < j < ids.len() ==> #[trigger] ids[i] != #[trigger] ids[j]
}

spec fn entry_ids(e: Seq<ParentEntry>) -> Seq<Seq<char>> {
    e.map_values(|x: ParentEntry| x.1.id)
}

proof fn lemma_entry_ids(t: NodeV, parent: Option<Seq<char>>)
    ensures
        entry_ids(parent_entries(t, parent)) == crate::tree::preorder_ids(t),
    decreases t, 1int,
{
    lemma_entry_ids_forest(t.children, Some(t.id));
    let f = crate::logic::immutability::parent_entries_forest(t.children, Some(t.id));
    assert(entry_ids(seq![(parent, t)] + f) =~= seq![t.id] + entry_ids(f));
}

proof fn lemma_entry_ids_forest(s: Seq<NodeV>, parent: Option<Seq<char>>)
    ensures
        entry_ids(crate::logic::immutability::parent_entries_forest(s, parent)) == crate::tree::preorder_ids_forest(s),
    decreases s, 0int,
{
    if s.len() > 0 {
        assert(decreases_to!(s => s[0]));
        lemma_entry_ids(s[0], parent);
        lemma_entry_ids_forest(s.drop_first(), parent);
        let a = parent_entries(s[0], parent);
        let b = crate::logic::immutability::parent_entries_forest(s.drop_first(), parent);
        assert(entry_ids(a + b) =~= entry_ids(a) + entry_ids(b));
    }
}

proof fn lemma_insert_by_id_members(s: Seq<ParentEntry>, x: ParentEntry)
    ensures
        forall|y: ParentEntry| #[trigger] insert_by_id(s, x).contains(y) ==> y == x
            || s.contains(y),
    decreases s.len(),
{
    let r = insert_by_id(s, x);
    if s.len() == 0 {
        assert(r =~= seq![x]);
        assert forall|y: ParentEntry| #[trigger] r.contains(y) implies y == x || s.contains(y) by {
            let k = choose|k: int| 0 <= k < r.len() && r[k] == y;
        }
    } else if seq_lt(x.1.id, s[0].1.id) {
        assert(r == seq![x] + s);
        assert forall|y: ParentEntry| #[trigger] r.contains(y) implies y == x || s.contains(y) by {
            let k = choose|k: int| 0 <= k < r.len() && r[k] == y;
            if k > 0 {
                assert(s[k - 1] == y);
            }
        }
    } else {
        let rest = s.drop_first();
        lemma_insert_by_id_members(rest, x);
        let ins = insert_by_id(rest, x);
        assert(r == seq![s[0]] + ins);
        assert forall|y: ParentEntry| #[trigger] r.contains(y) implies y == x || s.contains(y) by {
            let k = choose|k: int| 0 <= k < r.len() && r[k] == y;
            if k == 0 {
                assert(s[0] == y);
            } else {
                assert(ins[k - 1] == y);
                assert(ins.contains(y));
                if y != x {
                    let m = choose|m: int| 0 <= m < rest.len() && rest[m] == y;
                    assert(s[m + 1] == y);
                }
            }
        }
    }
}

proof fn lemma_sort_by_id_members(s: Seq<ParentEntry>)
    ensures
        forall|y: ParentEntry| #[trigger] sort_by_id(s).contains(y) ==> s.contains(y),
    decreases s.len(),
{
    if s.len() > 0 {
        let p = s.drop_last();
        lemma_sort_by_id_members(p);
        lemma_insert_by_id_members(sort_by_id(p), s.last());
        assert forall|y: ParentEntry| #[trigger] sort_by_id(s).contains(y) implies s.contains(
            y,
        ) by {
            if y == s.last() {
                assert(s[s.len() - 1] == y);
            } else {
                assert(sort_by_id(p).contains(y));
                let m = choose|m: int| 0 <= m < p.len() && p[m] == y;
                assert(s[m] == y);
            }
        }
    }
}

proof fn lemma_lookup_unique(e: Seq<ParentEntry>, k: int)
    requires
        0 <= k < e.len(),
        forall|i: int, j: int| 0 <= i < j < e.len() ==> (#[trigger] e[i]).1.id != (#[trigger] e[j]).1.id,
    ensures
        lookup_last(keyed(e), e[k].1.id) == Some(e[k]),
    decreases e.len(),
{
    let ke = keyed(e);
    if k < e.len() - 1 {
        let p = e.drop_last();
        assert(ke.last().0 == e[e.len() - 1].1.id);
        assert(ke.drop_last() =~= keyed(p));
        assert forall|i: int, j: int| 0 <= i < j < p.len() implies (#[trigger] p[i]).1.id != (#[trigger] p[j]).1.id by {
            assert(p[i] == e[i] && p[j] == e[j]);
        }
        assert(p[k] == e[k]);
        lemma_lookup_unique(p, k);
    }
}

proof fn lemma_no_passed_errors(ps: Seq<ParentEntry>, next: Seq<(Seq<char>, ParentEntry)>)
    requires
        forall|i: int| 0 <= i < ps.len() ==> passed_errors(#[trigger] ps[i], next).len() == 0,
    ensures
        all_passed_errors(ps, next).len() == 0,
    decreases ps.len(),
{
    if ps.len() > 0 {
        let p = ps.drop_last();
        assert forall|i: int| 0 <= i < p.len() implies passed_errors(#[trigger] p[i], next).len() == 0 by {
            assert(p[i] == ps[i]);
        }
        lemma_no_passed_errors(p, next);
        assert(ps.last() == ps[ps.len() - 1]);
    }
}

/// A tree compared with itself shows no change to any passed node: the
/// immutability check reports nothing when nothing was touched, provided no
/// two nodes share an id.
pub proof fn law_untouched_tree_keeps_passed_nodes(t: NodeV)
    requires
        ids_unique(t),
    ensures
        immutability_errors(t, t).len() == 0,
{
    let e = parent_entries(t, None);
    let pred = |x: ParentEntry| x.1.passes;
    let ps = passed_entries(t);
    let ke = keyed(e);
    lemma_entry_ids(t, None);
    assert forall|i: int, j: int| 0 <= i < j < e.len() implies (#[trigger] e[i]).1.id != (#[trigger] e[j]).1.id by {
        assert(entry_ids(e)[i] == e[i].1.id);
        assert(entry_ids(e)[j] == e[j].1.id);
    }
    lemma_sort_by_id_members(e.filter(pred));
    assert forall|i: int| 0 <= i < ps.len() implies passed_errors(#[trigger] ps[i], ke).len() == 0 by {
        assert(ps.contains(ps[i]));
        assert(e.filter(pred).contains(ps[i]));
        e.lemma_filter_contains_rev(pred, ps[i]);
        let k = choose|k: int| 0 <= k < e.len() && e[k] == ps[i];
        lemma_lookup_unique(e, k);
    }
    lemma_no_passed_errors(ps, ke);
}

// ---------------------------------------------------------------------------
// Children that nobody added

/// Children that were all there before add nothing.
proof fn lemma_nothing_added(next: Seq<Seq<char>>, prev: Seq<Seq<char>>)
    requires
        forall|c: Seq<char>| #[trigger] next.contains(c) ==> prev.contains(c),
    ensures
        crate::logic::child_additions::added_children(next, prev).len() == 0,
{
    let pred = |c: Seq<char>| !prev.contains(c);
    let f = next.filter(pred);
    if f.len() > 0 {
        next.lemma_filter_pred(pred, 0);
        assert(f.contains(f[0]));
        next.lemma_filter_contains_rev(pred, f[0]);
    }
    assert(f.len() == 0);
    assert(f =~= Seq::<Seq<char>>::empty());
    assert(dedup(f) =~= Seq::<Seq<char>>::empty());
}

proof fn lemma_no_parent_errors(
    keys: Seq<Seq<char>>,
    e: Seq<(Seq<char>, Seq<Seq<char>>)>,
    allowed: Option<Seq<char>>,
)
    ensures
        crate::logic::child_additions::parents_errors(keys, e, e, allowed).len() == 0,
    decreases keys.len(),
{
    if keys.len() > 0 {
        lemma_no_parent_errors(keys.drop_last(), e, allowed);
        match lookup_last(e, keys.last()) {
            Some(c) => lemma_nothing_added(c, c),
            None => {},
        }
    }
}

/// A tree compared with itself gained no children: the check on new
/// children reports nothing, whichever parent is allowed to grow.
pub proof fn law_untouched_tree_adds_no_children(t: NodeV, allowed: Option<Seq<char>>)
    ensures
        crate::logic::child_additions::child_addition_errors(t, t, allowed).len() == 0,
{
    lemma_no_parent_errors(
        sorted_set(crate::tree::preorder_ids(t)),
        crate::logic::child_additions::child_entries(t),
        allowed,
    );
}

// ---------------------------------------------------------------------------
// Runner ownership of `passes` and `attempts`

/// `t` with the fields that the runner owns, `passes` and `attempts`,
/// cleared in every node: what the agents write.
pub open spec fn agent_view(t: NodeV) -> NodeV
    decreases t, 1int,
{
    NodeV { passes: false, attempts: 0, children: agent_view_forest(t.children), ..t }
}

pub open spec fn agent_view_forest(s: Seq<NodeV>) -> Seq<NodeV>
    decreases s, 0int,
{
    if s.len() == 0 {
        s
    } else {
        agent_view_forest(s.drop_last()).push(agent_view(s.last()))
    }
}

proof fn lemma_agent_forest_index(s: Seq<NodeV>)
    ensures
        agent_view_forest(s).len() == s.len(),
        forall|i: int| 0 <= i < s.len() ==> #[trigger] agent_view_forest(s)[i] == agent_view(s[i]),
    decreases s.len(),
{
    if s.len() > 0 {
        lemma_agent_forest_index(s.drop_last());
    }
}

/// Two forests that agree tree by tree on what the agents own agree as a whole.
proof fn lemma_agent_forest_eq(a: Seq<NodeV>, b: Seq<NodeV>)
    requires
        a.len() == b.len(),
        forall|i: int| 0 <= i < a.len() ==> agent_view(#[trigger] a[i]) == agent_view(b[i]),
    ensures
        agent_view_forest(a) == agent_view_forest(b),
{
    lemma_agent_forest_index(a);
    lemma_agent_forest_index(b);
    assert(agent_view_forest(a) =~= agent_view_forest(b));
}

proof fn lemma_reset_forest_index(s: Seq<NodeV>, m: Seq<(Seq<char>, crate::logic::state_update::Owned)>)
    ensures
        crate::logic::state_update::reset_owned_forest(s, m).len() == s.len(),
        forall|i: int| 0 <= i < s.len() ==> #[trigger] crate::logic::state_update::reset_owned_forest(s, m)[i]
            == crate::logic::state_update::reset_owned(s[i], m),
    decreases s.len(),
{
    if s.len() > 0 {
        lemma_reset_forest_index(s.drop_last(), m);
    }
}

proof fn lemma_reset_keeps_agent(t: NodeV, m: Seq<(Seq<char>, crate::logic::state_update::Owned)>)
    ensures
        agent_view(crate::logic::state_update::reset_owned(t, m)) == agent_view(t),
    decreases t, 1int,
{
    lemma_reset_forest_keeps_agent(t.children, m);
    lemma_reset_forest_index(t.children, m);
    let r = crate::logic::state_update::reset_owned(t, m);
    assert forall|i: int| 0 <= i < r.children.len() implies agent_view(#[trigger] r.children[i]) == agent_view(t.children[i]) by {}
    lemma_agent_forest_eq(r.children, t.children);
}

proof fn lemma_reset_forest_keeps_agent(s: Seq<NodeV>, m: Seq<(Seq<char>, crate::logic::state_update::Owned)>)
    ensures
        forall|i: int| 0 <= i < s.len() ==> agent_view(crate::logic::state_update::reset_owned(#[trigger] s[i], m)) == agent_view(s[i]),
    decreases s, 0int,
{
    if s.len() > 0 {
        let p = s.drop_last();
        lemma_reset_forest_keeps_agent(p, m);
        assert(decreases_to!(s => s.last()));
        lemma_reset_keeps_agent(s.last(), m);
        assert forall|i: int| 0 <= i < s.len() implies agent_view(crate::logic::state_update::reset_owned(#[trigger] s[i], m))
            == agent_view(s[i]) by {
            if i < p.len() {
                assert(s[i] == p[i]);
            }
        }
    }
}

proof fn lemma_apply_keeps_agent(t: NodeV, id: Seq<char>, st: AgentStatus, g: GuardOutcome)
    ensures
        agent_view(apply_first(t, id, st, g)) == agent_view(t),
    decreases t, 1int,
{
    if t.id != id {
        lemma_apply_forest_keeps_agent(t.children, id, st, g);
        lemma_agent_forest_eq(apply_first_forest(t.children, id, st, g), t.children);
    }
}

proof fn lemma_apply_forest_keeps_agent(s: Seq<NodeV>, id: Seq<char>, st: AgentStatus, g: GuardOutcome)
    ensures
        apply_first_forest(s, id, st, g).len() == s.len(),
        forall|i: int| 0 <= i < s.len() ==> agent_view(#[trigger] apply_first_forest(s, id, st, g)[i]) == agent_view(s[i]),
    decreases s, 0int,
{
    if s.len() > 0 {
        let r = apply_first_forest(s, id, st, g);
        if find_first(s[0], id) is Some {
            assert(decreases_to!(s => s[0]));
            lemma_apply_keeps_agent(s[0], id, st, g);
            assert(r == seq![apply_first(s[0], id, st, g)] + s.drop_first());
            assert forall|i: int| 0 <= i < s.len() implies agent_view(#[trigger] r[i]) == agent_view(s[i]) by {
                if i > 0 {
                    assert(r[i] == s.drop_first()[i - 1]);
                }
            }
        } else {
            let rest = s.drop_first();
            assert(decreases_to!(s => rest));
            lemma_apply_forest_keeps_agent(rest, id, st, g);
            let ar = apply_first_forest(rest, id, st, g);
            assert(r == seq![s[0]] + ar);
            assert forall|i: int| 0 <= i < s.len() implies agent_view(#[trigger] r[i]) == agent_view(s[i]) by {
                if i > 0 {
                    assert(r[i] == ar[i - 1]);
                    assert(s[i] == rest[i - 1]);
                }
            }
        }
    }
}

proof fn lemma_derive_forest_index(s: Seq<NodeV>)
    ensures
        derive_passes_forest(s).len() == s.len(),
        forall|i: int| 0 <= i < s.len() ==> #[trigger] derive_passes_forest(s)[i] == derive_passes(s[i]),
    decreases s.len(),
{
    if s.len() > 0 {
        lemma_derive_forest_index(s.drop_last());
    }
}

proof fn lemma_derive_keeps_agent(t: NodeV)
    ensures
        agent_view(derive_passes(t)) == agent_view(t),
    decreases t, 1int,
{
    if t.children.len() > 0 {
        lemma_derive_forest_keeps_agent(t.children);
        lemma_derive_forest_index(t.children);
        let cs = derive_passes_forest(t.children);
        assert forall|i: int| 0 <= i < cs.len() implies agent_view(#[trigger] cs[i]) == agent_view(t.children[i]) by {}
        lemma_agent_forest_eq(cs, t.children);
    }
}

proof fn lemma_derive_forest_keeps_agent(s: Seq<NodeV>)
    ensures
        forall|i: int| 0 <= i < s.len() ==> agent_view(derive_passes(#[trigger] s[i])) == agent_view(s[i]),
    decreases s, 0int,
{
    if s.len() > 0 {
        let p = s.drop_last();
        lemma_derive_forest_keeps_agent(p);
        assert(decreases_to!(s => s.last()));
        lemma_derive_keeps_agent(s.last());
        assert forall|i: int| 0 <= i < s.len() implies agent_view(derive_passes(#[trigger] s[i])) == agent_view(s[i]) by {
            if i < p.len() {
                assert(s[i] == p[i]);
            }
        }
    }
}

proof fn lemma_agent_insert(q: Seq<NodeV>, y: NodeV)
    ensures
        agent_view_forest(insert_by_key(q, y)) == insert_by_key(agent_view_forest(q), agent_view(y)),
    decreases q.len(),
{
    let aq = agent_view_forest(q);
    let ay = agent_view(y);
    lemma_agent_forest_index(q);
    let r = insert_by_key(q, y);
    if q.len() == 0 {
        assert(r =~= seq![y]);
        lemma_agent_forest_index(r);
        assert(agent_view_forest(r) =~= seq![ay]);
    } else if key_lt(y, q[0]) {
        assert(r == seq![y] + q);
        assert(aq[0] == agent_view(q[0]));
        assert(key_lt(ay, aq[0]));
        lemma_agent_forest_index(r);
        assert forall|i: int| 0 <= i < r.len() implies #[trigger] agent_view_forest(r)[i] == (seq![ay] + aq)[i] by {
            if i > 0 {
                assert(r[i] == q[i - 1]);
            }
        }
        assert(agent_view_forest(r) =~= seq![ay] + aq);
    } else {
        let rest = q.drop_first();
        lemma_agent_insert(rest, y);
        lemma_agent_forest_index(rest);
        let ins = insert_by_key(rest, y);
        assert(r == seq![q[0]] + ins);
        assert(aq[0] == agent_view(q[0]));
        assert(!key_lt(ay, aq[0]));
        assert(aq.drop_first() =~= agent_view_forest(rest)) by {
            assert forall|i: int| 0 <= i < rest.len() implies #[trigger] aq.drop_first()[i] == agent_view_forest(rest)[i] by {
                assert(rest[i] == q[i + 1]);
            }
        }
        lemma_agent_forest_index(r);
        lemma_agent_forest_index(ins);
        let air = agent_view_forest(ins);
        assert forall|i: int| 0 <= i < r.len() implies #[trigger] agent_view_forest(r)[i] == (seq![aq[0]] + air)[i] by {
            if i > 0 {
                assert(r[i] == ins[i - 1]);
            }
        }
        assert(agent_view_forest(r) =~= seq![aq[0]] + air);
    }
}

proof fn lemma_agent_sort(x: Seq<NodeV>)
    ensures
        agent_view_forest(sort_by_key(x)) == sort_by_key(agent_view_forest(x)),
    decreases x.len(),
{
    if x.len() > 0 {
        let p = x.drop_last();
        lemma_agent_sort(p);
        lemma_agent_insert(sort_by_key(p), x.last());
        lemma_agent_forest_index(x);
        lemma_agent_forest_index(p);
        let ax = agent_view_forest(x);
        assert(ax.drop_last() =~= agent_view_forest(p)) by {
            assert forall|i: int| 0 <= i < p.len() implies #[trigger] ax.drop_last()[i] == agent_view_forest(p)[i] by {
                assert(p[i] == x[i]);
            }
        }
        assert(ax.last() == agent_view(x.last()));
    }
}

proof fn lemma_agent_sorted_tree(t: NodeV)
    ensures
        agent_view(sorted_tree(t)) == sorted_tree(agent_view(t)),
    decreases t, 1int,
{
    lemma_agent_sorted_forest(t.children);
    let sf = sorted_forest(t.children);
    lemma_agent_sort(sf);
}

proof fn lemma_agent_sorted_forest(s: Seq<NodeV>)
    ensures
        agent_view_forest(sorted_forest(s)) == sorted_forest(agent_view_forest(s)),
    decreases s, 0int,
{
    if s.len() > 0 {
        let p = s.drop_last();
        lemma_agent_sorted_forest(p);
        assert(decreases_to!(s => s.last()));
        lemma_agent_sorted_tree(s.last());
        let a = agent_view_forest(s);
        lemma_agent_forest_index(s);
        lemma_agent_forest_index(p);
        assert(a.drop_last() =~= agent_view_forest(p)) by {
            assert forall|i: int| 0 <= i < p.len() implies #[trigger] a.drop_last()[i] == agent_view_forest(p)[i] by {
                assert(p[i] == s[i]);
            }
        }
        assert(a.last() == agent_view(s.last()));
        let q = sorted_forest(s);
        assert(q == sorted_forest(p).push(sorted_tree(s.last())));
        assert(q.drop_last() =~= sorted_forest(p));
        assert(agent_view_forest(q) == agent_view_forest(q.drop_last()).push(agent_view(q.last())));
        assert(sorted_forest(a) == sorted_forest(a.drop_last()).push(sorted_tree(a.last())));
    }
}

/// A step changes nothing that the agents own: apart from putting siblings
/// in order, the tree it writes differs from the agent's tree only in the
/// runner-owned fields `passes` and `attempts` (ids, order, titles, goals,
/// acceptance criteria, `next`, `max_attempts` and the shape stay).
pub proof fn law_step_changes_only_runner_fields(
    prev: NodeV,
    next: NodeV,
    id: Seq<char>,
    status: AgentStatus,
    guard: GuardOutcome,
)
    ensures
        agent_view(updated_tree(prev, next, id, status, guard)) == agent_view(sorted_tree(next)),
{
    let r = reset_tree(prev, next);
    let a = apply_first(r, id, status, guard);
    let d = derive_passes(a);
    lemma_reset_keeps_agent(next, crate::logic::state_update::owned_entries(prev));
    lemma_apply_keeps_agent(r, id, status, guard);
    lemma_derive_keeps_agent(a);
    lemma_agent_sorted_tree(d);
    lemma_agent_sorted_tree(next);
}

// ---------------------------------------------------------------------------
// The runner's own decomposition adds children only where it may

/// A node's id with the ids of its children.
type ChildEntry = (Seq<char>, Seq<Seq<char>>);

spec fn entry_keys(e: Seq<ChildEntry>) -> Seq<Seq<char>> {
    e.map_values(|x: ChildEntry| x.0)
}

proof fn lemma_contains_concat<A>(a: Seq<A>, b: Seq<A>, x: A)
    ensures
        (a + b).contains(x) <==> a.contains(x) || b.contains(x),
{
    if (a + b).contains(x) {
        let k = choose|k: int| 0 <= k < (a + b).len() && (a + b)[k] == x;
        if k < a.len() {
            assert(a[k] == x);
        } else {
            assert(b[k - a.len()] == x);
        }
    }
    if a.contains(x) {
        let k = choose|k: int| 0 <= k < a.len() && a[k] == x;
        assert((a + b)[k] == x);
    }
    if b.contains(x) {
        let k = choose|k: int| 0 <= k < b.len() && b[k] == x;
        assert((a + b)[k + a.len()] == x);
    }
}

proof fn lemma_entry_keys(t: NodeV)
    ensures
        entry_keys(child_entries(t)) == crate::tree::preorder_ids(t),
    decreases t, 1int,
{
    lemma_entry_keys_forest(t.children);
    let f = child_entries_forest(t.children);
    assert(entry_keys(seq![(t.id, child_ids(t))] + f) =~= seq![t.id] + entry_keys(f));
}

proof fn lemma_entry_keys_forest(s: Seq<NodeV>)
    ensures
        entry_keys(child_entries_forest(s)) == crate::tree::preorder_ids_forest(s),
    decreases s, 0int,
{
    if s.len() > 0 {
        assert(decreases_to!(s => s[0]));
        lemma_entry_keys(s[0]);
        lemma_entry_keys_forest(s.drop_first());
        let a = child_entries(s[0]);
        let b = child_entries_forest(s.drop_first());
        assert(entry_keys(a + b) =~= entry_keys(a) + entry_keys(b));
    }
}

proof fn lemma_lookup_found(e: Seq<ChildEntry>, k: Seq<char>)
    ensures
        lookup_last(e, k) matches Some(v) ==> e.contains((k, v)),
        entry_keys(e).contains(k) ==> lookup_last(e, k) is Some,
    decreases e.len(),
{
    if e.len() > 0 {
        let p = e.drop_last();
        lemma_lookup_found(p, k);
        if e.last().0 != k {
            if let Some(v) = lookup_last(e, k) {
                let j = choose|j: int| 0 <= j < p.len() && p[j] == (k, v);
                assert(e[j] == (k, v));
            }
            if entry_keys(e).contains(k) {
                let j = choose|j: int| 0 <= j < e.len() && entry_keys(e)[j] == k;
                assert(j != e.len() - 1);
                assert(entry_keys(p)[j] == k);
            }
        } else {
            assert(e[e.len() - 1] == e.last());
        }
    }
}

proof fn lemma_lookup_unique_entry(e: Seq<ChildEntry>, x: ChildEntry)
    requires
        e.contains(x),
        forall|i: int, j: int| 0 <= i < j < e.len() ==> (#[trigger] e[i]).0 != (#[trigger] e[j]).0,
    ensures
        lookup_last(e, x.0) == Some(x.1),
    decreases e.len(),
{
    let k = choose|k: int| 0 <= k < e.len() && e[k] == x;
    if k < e.len() - 1 {
        let p = e.drop_last();
        assert(e[k].0 != e[e.len() - 1].0);
        assert(p[k] == x);
        assert forall|i: int, j: int| 0 <= i < j < p.len() implies (#[trigger] p[i]).0 != (#[trigger] p[j]).0 by {
            assert(p[i] == e[i] && p[j] == e[j]);
        }
        lemma_lookup_unique_entry(p, x);
    }
}

proof fn lemma_entries_concat(a: Seq<NodeV>, b: Seq<NodeV>)
    ensures
        child_entries_forest(a + b) == child_entries_forest(a) + child_entries_forest(b),
    decreases a.len(),
{
    if a.len() == 0 {
        assert(a + b =~= b);
        assert(child_entries_forest(a) + child_entries_forest(b) =~= child_entries_forest(b));
    } else {
        lemma_entries_concat(a.drop_first(), b);
        assert((a + b)[0] == a[0]);
        assert((a + b).drop_first() =~= a.drop_first() + b);
        assert(child_entries_forest(a + b) == child_entries(a[0]) + child_entries_forest(a.drop_first() + b));
        assert(child_entries(a[0]) + (child_entries_forest(a.drop_first()) + child_entries_forest(b)) =~= (child_entries(a[0])
            + child_entries_forest(a.drop_first())) + child_entries_forest(b));
    }
}

proof fn lemma_append_keeps_ids(s: Seq<NodeV>, id: Seq<char>, kids: Seq<NodeV>)
    ensures
        crate::step::append_first_forest(s, id, kids).len() == s.len(),
        forall|i: int| 0 <= i < s.len() ==> (#[trigger] crate::step::append_first_forest(s, id, kids)[i]).id == s[i].id,
    decreases s.len(),
{
    if s.len() > 0 {
        let r = crate::step::append_first_forest(s, id, kids);
        if find_first(s[0], id) is Some {
            assert(r == seq![crate::step::append_first(s[0], id, kids)] + s.drop_first());
            assert forall|i: int| 0 <= i < s.len() implies (#[trigger] r[i]).id == s[i].id by {
                if i > 0 {
                    assert(r[i] == s.drop_first()[i - 1]);
                }
            }
        } else {
            let rest = s.drop_first();
            lemma_append_keeps_ids(rest, id, kids);
            let ar = crate::step::append_first_forest(rest, id, kids);
            assert(r == seq![s[0]] + ar);
            assert forall|i: int| 0 <= i < s.len() implies (#[trigger] r[i]).id == s[i].id by {
                if i > 0 {
                    assert(r[i] == ar[i - 1]);
                    assert(s[i] == rest[i - 1]);
                }
            }
        }
    }
}

/// Every entry after appending `kids` under the first node `id` is the
/// entry of that node, an entry from before, or an entry of the new children.
proof fn lemma_append_entries(t: NodeV, id: Seq<char>, kids: Seq<NodeV>)
    ensures
        forall|e: ChildEntry| #[trigger] child_entries(crate::step::append_first(t, id, kids)).contains(e) ==> e.0 == id
            || child_entries(t).contains(e) || child_entries_forest(kids).contains(e),
    decreases t, 1int,
{
    let a = crate::step::append_first(t, id, kids);
    let head = seq![(t.id, child_ids(t))];
    if t.id == id {
        lemma_entries_concat(t.children, kids);
        assert forall|e: ChildEntry| #[trigger] child_entries(a).contains(e) implies e.0 == id || child_entries(t).contains(e)
            || child_entries_forest(kids).contains(e) by {
            lemma_contains_concat(seq![(a.id, child_ids(a))], child_entries_forest(a.children), e);
            lemma_contains_concat(child_entries_forest(t.children), child_entries_forest(kids), e);
            lemma_contains_concat(head, child_entries_forest(t.children), e);
        }
    } else {
        lemma_append_entries_forest(t.children, id, kids);
        lemma_append_keeps_ids(t.children, id, kids);
        assert(child_ids(a) =~= child_ids(t));
        assert forall|e: ChildEntry| #[trigger] child_entries(a).contains(e) implies e.0 == id || child_entries(t).contains(e)
            || child_entries_forest(kids).contains(e) by {
            lemma_contains_concat(head, child_entries_forest(a.children), e);
            lemma_contains_concat(head, child_entries_forest(t.children), e);
        }
    }
}

proof fn lemma_append_entries_forest(s: Seq<NodeV>, id: Seq<char>, kids: Seq<NodeV>)
    ensures
        forall|e: ChildEntry| #[trigger] child_entries_forest(crate::step::append_first_forest(s, id, kids)).contains(e)
            ==> e.0 == id || child_entries_forest(s).contains(e) || child_entries_forest(kids).contains(e),
    decreases s, 0int,
{
    if s.len() > 0 {
        let r = crate::step::append_first_forest(s, id, kids);
        let rest = s.drop_first();
        if find_first(s[0], id) is Some {
            assert(decreases_to!(s => s[0]));
            lemma_append_entries(s[0], id, kids);
            let a0 = crate::step::append_first(s[0], id, kids);
            assert(r == seq![a0] + rest);
            assert((seq![a0] + rest)[0] == a0);
            assert((seq![a0] + rest).drop_first() =~= rest);
            assert forall|e: ChildEntry| #[trigger] child_entries_forest(r).contains(e) implies e.0 == id
                || child_entries_forest(s).contains(e) || child_entries_forest(kids).contains(e) by {
                lemma_contains_concat(child_entries(a0), child_entries_forest(rest), e);
                lemma_contains_concat(child_entries(s[0]), child_entries_forest(rest), e);
            }
        } else {
            assert(decreases_to!(s => rest));
            lemma_append_entries_forest(rest, id, kids);
            let ar = crate::step::append_first_forest(rest, id, kids);
            assert(r == seq![s[0]] + ar);
            assert((seq![s[0]] + ar)[0] == s[0]);
            assert((seq![s[0]] + ar).drop_first() =~= ar);
            assert forall|e: ChildEntry| #[trigger] child_entries_forest(r).contains(e) implies e.0 == id
                || child_entries_forest(s).contains(e) || child_entries_forest(kids).contains(e) by {
                lemma_contains_concat(child_entries(s[0]), child_entries_forest(ar), e);
                lemma_contains_concat(child_entries(s[0]), child_entries_forest(rest), e);
            }
        }
    }
}

/// Some entry of `es` has the key of `e` and every child id of `e`.
spec fn covered(e: ChildEntry, es: Seq<ChildEntry>) -> bool {
    exists|f: ChildEntry| #[trigger] es.contains(f) && f.0 == e.0 && forall|c: Seq<char>| #[trigger] e.1.contains(c) ==> f.1.contains(c)
}

proof fn lemma_covered_witness(e: ChildEntry, es: Seq<ChildEntry>) -> (f: ChildEntry)
    requires
        covered(e, es),
    ensures
        es.contains(f),
        f.0 == e.0,
        forall|c: Seq<char>| #[trigger] e.1.contains(c) ==> f.1.contains(c),
{
    choose|f: ChildEntry| #[trigger] es.contains(f) && f.0 == e.0 && forall|c: Seq<char>| #[trigger] e.1.contains(c) ==> f.1.contains(c)
}

proof fn lemma_forest_entries_member(s: Seq<NodeV>, e: ChildEntry)
    ensures
        child_entries_forest(s).contains(e) <==> exists|j: int| 0 <= j < s.len() && #[trigger] child_entries(s[j]).contains(e),
    decreases s.len(),
{
    if s.len() > 0 {
        let rest = s.drop_first();
        lemma_forest_entries_member(rest, e);
        lemma_contains_concat(child_entries(s[0]), child_entries_forest(rest), e);
        if exists|j: int| 0 <= j < s.len() && #[trigger] child_entries(s[j]).contains(e) {
            let j = choose|j: int| 0 <= j < s.len() && #[trigger] child_entries(s[j]).contains(e);
            if j > 0 {
                assert(s[j] == rest[j - 1]);
            }
        }
        if exists|j: int| 0 <= j < rest.len() && #[trigger] child_entries(rest[j]).contains(e) {
            let j = choose|j: int| 0 <= j < rest.len() && #[trigger] child_entries(rest[j]).contains(e);
            assert(rest[j] == s[j + 1]);
        }
    }
}

proof fn lemma_sorted_entries(t: NodeV)
    ensures
        forall|e: ChildEntry| #[trigger] child_entries(sorted_tree(t)).contains(e) ==> covered(e, child_entries(t)),
    decreases t, 1int,
{
    let ch = t.children;
    let x = sorted_forest(ch);
    let y = sort_by_key(x);
    let st = sorted_tree(t);
    lemma_sorted_entries_forest(ch);
    crate::tree::lemma_sorted_forest(ch);
    lemma_sort_key_members(x);
    let head = (t.id, child_ids(t));
    assert(child_entries(t)[0] == head);
    assert(child_entries(t).contains(head));
    assert forall|e: ChildEntry| #[trigger] child_entries(st).contains(e) implies covered(e, child_entries(t)) by {
        lemma_contains_concat(seq![(st.id, child_ids(st))], child_entries_forest(y), e);
        if e == (st.id, child_ids(st)) {
            assert forall|c: Seq<char>| #[trigger] e.1.contains(c) implies head.1.contains(c) by {
                let j = choose|j: int| 0 <= j < child_ids(st).len() && child_ids(st)[j] == c;
                assert(y.contains(y[j]));
                assert(x.contains(y[j]));
                let i = choose|i: int| 0 <= i < x.len() && x[i] == y[j];
                assert(x[i] == sorted_tree(ch[i]));
                assert(child_ids(t)[i] == c);
            }
        } else {
            assert(child_entries_forest(y).contains(e));
            lemma_forest_entries_member(y, e);
            let j = choose|j: int| 0 <= j < y.len() && #[trigger] child_entries(y[j]).contains(e);
            assert(y.contains(y[j]));
            assert(x.contains(y[j]));
            let i = choose|i: int| 0 <= i < x.len() && x[i] == y[j];
            assert(x[i] == sorted_tree(ch[i]));
            assert(covered(e, child_entries(ch[i])));
            let f = choose|f: ChildEntry| #[trigger] child_entries(ch[i]).contains(f) && f.0 == e.0 && forall|c: Seq<char>|
                #[trigger] e.1.contains(c) ==> f.1.contains(c);
            lemma_forest_entries_member(ch, f);
            lemma_contains_concat(seq![head], child_entries_forest(ch), f);
            assert(child_entries(t).contains(f));
        }
    }
}

proof fn lemma_sorted_entries_forest(s: Seq<NodeV>)
    ensures
        forall|i: int, e: ChildEntry| 0 <= i < s.len() && #[trigger] child_entries(sorted_tree(s[i])).contains(e) ==> covered(
            e,
            child_entries(s[i]),
        ),
    decreases s, 0int,
{
    if s.len() > 0 {
        let p = s.drop_last();
        lemma_sorted_entries_forest(p);
        assert(decreases_to!(s => s.last()));
        lemma_sorted_entries(s.last());
        assert forall|i: int, e: ChildEntry| 0 <= i < s.len() && #[trigger] child_entries(sorted_tree(s[i])).contains(e) implies covered(
            e,
            child_entries(s[i]),
        ) by {
            if i < p.len() {
                assert(s[i] == p[i]);
            } else {
                assert(s[i] == s.last());
            }
        }
    }
}

proof fn lemma_leaf_entries(kids: Seq<NodeV>)
    requires
        forall|i: int| 0 <= i < kids.len() ==> (#[trigger] kids[i]).children.len() == 0,
    ensures
        forall|e: ChildEntry| #[trigger] child_entries_forest(kids).contains(e) ==> e.1.len() == 0,
{
    assert forall|e: ChildEntry| #[trigger] child_entries_forest(kids).contains(e) implies e.1.len() == 0 by {
        lemma_forest_entries_member(kids, e);
        let j = choose|j: int| 0 <= j < kids.len() && #[trigger] child_entries(kids[j]).contains(e);
        let k = kids[j];
        assert(child_entries_forest(k.children) =~= Seq::<ChildEntry>::empty());
        assert(child_entries(k) =~= seq![(k.id, child_ids(k))]);
        assert(child_ids(k) =~= Seq::<Seq<char>>::empty());
    }
}

proof fn lemma_parents_without_errors(
    keys: Seq<Seq<char>>,
    ep: Seq<ChildEntry>,
    en: Seq<ChildEntry>,
    allowed: Option<Seq<char>>,
)
    requires
        forall|i: int| 0 <= i < keys.len() ==> crate::logic::child_additions::parent_error(#[trigger] keys[i], ep, en, allowed).len() == 0,
    ensures
        crate::logic::child_additions::parents_errors(keys, ep, en, allowed).len() == 0,
    decreases keys.len(),
{
    if keys.len() > 0 {
        let p = keys.drop_last();
        assert forall|i: int| 0 <= i < p.len() implies crate::logic::child_additions::parent_error(#[trigger] p[i], ep, en, allowed).len() == 0 by {
            assert(p[i] == keys[i]);
        }
        lemma_parents_without_errors(p, ep, en, allowed);
        assert(keys.last() == keys[keys.len() - 1]);
    }
}

/// The runner's own decomposition adds children only under the node it
/// decomposes: checked against the tree before, it passes the check on new
/// children with that node as the one allowed to grow (provided no two
/// nodes of the tree share an id).
pub proof fn law_decomposition_adds_children_only_under_selected(
    prev: NodeV,
    id: Seq<char>,
    cs: Seq<crate::logic::types::TreeChildSpec>,
    max_attempts: u32,
)
    requires
        ids_unique(prev),
    ensures
        crate::logic::child_additions::child_addition_errors(prev, crate::step::decomposed_tree(prev, id, cs, max_attempts), Some(id)).len()
            == 0,
{
    let kids = crate::step::new_children(id, crate::tree::preorder_ids(prev), cs, max_attempts);
    let a = crate::step::append_first(prev, id, kids);
    let n = sorted_tree(a);
    assert(crate::step::decomposed_tree(prev, id, cs, max_attempts) == n);
    let ep = child_entries(prev);
    let en = child_entries(n);
    let keys = sorted_set(crate::tree::preorder_ids(n));
    lemma_entry_keys(prev);
    lemma_entry_keys(n);
    crate::logic::strseq::lemma_sorted_set_members(crate::tree::preorder_ids(n));
    lemma_sorted_entries(a);
    lemma_append_entries(prev, id, kids);
    lemma_leaf_entries(kids);
    assert forall|i: int, j: int| 0 <= i < j < ep.len() implies (#[trigger] ep[i]).0 != (#[trigger] ep[j]).0 by {
        assert(entry_keys(ep)[i] == ep[i].0);
        assert(entry_keys(ep)[j] == ep[j].0);
    }
    assert forall|i: int| 0 <= i < keys.len() implies crate::logic::child_additions::parent_error(#[trigger] keys[i], ep, en, Some(id)).len()
        == 0 by {
        let k = keys[i];
        if let Some(pc) = lookup_last(ep, k) {
            if k != id {
                assert(keys.contains(k));
                assert(entry_keys(en).contains(k));
                lemma_lookup_found(en, k);
                let nc = lookup_last(en, k).unwrap();
                assert(en.contains((k, nc)));
                assert(covered((k, nc), child_entries(a)));
                let f = lemma_covered_witness((k, nc), child_entries(a));
                if ep.contains(f) {
                    lemma_lookup_unique_entry(ep, f);
                    assert forall|c: Seq<char>| #[trigger] nc.contains(c) implies pc.contains(c) by {
                        assert((k, nc).1.contains(c));
                        assert(f.1.contains(c));
                    }
                    lemma_nothing_added(nc, pc);
                } else {
                    assert(child_entries_forest(kids).contains(f));
                    assert forall|c: Seq<char>| #[trigger] nc.contains(c) implies pc.contains(c) by {
                        assert((k, nc).1.contains(c));
                        assert(f.1.contains(c));
                    }
                    lemma_nothing_added(nc, pc);
                }
            }
        }
    }
    lemma_parents_without_errors(keys, ep, en, Some(id));
}

// ---------------------------------------------------------------------------
// Validated trees

proof fn lemma_valid_ids(t: NodeV, path: Seq<char>, earlier: Seq<Seq<char>>)
    requires
        distinct(earlier),
        crate::logic::invariants::invariant_errors(t, path, earlier).len() == 0,
    ensures
        distinct(earlier + crate::tree::preorder_ids(t)),
    decreases t, 1int,
{
    let own = crate::logic::invariants::own_errors(t, path, earlier);
    let rest = crate::logic::invariants::forest_errors(t.children, path, earlier.push(t.id));
    assert(own.len() == 0 && rest.len() == 0);
    assert(!earlier.contains(t.id)) by {
        if earlier.contains(t.id) {
            let dup = seq!["duplicate id '"@ + t.id + "' at "@ + path];
            assert(own.len() >= dup.len());
        }
    }
    let e1 = earlier.push(t.id);
    assert forall|i: int, j: int| 0 <= i < j < e1.len() implies #[trigger] e1[i] != #[trigger] e1[j] by {
        if j == earlier.len() {
            assert(e1[i] == earlier[i]);
            if earlier[i] == t.id {
                assert(earlier.contains(t.id));
            }
        } else {
            assert(e1[i] == earlier[i] && e1[j] == earlier[j]);
        }
    }
    lemma_valid_ids_forest(t.children, path, e1);
    assert(earlier + crate::tree::preorder_ids(t) =~= e1 + crate::tree::preorder_ids_forest(t.children));
}

proof fn lemma_valid_ids_forest(s: Seq<NodeV>, path: Seq<char>, earlier: Seq<Seq<char>>)
    requires
        distinct(earlier),
        crate::logic::invariants::forest_errors(s, path, earlier).len() == 0,
    ensures
        distinct(earlier + crate::tree::preorder_ids_forest(s)),
    decreases s, 0int,
{
    if s.len() == 0 {
        assert(earlier + crate::tree::preorder_ids_forest(s) =~= earlier);
    } else {
        let first = crate::logic::invariants::invariant_errors(s[0], path + "/"@ + s[0].id, earlier);
        let e1 = earlier + crate::tree::preorder_ids(s[0]);
        let others = crate::logic::invariants::forest_errors(s.drop_first(), path, e1);
        assert(first.len() == 0 && others.len() == 0);
        assert(decreases_to!(s => s[0]));
        lemma_valid_ids(s[0], path + "/"@ + s[0].id, earlier);
        assert(decreases_to!(s => s.drop_first()));
        lemma_valid_ids_forest(s.drop_first(), path, e1);
        assert(earlier + crate::tree::preorder_ids_forest(s) =~= e1 + crate::tree::preorder_ids_forest(s.drop_first()));
    }
}

/// A tree that passes validation has no two nodes with the same id, so the
/// laws that ask for unique ids hold for every tree the runner accepts.
pub proof fn law_valid_tree_has_unique_ids(t: NodeV)
    requires
        crate::logic::invariants::invariant_errors(t, t.id, Seq::empty()).len() == 0,
    ensures
        ids_unique(t),
{
    lemma_valid_ids(t, t.id, Seq::empty());
    assert(Seq::<Seq<char>>::empty() + crate::tree::preorder_ids(t) =~= crate::tree::preorder_ids(t));
}

// ---------------------------------------------------------------------------
// Decomposition keeps a valid tree valid

spec fn ids_ms(t: NodeV) -> Multiset<Seq<char>> {
    crate::tree::preorder_ids(t).to_multiset()
}

spec fn forest_ids_ms(s: Seq<NodeV>) -> Multiset<Seq<char>> {
    crate::tree::preorder_ids_forest(s).to_multiset()
}

proof fn lemma_ids_ms_unfold(t: NodeV)
    ensures
        ids_ms(t) == Multiset::singleton(t.id).add(forest_ids_ms(t.children)),
{
    vstd::seq_lib::lemma_multiset_commutative(seq![t.id], crate::tree::preorder_ids_forest(t.children));
    assert(seq![t.id].to_multiset() =~= Multiset::singleton(t.id)) by {
        assert(seq![t.id] =~= Seq::<Seq<char>>::empty().push(t.id));
        assert(Seq::<Seq<char>>::empty().to_multiset() =~= Multiset::empty());
    }
}

proof fn lemma_forest_ms_cons(s: Seq<NodeV>)
    requires
        s.len() > 0,
    ensures
        forest_ids_ms(s) == ids_ms(s[0]).add(forest_ids_ms(s.drop_first())),
{
    vstd::seq_lib::lemma_multiset_commutative(crate::tree::preorder_ids(s[0]), crate::tree::preorder_ids_forest(s.drop_first()));
}

proof fn lemma_forest_ms_push(p: Seq<NodeV>, x: NodeV)
    ensures
        forest_ids_ms(p.push(x)) == forest_ids_ms(p).add(ids_ms(x)),
{
    let s = p.push(x);
    crate::tree::lemma_ids_step(s, p.len() as int);
    assert(s.subrange(0, p.len() + 1int) =~= s);
    assert(s.subrange(0, p.len() as int) =~= p);
    assert(s[p.len() as int] == x);
    vstd::seq_lib::lemma_multiset_commutative(crate::tree::preorder_ids_forest(p), crate::tree::preorder_ids(x));
}

proof fn lemma_forest_ms_concat(a: Seq<NodeV>, b: Seq<NodeV>)
    ensures
        forest_ids_ms(a + b) == forest_ids_ms(a).add(forest_ids_ms(b)),
    decreases a.len(),
{
    if a.len() == 0 {
        assert(a + b =~= b);
        assert(forest_ids_ms(a) =~= Multiset::empty());
    } else {
        lemma_forest_ms_concat(a.drop_first(), b);
        assert((a + b)[0] == a[0]);
        assert((a + b).drop_first() =~= a.drop_first() + b);
        lemma_forest_ms_cons(a + b);
        lemma_forest_ms_cons(a);
        assert(forest_ids_ms(a + b) =~= forest_ids_ms(a).add(forest_ids_ms(b)));
    }
}

proof fn lemma_insert_ms(q: Seq<NodeV>, y: NodeV)
    ensures
        forest_ids_ms(insert_by_key(q, y)) == forest_ids_ms(q).add(ids_ms(y)),
    decreases q.len(),
{
    let r = insert_by_key(q, y);
    if q.len() == 0 {
        assert(r =~= seq![y]);
        assert(seq![y] =~= Seq::<NodeV>::empty().push(y));
        lemma_forest_ms_push(Seq::<NodeV>::empty(), y);
        assert(forest_ids_ms(Seq::<NodeV>::empty()) =~= Multiset::empty());
        assert(forest_ids_ms(r) =~= forest_ids_ms(q).add(ids_ms(y)));
    } else if key_lt(y, q[0]) {
        assert(r == seq![y] + q);
        assert(r[0] == y);
        assert(r.drop_first() =~= q);
        lemma_forest_ms_cons(r);
        assert(forest_ids_ms(r) =~= forest_ids_ms(q).add(ids_ms(y)));
    } else {
        let rest = q.drop_first();
        lemma_insert_ms(rest, y);
        let ins = insert_by_key(rest, y);
        assert(r == seq![q[0]] + ins);
        assert(r[0] == q[0]);
        assert(r.drop_first() =~= ins);
        lemma_forest_ms_cons(r);
        lemma_forest_ms_cons(q);
        assert(forest_ids_ms(r) =~= forest_ids_ms(q).add(ids_ms(y)));
    }
}

proof fn lemma_sort_ms(x: Seq<NodeV>)
    ensures
        forest_ids_ms(sort_by_key(x)) == forest_ids_ms(x),
    decreases x.len(),
{
    if x.len() > 0 {
        let p = x.drop_last();
        lemma_sort_ms(p);
        lemma_insert_ms(sort_by_key(p), x.last());
        assert(p.push(x.last()) =~= x);
        lemma_forest_ms_push(p, x.last());
    }
}

proof fn lemma_sorted_tree_ms(t: NodeV)
    ensures
        ids_ms(sorted_tree(t)) == ids_ms(t),
    decreases t, 1int,
{
    lemma_sorted_forest_ms(t.children);
    lemma_sort_ms(sorted_forest(t.children));
    lemma_ids_ms_unfold(t);
    lemma_ids_ms_unfold(sorted_tree(t));
}

proof fn lemma_sorted_forest_ms(s: Seq<NodeV>)
    ensures
        forest_ids_ms(sorted_forest(s)) == forest_ids_ms(s),
    decreases s, 0int,
{
    if s.len() > 0 {
        let p = s.drop_last();
        lemma_sorted_forest_ms(p);
        assert(decreases_to!(s => s.last()));
        lemma_sorted_tree_ms(s.last());
        lemma_forest_ms_push(sorted_forest(p), sorted_tree(s.last()));
        assert(p.push(s.last()) =~= s);
        lemma_forest_ms_push(p, s.last());
    }
}

proof fn lemma_append_ms(t: NodeV, id: Seq<char>, kids: Seq<NodeV>)
    ensures
        ids_ms(crate::step::append_first(t, id, kids)) == (if find_first(t, id) is Some {
            ids_ms(t).add(forest_ids_ms(kids))
        } else {
            ids_ms(t)
        }),
    decreases t, 1int,
{
    let a = crate::step::append_first(t, id, kids);
    lemma_ids_ms_unfold(t);
    lemma_ids_ms_unfold(a);
    if t.id == id {
        lemma_forest_ms_concat(t.children, kids);
        assert(ids_ms(a) =~= ids_ms(t).add(forest_ids_ms(kids)));
    } else {
        lemma_append_ms_forest(t.children, id, kids);
        if find_first(t, id) is Some {
            assert(ids_ms(a) =~= ids_ms(t).add(forest_ids_ms(kids)));
        }
    }
}

proof fn lemma_append_ms_forest(s: Seq<NodeV>, id: Seq<char>, kids: Seq<NodeV>)
    ensures
        forest_ids_ms(crate::step::append_first_forest(s, id, kids)) == (if find_first_forest(s, id) is Some {
            forest_ids_ms(s).add(forest_ids_ms(kids))
        } else {
            forest_ids_ms(s)
        }),
    decreases s, 0int,
{
    if s.len() > 0 {
        let r = crate::step::append_first_forest(s, id, kids);
        let rest = s.drop_first();
        lemma_forest_ms_cons(s);
        if find_first(s[0], id) is Some {
            assert(decreases_to!(s => s[0]));
            lemma_append_ms(s[0], id, kids);
            let a0 = crate::step::append_first(s[0], id, kids);
            assert(r == seq![a0] + rest);
            assert(r[0] == a0);
            assert(r.drop_first() =~= rest);
            lemma_forest_ms_cons(r);
            assert(forest_ids_ms(r) =~= forest_ids_ms(s).add(forest_ids_ms(kids)));
        } else {
            assert(decreases_to!(s => rest));
            lemma_append_ms_forest(rest, id, kids);
            let ar = crate::step::append_first_forest(rest, id, kids);
            assert(r == seq![s[0]] + ar);
            assert(r[0] == s[0]);
            assert(r.drop_first() =~= ar);
            lemma_forest_ms_cons(r);
            if find_first_forest(s, id) is Some {
                assert(forest_ids_ms(r) =~= forest_ids_ms(s).add(forest_ids_ms(kids)));
            }
        }
    }
}

/// The ids of a forest of leaves are the leaves' own ids, in order.
proof fn lemma_leaf_forest_ids(s: Seq<NodeV>)
    requires
        forall|i: int| 0 <= i < s.len() ==> (#[trigger] s[i]).children.len() == 0,
    ensures
        crate::tree::preorder_ids_forest(s).len() == s.len(),
        forall|i: int| 0 <= i < s.len() ==> #[trigger] crate::tree::preorder_ids_forest(s)[i] == s[i].id,
    decreases s.len(),
{
    if s.len() > 0 {
        let rest = s.drop_first();
        assert forall|i: int| 0 <= i < rest.len() implies (#[trigger] rest[i]).children.len() == 0 by {
            assert(rest[i] == s[i + 1]);
        }
        lemma_leaf_forest_ids(rest);
        assert(crate::tree::preorder_ids_forest(s[0].children) =~= Seq::<Seq<char>>::empty());
        assert(crate::tree::preorder_ids(s[0]) =~= seq![s[0].id]);
        assert forall|i: int| 0 <= i < s.len() implies #[trigger] crate::tree::preorder_ids_forest(s)[i] == s[i].id by {
            if i > 0 {
                assert(s[i] == rest[i - 1]);
            }
        }
    }
}

/// What validation asks of every node besides unique ids: a positive
/// maximum, attempts within it, and, when `sorted`, children in order.
pub open spec fn nodes_ok(t: NodeV, sorted: bool) -> bool
    decreases t, 1int,
{
    &&& t.max_attempts > 0
    &&& t.attempts <= t.max_attempts
    &&& (sorted ==> crate::logic::invariants::children_sorted(t.children))
    &&& nodes_ok_forest(t.children, sorted)
}

pub open spec fn nodes_ok_forest(s: Seq<NodeV>, sorted: bool) -> bool
    decreases s, 0int,
{
    s.len() == 0 || (nodes_ok(s[0], sorted) && nodes_ok_forest(s.drop_first(), sorted))
}

proof fn lemma_nodes_ok_index(s: Seq<NodeV>, sorted: bool)
    ensures
        nodes_ok_forest(s, sorted) <==> forall|i: int| 0 <= i < s.len() ==> nodes_ok(#[trigger] s[i], sorted),
    decreases s.len(),
{
    if s.len() > 0 {
        let rest = s.drop_first();
        lemma_nodes_ok_index(rest, sorted);
        if forall|i: int| 0 <= i < s.len() ==> nodes_ok(#[trigger] s[i], sorted) {
            assert forall|i: int| 0 <= i < rest.len() implies nodes_ok(#[trigger] rest[i], sorted) by {
                assert(rest[i] == s[i + 1]);
            }
        }
        if nodes_ok_forest(s, sorted) {
            assert forall|i: int| 0 <= i < s.len() implies nodes_ok(#[trigger] s[i], sorted) by {
                if i > 0 {
                    assert(s[i] == rest[i - 1]);
                }
            }
        }
    }
}

proof fn lemma_valid_nodes(t: NodeV, path: Seq<char>, earlier: Seq<Seq<char>>)
    requires
        crate::logic::invariants::invariant_errors(t, path, earlier).len() == 0,
    ensures
        nodes_ok(t, false),
    decreases t, 1int,
{
    let own = crate::logic::invariants::own_errors(t, path, earlier);
    let rest = crate::logic::invariants::forest_errors(t.children, path, earlier.push(t.id));
    assert(own.len() == 0 && rest.len() == 0);
    lemma_valid_nodes_forest(t.children, path, earlier.push(t.id));
}

proof fn lemma_valid_nodes_forest(s: Seq<NodeV>, path: Seq<char>, earlier: Seq<Seq<char>>)
    requires
        crate::logic::invariants::forest_errors(s, path, earlier).len() == 0,
    ensures
        nodes_ok_forest(s, false),
    decreases s, 0int,
{
    if s.len() > 0 {
        let first = crate::logic::invariants::invariant_errors(s[0], path + "/"@ + s[0].id, earlier);
        let e1 = earlier + crate::tree::preorder_ids(s[0]);
        let others = crate::logic::invariants::forest_errors(s.drop_first(), path, e1);
        assert(first.len() == 0 && others.len() == 0);
        assert(decreases_to!(s => s[0]));
        lemma_valid_nodes(s[0], path + "/"@ + s[0].id, earlier);
        assert(decreases_to!(s => s.drop_first()));
        lemma_valid_nodes_forest(s.drop_first(), path, e1);
    }
}

proof fn lemma_append_nodes_ok(t: NodeV, id: Seq<char>, kids: Seq<NodeV>)
    requires
        nodes_ok(t, false),
        nodes_ok_forest(kids, false),
    ensures
        nodes_ok(crate::step::append_first(t, id, kids), false),
    decreases t, 1int,
{
    let a = crate::step::append_first(t, id, kids);
    lemma_nodes_ok_index(t.children, false);
    lemma_nodes_ok_index(kids, false);
    if t.id == id {
        let c = t.children + kids;
        assert forall|i: int| 0 <= i < c.len() implies nodes_ok(#[trigger] c[i], false) by {
            if i < t.children.len() {
                assert(c[i] == t.children[i]);
            } else {
                assert(c[i] == kids[i - t.children.len()]);
            }
        }
        lemma_nodes_ok_index(c, false);
    } else {
        lemma_append_nodes_ok_forest(t.children, id, kids);
    }
}

proof fn lemma_append_nodes_ok_forest(s: Seq<NodeV>, id: Seq<char>, kids: Seq<NodeV>)
    requires
        nodes_ok_forest(s, false),
        nodes_ok_forest(kids, false),
    ensures
        nodes_ok_forest(crate::step::append_first_forest(s, id, kids), false),
    decreases s, 0int,
{
    if s.len() > 0 {
        let r = crate::step::append_first_forest(s, id, kids);
        let rest = s.drop_first();
        if find_first(s[0], id) is Some {
            assert(decreases_to!(s => s[0]));
            lemma_append_nodes_ok(s[0], id, kids);
            let a0 = crate::step::append_first(s[0], id, kids);
            assert(r == seq![a0] + rest);
            assert(r[0] == a0);
            assert(r.drop_first() =~= rest);
        } else {
            assert(decreases_to!(s => rest));
            lemma_append_nodes_ok_forest(rest, id, kids);
            let ar = crate::step::append_first_forest(rest, id, kids);
            assert(r == seq![s[0]] + ar);
            assert(r[0] == s[0]);
            assert(r.drop_first() =~= ar);
        }
    }
}

proof fn lemma_sorted_nodes_ok(t: NodeV)
    requires
        nodes_ok(t, false),
    ensures
        nodes_ok(sorted_tree(t), true),
    decreases t, 1int,
{
    let ch = t.children;
    let x = sorted_forest(ch);
    let y = sort_by_key(x);
    lemma_nodes_ok_index(ch, false);
    lemma_sorted_nodes_ok_forest(ch);
    crate::tree::lemma_sorted_forest(ch);
    lemma_sort_key_members(x);
    lemma_sort_key_sorted(x);
    assert forall|j: int| 0 <= j < y.len() implies nodes_ok(#[trigger] y[j], true) by {
        assert(y.contains(y[j]));
        assert(x.contains(y[j]));
        let i = choose|i: int| 0 <= i < x.len() && x[i] == y[j];
        assert(x[i] == sorted_tree(ch[i]));
    }
    lemma_nodes_ok_index(y, true);
    assert forall|i: int| 0 <= i < y.len() - 1 implies !key_lt(#[trigger] y[i + 1], y[i]) by {}
}

proof fn lemma_sorted_nodes_ok_forest(s: Seq<NodeV>)
    ensures
        forall|i: int| 0 <= i < s.len() && nodes_ok(s[i], false) ==> nodes_ok(sorted_tree(#[trigger] s[i]), true),
    decreases s, 0int,
{
    if s.len() > 0 {
        let p = s.drop_last();
        lemma_sorted_nodes_ok_forest(p);
        assert(decreases_to!(s => s.last()));
        if nodes_ok(s.last(), false) {
            lemma_sorted_nodes_ok(s.last());
        }
        assert forall|i: int| 0 <= i < s.len() && nodes_ok(s[i], false) implies nodes_ok(sorted_tree(#[trigger] s[i]), true) by {
            if i < p.len() {
                assert(s[i] == p[i]);
            } else {
                assert(s[i] == s.last());
            }
        }
    }
}

proof fn lemma_ok_is_valid(t: NodeV, path: Seq<char>, earlier: Seq<Seq<char>>)
    requires
        distinct(earlier + crate::tree::preorder_ids(t)),
        nodes_ok(t, true),
    ensures
        crate::logic::invariants::invariant_errors(t, path, earlier).len() == 0,
    decreases t, 1int,
{
    let all = earlier + crate::tree::preorder_ids(t);
    assert(all[earlier.len() as int] == t.id);
    if earlier.contains(t.id) {
        let k = choose|k: int| 0 <= k < earlier.len() && earlier[k] == t.id;
        assert(all[k] == t.id);
    }
    let e1 = earlier.push(t.id);
    assert(all =~= e1 + crate::tree::preorder_ids_forest(t.children));
    lemma_ok_is_valid_forest(t.children, path, e1);
    let own = crate::logic::invariants::own_errors(t, path, earlier);
    assert(own =~= Seq::<Seq<char>>::empty());
}

proof fn lemma_ok_is_valid_forest(s: Seq<NodeV>, path: Seq<char>, earlier: Seq<Seq<char>>)
    requires
        distinct(earlier + crate::tree::preorder_ids_forest(s)),
        nodes_ok_forest(s, true),
    ensures
        crate::logic::invariants::forest_errors(s, path, earlier).len() == 0,
    decreases s, 0int,
{
    if s.len() > 0 {
        let all = earlier + crate::tree::preorder_ids_forest(s);
        let e1 = earlier + crate::tree::preorder_ids(s[0]);
        let rest_ids = crate::tree::preorder_ids_forest(s.drop_first());
        assert(all =~= e1 + rest_ids);
        assert forall|i: int, j: int| 0 <= i < j < e1.len() implies #[trigger] e1[i] != #[trigger] e1[j] by {
            assert(e1[i] == all[i] && e1[j] == all[j]);
        }
        assert(decreases_to!(s => s[0]));
        lemma_ok_is_valid(s[0], path + "/"@ + s[0].id, earlier);
        assert(decreases_to!(s => s.drop_first()));
        lemma_ok_is_valid_forest(s.drop_first(), path, e1);
    }
}

/// Decomposition keeps a valid tree valid: when the tree passes validation
/// and the node to decompose is in it, the tree with the new children
/// (fresh ids, no attempts, the default maximum) passes validation too,
/// provided that default maximum is positive.
pub proof fn law_decomposition_keeps_tree_valid(
    prev: NodeV,
    id: Seq<char>,
    cs: Seq<crate::logic::types::TreeChildSpec>,
    max_attempts: u32,
)
    requires
        crate::logic::invariants::invariant_errors(prev, prev.id, Seq::empty()).len() == 0,
        find_first(prev, id) is Some,
        max_attempts > 0,
    ensures
        ({
            let next = crate::step::decomposed_tree(prev, id, cs, max_attempts);
            crate::logic::invariants::invariant_errors(next, next.id, Seq::empty()).len() == 0
        }),
{
    let used = crate::tree::preorder_ids(prev);
    let alloc = allocated_ids(id, used, cs.len());
    let kids = crate::step::new_children(id, used, cs, max_attempts);
    let a = crate::step::append_first(prev, id, kids);
    let n = sorted_tree(a);
    assert(crate::step::decomposed_tree(prev, id, cs, max_attempts) == n);
    // Every node meets the per-node conditions.
    law_allocated_ids_are_fresh(id, used, cs.len());
    assert forall|i: int| 0 <= i < kids.len() implies nodes_ok(#[trigger] kids[i], false) && kids[i].children.len() == 0
        && kids[i].id == alloc[i] by {
        assert(kids[i] == crate::step::new_child(cs[i], alloc[i], i, max_attempts));
        assert(nodes_ok_forest(kids[i].children, false));
    }
    lemma_nodes_ok_index(kids, false);
    lemma_valid_nodes(prev, prev.id, Seq::empty());
    lemma_append_nodes_ok(prev, id, kids);
    lemma_sorted_nodes_ok(a);
    // The ids are those of the tree before and the new ones, all different.
    law_valid_tree_has_unique_ids(prev);
    lemma_leaf_forest_ids(kids);
    assert(crate::tree::preorder_ids_forest(kids) =~= alloc);
    lemma_append_ms(prev, id, kids);
    lemma_sorted_tree_ms(a);
    let l = used + alloc;
    vstd::seq_lib::lemma_multiset_commutative(used, alloc);
    assert(ids_ms(n) =~= l.to_multiset());
    assert(used.no_duplicates()) by {
        assert forall|i: int, j: int| 0 <= i < used.len() && 0 <= j < used.len() && i != j implies used[i] != used[j] by {
            if i < j {
                assert(used[i] != used[j]);
            } else {
                assert(used[j] != used[i]);
            }
        }
    }
    assert(alloc.no_duplicates()) by {
        assert forall|i: int, j: int| 0 <= i < alloc.len() && 0 <= j < alloc.len() && i != j implies alloc[i] != alloc[j] by {
            if i < j {
                assert(alloc[i] != alloc[j]);
            } else {
                assert(alloc[j] != alloc[i]);
            }
        }
    }
    assert forall|i: int, j: int| 0 <= i < used.len() && 0 <= j < alloc.len() implies used[i] != alloc[j] by {
        assert(!used.contains(alloc[j]));
    }
    vstd::seq_lib::lemma_no_dup_in_concat(used, alloc);
    l.lemma_multiset_has_no_duplicates();
    let ids = crate::tree::preorder_ids(n);
    ids.lemma_multiset_has_no_duplicates_conv();
    assert(distinct(Seq::<Seq<char>>::empty() + ids)) by {
        assert(Seq::<Seq<char>>::empty() + ids =~= ids);
        assert forall|i: int, j: int| 0 <= i < j < ids.len() implies #[trigger] ids[i] != #[trigger] ids[j] by {}
    }
    lemma_ok_is_valid(n, n.id, Seq::empty());
}

// ---------------------------------------------------------------------------
// Sorting children: a stable permutation at every node

/// Whether `n` has the sibling key `(order, id)`.
pub open spec fn has_key(n: NodeV, order: i64, id: Seq<char>) -> bool {
    n.order == order && n.id == id
}

/// The trees of `s` whose key is `(order, id)`, in their order in `s`.
pub open spec fn with_key(s: Seq<NodeV>, order: i64, id: Seq<char>) -> Seq<NodeV>
    decreases s.len(),
{
    if s.len() == 0 {
        s
    } else {
        (if has_key(s[0], order, id) {
            seq![s[0]]
        } else {
            Seq::empty()
        }) + with_key(s.drop_first(), order, id)
    }
}

/// Whether the children of every node of `t` are in `(order, id)` order.
pub open spec fn sorted_everywhere(t: NodeV) -> bool
    decreases t, 1int,
{
    crate::logic::invariants::children_sorted(t.children) && sorted_everywhere_forest(t.children)
}

pub open spec fn sorted_everywhere_forest(s: Seq<NodeV>) -> bool
    decreases s, 0int,
{
    s.len() == 0 || (sorted_everywhere(s[0]) && sorted_everywhere_forest(s.drop_first()))
}

proof fn lemma_with_key_cons(x: NodeV, s: Seq<NodeV>, order: i64, id: Seq<char>)
    ensures
        with_key(seq![x] + s, order, id) == (if has_key(x, order, id) {
            seq![x]
        } else {
            Seq::<NodeV>::empty()
        }) + with_key(s, order, id),
{
    assert((seq![x] + s)[0] == x);
    assert((seq![x] + s).drop_first() =~= s);
}

proof fn lemma_with_key_concat(a: Seq<NodeV>, b: Seq<NodeV>, order: i64, id: Seq<char>)
    ensures
        with_key(a + b, order, id) == with_key(a, order, id) + with_key(b, order, id),
    decreases a.len(),
{
    if a.len() == 0 {
        assert(a + b =~= b);
        assert(with_key(a, order, id) + with_key(b, order, id) =~= with_key(b, order, id));
    } else {
        lemma_with_key_concat(a.drop_first(), b, order, id);
        assert((a + b)[0] == a[0]);
        assert((a + b).drop_first() =~= a.drop_first() + b);
        let h = if has_key(a[0], order, id) { seq![a[0]] } else { Seq::<NodeV>::empty() };
        assert(h + (with_key(a.drop_first(), order, id) + with_key(b, order, id)) =~= (h + with_key(
            a.drop_first(),
            order,
            id,
        )) + with_key(b, order, id));
    }
}

/// A tree whose key is `(order, id)` is never after one that sorts above it.
proof fn lemma_above_key(y: NodeV, q: Seq<NodeV>, order: i64, id: Seq<char>)
    requires
        key_sorted(q),
        q.len() > 0,
        key_lt(y, q[0]),
        has_key(y, order, id),
    ensures
        with_key(q, order, id).len() == 0,
    decreases q.len(),
{
    let rest = q.drop_first();
    lemma_seq_lt_irrefl(y.id);
    if has_key(q[0], order, id) {
        assert(key_lt(y, q[0]) == key_lt(y, y));
    }
    if rest.len() > 0 {
        assert(rest[0] == q[1]);
        assert(!key_lt(q[1], q[0]));
        lemma_key_lt_order(q[0], q[1], y);
        assert forall|i: int, j: int| 0 <= i < j < rest.len() implies !key_lt(#[trigger] rest[j], #[trigger] rest[i]) by {
            assert(rest[i] == q[i + 1] && rest[j] == q[j + 1]);
        }
        lemma_above_key(y, rest, order, id);
    }
    lemma_with_key_cons(q[0], rest, order, id);
    assert(q =~= seq![q[0]] + rest);
}

proof fn lemma_insert_with_key(q: Seq<NodeV>, y: NodeV, order: i64, id: Seq<char>)
    requires
        key_sorted(q),
    ensures
        with_key(insert_by_key(q, y), order, id) == with_key(q, order, id) + (if has_key(y, order, id) {
            seq![y]
        } else {
            Seq::<NodeV>::empty()
        }),
    decreases q.len(),
{
    let opt = if has_key(y, order, id) { seq![y] } else { Seq::<NodeV>::empty() };
    let r = insert_by_key(q, y);
    if q.len() == 0 {
        assert(r =~= seq![y] + q);
        lemma_with_key_cons(y, q, order, id);
        assert(with_key(r, order, id) =~= with_key(q, order, id) + opt);
    } else if key_lt(y, q[0]) {
        assert(r == seq![y] + q);
        lemma_with_key_cons(y, q, order, id);
        if has_key(y, order, id) {
            lemma_above_key(y, q, order, id);
            assert(with_key(q, order, id) =~= Seq::<NodeV>::empty());
        }
        assert(with_key(r, order, id) =~= with_key(q, order, id) + opt);
    } else {
        let rest = q.drop_first();
        assert forall|i: int, j: int| 0 <= i < j < rest.len() implies !key_lt(#[trigger] rest[j], #[trigger] rest[i]) by {
            assert(rest[i] == q[i + 1] && rest[j] == q[j + 1]);
        }
        lemma_insert_with_key(rest, y, order, id);
        let ins = insert_by_key(rest, y);
        assert(r == seq![q[0]] + ins);
        lemma_with_key_cons(q[0], ins, order, id);
        lemma_with_key_cons(q[0], rest, order, id);
        assert(q =~= seq![q[0]] + rest);
        let h = if has_key(q[0], order, id) { seq![q[0]] } else { Seq::<NodeV>::empty() };
        assert(h + (with_key(rest, order, id) + opt) =~= (h + with_key(rest, order, id)) + opt);
    }
}

proof fn lemma_sort_with_key(x: Seq<NodeV>, order: i64, id: Seq<char>)
    ensures
        with_key(sort_by_key(x), order, id) == with_key(x, order, id),
    decreases x.len(),
{
    if x.len() > 0 {
        let p = x.drop_last();
        lemma_sort_with_key(p, order, id);
        lemma_sort_key_sorted(p);
        lemma_insert_with_key(sort_by_key(p), x.last(), order, id);
        assert(x =~= p + seq![x.last()]);
        lemma_with_key_concat(p, seq![x.last()], order, id);
        lemma_with_key_cons(x.last(), Seq::<NodeV>::empty(), order, id);
        assert(seq![x.last()] + Seq::<NodeV>::empty() =~= seq![x.last()]);
        assert(with_key(Seq::<NodeV>::empty(), order, id) =~= Seq::<NodeV>::empty());
    }
}

proof fn lemma_sorted_everywhere_index(s: Seq<NodeV>)
    ensures
        sorted_everywhere_forest(s) <==> forall|i: int| 0 <= i < s.len() ==> sorted_everywhere(#[trigger] s[i]),
    decreases s.len(),
{
    if s.len() > 0 {
        let rest = s.drop_first();
        lemma_sorted_everywhere_index(rest);
        if forall|i: int| 0 <= i < s.len() ==> sorted_everywhere(#[trigger] s[i]) {
            assert forall|i: int| 0 <= i < rest.len() implies sorted_everywhere(#[trigger] rest[i]) by {
                assert(rest[i] == s[i + 1]);
            }
        }
        if sorted_everywhere_forest(s) {
            assert forall|i: int| 0 <= i < s.len() implies sorted_everywhere(#[trigger] s[i]) by {
                if i > 0 {
                    assert(s[i] == rest[i - 1]);
                }
            }
        }
    }
}

proof fn lemma_sorted_everywhere(t: NodeV)
    ensures
        sorted_everywhere(sorted_tree(t)),
    decreases t, 1int,
{
    let ch = t.children;
    let x = sorted_forest(ch);
    let y = sort_by_key(x);
    lemma_sorted_everywhere_forest(ch);
    crate::tree::lemma_sorted_forest(ch);
    lemma_sort_key_members(x);
    lemma_sort_key_sorted(x);
    assert forall|j: int| 0 <= j < y.len() implies sorted_everywhere(#[trigger] y[j]) by {
        assert(y.contains(y[j]));
        assert(x.contains(y[j]));
        let i = choose|i: int| 0 <= i < x.len() && x[i] == y[j];
        assert(x[i] == sorted_tree(ch[i]));
    }
    lemma_sorted_everywhere_index(y);
    assert forall|i: int| 0 <= i < y.len() - 1 implies !key_lt(#[trigger] y[i + 1], y[i]) by {}
}

proof fn lemma_sorted_everywhere_forest(s: Seq<NodeV>)
    ensures
        forall|i: int| 0 <= i < s.len() ==> sorted_everywhere(sorted_tree(#[trigger] s[i])),
    decreases s, 0int,
{
    if s.len() > 0 {
        let p = s.drop_last();
        lemma_sorted_everywhere_forest(p);
        assert(decreases_to!(s => s.last()));
        lemma_sorted_everywhere(s.last());
        assert forall|i: int| 0 <= i < s.len() implies sorted_everywhere(sorted_tree(#[trigger] s[i])) by {
            if i < p.len() {
                assert(s[i] == p[i]);
            }
        }
    }
}

/// Sorting the children of every node (`Node::sort_children`, whose result
/// is `sorted_tree`) keeps every field of the node but `children`; its
/// children are its old children, each sorted in turn, rearranged so that
/// they ascend by `(order, id)`, with the children of each key in their old
/// order (a stable permutation: for every key the children with that key are
/// the same, in the same order); and afterwards the children of every node
/// of the tree are in `(order, id)` order.
pub proof fn law_sort_children_is_stable(t: NodeV)
    ensures
        sorted_tree(t) == (NodeV { children: sorted_tree(t).children, ..t }),
        sorted_forest(t.children).len() == t.children.len(),
        forall|i: int| 0 <= i < t.children.len() ==> #[trigger] sorted_forest(t.children)[i] == sorted_tree(t.children[i]),
        key_sorted(sorted_tree(t).children),
        forall|order: i64, id: Seq<char>| #[trigger] with_key(sorted_tree(t).children, order, id) == with_key(
            sorted_forest(t.children),
            order,
            id,
        ),
        sorted_everywhere(sorted_tree(t)),
{
    crate::tree::lemma_sorted_forest(t.children);
    lemma_sort_key_sorted(sorted_forest(t.children));
    assert forall|order: i64, id: Seq<char>| #[trigger] with_key(sorted_tree(t).children, order, id) == with_key(
        sorted_forest(t.children),
        order,
        id,
    ) by {
        lemma_sort_with_key(sorted_forest(t.children), order, id);
    }
    lemma_sorted_everywhere(t);
}

/// A tree whose nodes meet every check of validation but the order of
/// children (unique ids, a positive maximum, attempts within it) passes
/// validation once its children are sorted: sorting leaves no
/// "children must be sorted" error, and adds no other.
pub proof fn law_sorted_tree_passes_validation(t: NodeV)
    requires
        ids_unique(t),
        nodes_ok(t, false),
    ensures
        crate::logic::invariants::invariant_errors(sorted_tree(t), sorted_tree(t).id, Seq::empty()).len() == 0,
{
    let n = sorted_tree(t);
    lemma_sorted_nodes_ok(t);
    lemma_sorted_tree_ms(t);
    let used = crate::tree::preorder_ids(t);
    assert(used.no_duplicates()) by {
        assert forall|i: int, j: int| 0 <= i < used.len() && 0 <= j < used.len() && i != j implies used[i] != used[j] by {
            if i < j {
                assert(used[i] != used[j]);
            } else {
                assert(used[j] != used[i]);
            }
        }
    }
    used.lemma_multiset_has_no_duplicates();
    let ids = crate::tree::preorder_ids(n);
    ids.lemma_multiset_has_no_duplicates_conv();
    assert(distinct(Seq::<Seq<char>>::empty() + ids)) by {
        assert(Seq::<Seq<char>>::empty() + ids =~= ids);
        assert forall|i: int, j: int| 0 <= i < j < ids.len() implies #[trigger] ids[i] != #[trigger] ids[j] by {}
    }
    lemma_ok_is_valid(n, n.id, Seq::empty());
}

// ---------------------------------------------------------------------------
// The goal id round trip over frontmatter of `key: value` lines

proof fn lemma_all_skippable(ls: Seq<Seq<char>>)
    requires
        forall|i: int| 0 <= i < ls.len() ==> skippable_line(#[trigger] ls[i]),
    ensures
        skippable_until_id(ls),
    decreases ls.len(),
{
    if ls.len() > 0 {
        let rest = ls.drop_first();
        assert forall|i: int| 0 <= i < rest.len() implies skippable_line(#[trigger] rest[i]) by {
            assert(rest[i] == ls[i + 1]);
        }
        lemma_all_skippable(rest);
        assert(skippable_line(ls[0]));
    }
}

/// Writing a run id into a goal document and reading it back gives that id
/// whenever every line of its frontmatter (if it has one) is blank, a
/// comment, or contains `:`.
pub proof fn law_goal_id_round_trip_over_keyed_frontmatter(contents: Seq<char>, id: Seq<char>)
    requires
        id_error(id) is None,
        frontmatter_parts(contents) matches Some((fm, _)) ==> forall|i: int|
            0 <= i < lines_of(fm).len() ==> skippable_line(#[trigger] lines_of(fm)[i]),
    ensures
        frontmatter_id(with_goal_id(contents, id)) == Some(id),
{
    if let Some((fm, _)) = frontmatter_parts(contents) {
        lemma_all_skippable(lines_of(fm));
    }
    law_goal_id_round_trip(contents, id);
}

// ---------------------------------------------------------------------------
// A sorted tree has no ordering errors

/// The invariant errors of `t` at `path` that are not about the order of
/// children: every other check of validation, reported as it reports them.
pub open spec fn errors_but_order(t: NodeV, path: Seq<char>, earlier: Seq<Seq<char>>) -> Seq<Seq<char>>
    decreases t, 1int,
{
    crate::logic::invariants::own_errors_but_order(t, path, earlier) + errors_but_order_forest(
        t.children,
        path,
        earlier.push(t.id),
    )
}

pub open spec fn errors_but_order_forest(s: Seq<NodeV>, path: Seq<char>, earlier: Seq<Seq<char>>) -> Seq<Seq<char>>
    decreases s, 0int,
{
    if s.len() == 0 {
        Seq::empty()
    } else {
        errors_but_order(s[0], path + "/"@ + s[0].id, earlier) + errors_but_order_forest(
            s.drop_first(),
            path,
            earlier + crate::tree::preorder_ids(s[0]),
        )
    }
}

proof fn lemma_sorted_errors(t: NodeV, path: Seq<char>, earlier: Seq<Seq<char>>)
    requires
        sorted_everywhere(t),
    ensures
        crate::logic::invariants::invariant_errors(t, path, earlier) == errors_but_order(t, path, earlier),
    decreases t, 1int,
{
    lemma_sorted_errors_forest(t.children, path, earlier.push(t.id));
    let base = crate::logic::invariants::own_errors_but_order(t, path, earlier);
    assert(crate::logic::invariants::own_errors(t, path, earlier) =~= base);
}

proof fn lemma_sorted_errors_forest(s: Seq<NodeV>, path: Seq<char>, earlier: Seq<Seq<char>>)
    requires
        sorted_everywhere_forest(s),
    ensures
        crate::logic::invariants::forest_errors(s, path, earlier) == errors_but_order_forest(s, path, earlier),
    decreases s, 0int,
{
    if s.len() > 0 {
        assert(decreases_to!(s => s[0]));
        lemma_sorted_errors(s[0], path + "/"@ + s[0].id, earlier);
        assert(decreases_to!(s => s.drop_first()));
        lemma_sorted_errors_forest(s.drop_first(), path, earlier + crate::tree::preorder_ids(s[0]));
    }
}

/// After sorting (`Node::sort_children`), validation reports no
/// "children must be sorted" error anywhere, for every tree: what it reports
/// is exactly the errors of its other checks.
pub proof fn law_sorted_tree_has_no_order_errors(t: NodeV, path: Seq<char>, earlier: Seq<Seq<char>>)
    ensures
        crate::logic::invariants::invariant_errors(sorted_tree(t), path, earlier) == errors_but_order(
            sorted_tree(t),
            path,
            earlier,
        ),
{
    lemma_sorted_everywhere(t);
    lemma_sorted_errors(sorted_tree(t), path, earlier);
}

// ---------------------------------------------------------------------------
// Eval outcomes

/// Whether a judged check passed, read off its own `passed` field.
pub open spec fn check_outcome_passed(c: crate::eval::judge::CheckOutcome) -> bool {
    match c {
        crate::eval::judge::CheckOutcome::FileExists { passed, .. } => passed,
        crate::eval::judge::CheckOutcome::CommandSucceeds { passed, .. } => passed,
        crate::eval::judge::CheckOutcome::RunnerCompleted { passed, .. } => passed,
    }
}

/// A runner that exited 0 succeeds exactly when every judged check passed:
/// one failing check anywhere makes the case fail. Exit code 3 is stuck,
/// and any other code, or none, is an error, whatever the checks say.
pub proof fn law_outcome_needs_every_check(code: Option<i32>, checks: Seq<crate::eval::judge::CheckOutcome>)
    ensures
        code == Some(0i32) ==> (crate::eval::outcome::outcome_spec(code, checks) == crate::eval::outcome::Outcome::Success
            <==> forall|i: int| 0 <= i < checks.len() ==> check_outcome_passed(#[trigger] checks[i])),
        code == Some(0i32) ==> (crate::eval::outcome::outcome_spec(code, checks) == crate::eval::outcome::Outcome::Fail
            <==> exists|i: int| 0 <= i < checks.len() && !check_outcome_passed(#[trigger] checks[i])),
        code == Some(3i32) ==> crate::eval::outcome::outcome_spec(code, checks) == crate::eval::outcome::Outcome::Stuck,
        code != Some(0i32) && code != Some(3i32) ==> crate::eval::outcome::outcome_spec(code, checks)
            == crate::eval::outcome::Outcome::Error,
{
    assert forall|i: int| 0 <= i < checks.len() implies check_outcome_passed(#[trigger] checks[i])
        == crate::eval::outcome::passed_spec(checks[i]) by {}
}

/// Each run's outcome is counted under its own kind: no runs count nothing,
/// and one more run raises exactly the count of its outcome (an error or a
/// missing outcome counts as an error) and leaves the other counts alone.
pub proof fn law_each_outcome_counted_under_its_kind(
    os: Seq<Option<crate::eval::outcome::Outcome>>,
    x: Option<crate::eval::outcome::Outcome>,
)
    ensures
        crate::eval::report::outcome_counts(Seq::empty()) == (0nat, 0nat, 0nat, 0nat),
        ({
            let (s, f, st, e) = crate::eval::report::outcome_counts(os);
            crate::eval::report::outcome_counts(os.push(x)) == match x {
                Some(crate::eval::outcome::Outcome::Success) => (s + 1, f, st, e),
                Some(crate::eval::outcome::Outcome::Fail) => (s, f + 1, st, e),
                Some(crate::eval::outcome::Outcome::Stuck) => (s, f, st + 1, e),
                Some(crate::eval::outcome::Outcome::Error) => (s, f, st, e + 1),
                None => (s, f, st, e + 1),
            }
        }),
{
    assert(os.push(x).drop_last() =~= os);
    assert(os.push(x).last() == x);
}

// ---------------------------------------------------------------------------
// A clean worktree

/// The worktree counts as clean exactly when every changed path, whatever
/// its status code (untracked `??` included), begins with one of the allowed
/// prefixes; a path that none begins with makes it unclean and is listed.
pub proof fn law_clean_means_every_path_allowed(es: Seq<(Seq<char>, Seq<char>)>, prefixes: Seq<Seq<char>>)
    ensures
        !crate::io::git::has_disallowed(es, prefixes) <==> forall|i: int|
            0 <= i < es.len() ==> exists|j: int|
                0 <= j < prefixes.len() && prefixes[j].len() <= (#[trigger] es[i]).1.len()
                    && es[i].1.subrange(0, prefixes[j].len() as int) == prefixes[j],
        crate::io::git::has_disallowed(es, prefixes) <==> crate::io::git::disallowed_text(es, prefixes).len() > 0,
{
    lemma_disallowed_text_empty(es, prefixes);
    if !crate::io::git::has_disallowed(es, prefixes) {
        assert forall|i: int| 0 <= i < es.len() implies exists|j: int|
            0 <= j < prefixes.len() && prefixes[j].len() <= (#[trigger] es[i]).1.len()
                && es[i].1.subrange(0, prefixes[j].len() as int) == prefixes[j] by {
            assert(crate::io::git::allowed_path(es[i].1, prefixes));
            let j = choose|j: int| 0 <= j < prefixes.len() && crate::scan::starts_with(es[i].1, #[trigger] prefixes[j]);
            assert(es[i].1.subrange(0, prefixes[j].len() as int) =~= es[i].1.take(prefixes[j].len() as int));
        }
    }
    if forall|i: int| 0 <= i < es.len() ==> exists|j: int|
        0 <= j < prefixes.len() && prefixes[j].len() <= (#[trigger] es[i]).1.len()
            && es[i].1.subrange(0, prefixes[j].len() as int) == prefixes[j] {
        assert forall|i: int| 0 <= i < es.len() implies crate::io::git::allowed_path(#[trigger] es[i].1, prefixes) by {
            let j = choose|j: int| 0 <= j < prefixes.len() && prefixes[j].len() <= es[i].1.len()
                && es[i].1.subrange(0, prefixes[j].len() as int) == prefixes[j];
            assert(es[i].1.subrange(0, prefixes[j].len() as int) =~= es[i].1.take(prefixes[j].len() as int));
            assert(crate::scan::starts_with(es[i].1, prefixes[j]));
        }
    }
}

proof fn lemma_disallowed_text_empty(es: Seq<(Seq<char>, Seq<char>)>, prefixes: Seq<Seq<char>>)
    ensures
        crate::io::git::has_disallowed(es, prefixes) <==> crate::io::git::disallowed_text(es, prefixes).len() > 0,
    decreases es.len(),
{
    if es.len() > 0 {
        let p = es.drop_last();
        lemma_disallowed_text_empty(p, prefixes);
        if crate::io::git::has_disallowed(p, prefixes) {
            let i = choose|i: int| 0 <= i < p.len() && !crate::io::git::allowed_path(#[trigger] p[i].1, prefixes);
            assert(es[i] == p[i]);
        }
        if crate::io::git::has_disallowed(es, prefixes) {
            let i = choose|i: int| 0 <= i < es.len() && !crate::io::git::allowed_path(#[trigger] es[i].1, prefixes);
            if i < p.len() {
                assert(p[i] == es[i]);
            }
        }
        assert(es.last() == es[es.len() - 1]);
    }
}

// ---------------------------------------------------------------------------
// Selection is the first unpassed leaf, stuck or not

/// The leaves of `t` (its nodes without children), in depth-first order.
pub open spec fn dfs_leaves(t: NodeV) -> Seq<NodeV>
    decreases t, 1int,
{
    if t.children.len() == 0 {
        seq![t]
    } else {
        dfs_leaves_forest(t.children)
    }
}

pub open spec fn dfs_leaves_forest(s: Seq<NodeV>) -> Seq<NodeV>
    decreases s, 0int,
{
    if s.len() == 0 {
        Seq::empty()
    } else {
        dfs_leaves(s[0]) + dfs_leaves_forest(s.drop_first())
    }
}

/// Whether `r` is the first leaf of `leaves` that has not passed (`None`
/// when all have), however many attempts it has used.
pub open spec fn first_unpassed(leaves: Seq<NodeV>, r: Option<NodeV>) -> bool {
    match r {
        Some(x) => exists|k: int|
            0 <= k < leaves.len() && #[trigger] leaves[k] == x && !x.passes && forall|j: int|
                0 <= j < k ==> (#[trigger] leaves[j]).passes,
        None => forall|j: int| 0 <= j < leaves.len() ==> (#[trigger] leaves[j]).passes,
    }
}

proof fn lemma_first_unpassed_concat(a: Seq<NodeV>, ra: Option<NodeV>, b: Seq<NodeV>, rb: Option<NodeV>)
    requires
        first_unpassed(a, ra),
        first_unpassed(b, rb),
    ensures
        first_unpassed(a + b, match ra {
            Some(x) => Some(x),
            None => rb,
        }),
{
    let c = a + b;
    match ra {
        Some(x) => {
            let k = choose|k: int| 0 <= k < a.len() && #[trigger] a[k] == x && !x.passes && forall|j: int|
                0 <= j < k ==> (#[trigger] a[j]).passes;
            assert(c[k] == x);
            assert forall|j: int| 0 <= j < k implies (#[trigger] c[j]).passes by {
                assert(c[j] == a[j]);
            }
        },
        None => {
            match rb {
                Some(y) => {
                    let k = choose|k: int| 0 <= k < b.len() && #[trigger] b[k] == y && !y.passes && forall|j: int|
                        0 <= j < k ==> (#[trigger] b[j]).passes;
                    assert(c[a.len() + k] == y);
                    assert forall|j: int| 0 <= j < a.len() + k implies (#[trigger] c[j]).passes by {
                        if j < a.len() {
                            assert(c[j] == a[j]);
                        } else {
                            assert(c[j] == b[j - a.len()]);
                        }
                    }
                },
                None => {
                    assert forall|j: int| 0 <= j < c.len() implies (#[trigger] c[j]).passes by {
                        if j < a.len() {
                            assert(c[j] == a[j]);
                        } else {
                            assert(c[j] == b[j - a.len()]);
                        }
                    }
                },
            }
        },
    }
}

proof fn lemma_open_leaf_first(t: NodeV)
    ensures
        first_unpassed(dfs_leaves(t), open_leaf(t)),
    decreases t, 1int,
{
    if t.children.len() == 0 {
        let l = dfs_leaves(t);
        assert(l[0] == t);
    } else {
        lemma_open_leaf_forest_first(t.children);
    }
}

proof fn lemma_open_leaf_forest_first(s: Seq<NodeV>)
    ensures
        first_unpassed(dfs_leaves_forest(s), open_leaf_forest(s)),
    decreases s, 0int,
{
    if s.len() > 0 {
        assert(decreases_to!(s => s[0]));
        lemma_open_leaf_first(s[0]);
        assert(decreases_to!(s => s.drop_first()));
        lemma_open_leaf_forest_first(s.drop_first());
        lemma_first_unpassed_concat(dfs_leaves(s[0]), open_leaf(s[0]), dfs_leaves_forest(s.drop_first()), open_leaf_forest(s.drop_first()));
    }
}

/// The leaf selected for work is the first leaf in depth-first order that
/// has not passed: every leaf before it has passed, whatever the attempts of
/// the selected one (a stuck leaf is selected, not passed over); and none is
/// selected only when every leaf has passed.
pub proof fn law_selection_is_first_unpassed_leaf(t: NodeV)
    ensures
        first_unpassed(dfs_leaves(t), open_leaf(t)),
{
    lemma_open_leaf_first(t);
}

// ---------------------------------------------------------------------------
// Passed nodes come through unchanged

/// Every node of `t` with the id of its parent (`parent` for `t` itself).
pub open spec fn nodes_with_parents(t: NodeV, parent: Option<Seq<char>>) -> Seq<(Option<Seq<char>>, NodeV)>
    decreases t, 1int,
{
    seq![(parent, t)] + nodes_with_parents_forest(t.children, Some(t.id))
}

pub open spec fn nodes_with_parents_forest(s: Seq<NodeV>, parent: Option<Seq<char>>) -> Seq<(Option<Seq<char>>, NodeV)>
    decreases s, 0int,
{
    if s.len() == 0 {
        Seq::empty()
    } else {
        nodes_with_parents(s[0], parent) + nodes_with_parents_forest(s.drop_first(), parent)
    }
}

proof fn lemma_nodes_with_parents(t: NodeV, parent: Option<Seq<char>>)
    ensures
        nodes_with_parents(t, parent) == parent_entries(t, parent),
    decreases t, 1int,
{
    lemma_nodes_with_parents_forest(t.children, Some(t.id));
}

proof fn lemma_nodes_with_parents_forest(s: Seq<NodeV>, parent: Option<Seq<char>>)
    ensures
        nodes_with_parents_forest(s, parent) == crate::logic::immutability::parent_entries_forest(s, parent),
    decreases s, 0int,
{
    if s.len() > 0 {
        assert(decreases_to!(s => s[0]));
        lemma_nodes_with_parents(s[0], parent);
        assert(decreases_to!(s => s.drop_first()));
        lemma_nodes_with_parents_forest(s.drop_first(), parent);
    }
}

proof fn lemma_insert_by_id_keeps(s: Seq<ParentEntry>, x: ParentEntry)
    ensures
        insert_by_id(s, x).contains(x),
        forall|y: ParentEntry| #[trigger] s.contains(y) ==> insert_by_id(s, x).contains(y),
    decreases s.len(),
{
    let r = insert_by_id(s, x);
    if s.len() == 0 {
        assert(r =~= seq![x]);
        assert(r[0] == x);
    } else if seq_lt(x.1.id, s[0].1.id) {
        assert(r == seq![x] + s);
        assert(r[0] == x);
        assert forall|y: ParentEntry| #[trigger] s.contains(y) implies r.contains(y) by {
            let k = choose|k: int| 0 <= k < s.len() && s[k] == y;
            assert(r[k + 1] == y);
        }
    } else {
        let rest = s.drop_first();
        lemma_insert_by_id_keeps(rest, x);
        let ins = insert_by_id(rest, x);
        assert(r == seq![s[0]] + ins);
        let kx = choose|k: int| 0 <= k < ins.len() && ins[k] == x;
        assert(r[kx + 1] == x);
        assert forall|y: ParentEntry| #[trigger] s.contains(y) implies r.contains(y) by {
            let k = choose|k: int| 0 <= k < s.len() && s[k] == y;
            if k == 0 {
                assert(r[0] == y);
            } else {
                assert(rest[k - 1] == y);
                assert(rest.contains(y));
                let m = choose|m: int| 0 <= m < ins.len() && ins[m] == y;
                assert(r[m + 1] == y);
            }
        }
    }
}

proof fn lemma_sort_by_id_keeps(s: Seq<ParentEntry>)
    ensures
        forall|y: ParentEntry| #[trigger] s.contains(y) ==> sort_by_id(s).contains(y),
    decreases s.len(),
{
    if s.len() > 0 {
        let p = s.drop_last();
        lemma_sort_by_id_keeps(p);
        lemma_insert_by_id_keeps(sort_by_id(p), s.last());
        assert forall|y: ParentEntry| #[trigger] s.contains(y) implies sort_by_id(s).contains(y) by {
            let k = choose|k: int| 0 <= k < s.len() && s[k] == y;
            if k < p.len() {
                assert(p[k] == y);
                assert(p.contains(y));
            }
        }
    }
}

proof fn lemma_no_errors_each(ps: Seq<ParentEntry>, next: Seq<(Seq<char>, ParentEntry)>)
    requires
        all_passed_errors(ps, next).len() == 0,
    ensures
        forall|i: int| 0 <= i < ps.len() ==> passed_errors(#[trigger] ps[i], next).len() == 0,
    decreases ps.len(),
{
    if ps.len() > 0 {
        let p = ps.drop_last();
        lemma_no_errors_each(p, next);
        assert forall|i: int| 0 <= i < ps.len() implies passed_errors(#[trigger] ps[i], next).len() == 0 by {
            if i < p.len() {
                assert(ps[i] == p[i]);
            }
        }
    }
}

proof fn lemma_keyed_lookup_member(e: Seq<ParentEntry>, id: Seq<char>)
    ensures
        lookup_last(keyed(e), id) matches Some(v) ==> e.contains(v) && v.1.id == id,
    decreases e.len(),
{
    if e.len() > 0 {
        let p = e.drop_last();
        assert(keyed(e).drop_last() =~= keyed(p));
        assert(keyed(e).last() == (e.last().1.id, e.last()));
        lemma_keyed_lookup_member(p, id);
        if let Some(v) = lookup_last(keyed(e), id) {
            if e.last().1.id == id {
                assert(e[e.len() - 1] == v);
            } else {
                let k = choose|k: int| 0 <= k < p.len() && p[k] == v;
                assert(e[k] == v);
            }
        }
    }
}

/// When the immutability check reports nothing, every passed node of the
/// previous tree is in the next tree unchanged, under the same parent: equal
/// in every field (id, order, title, goal, acceptance, next, passes,
/// attempts, max_attempts and its whole subtree).
pub proof fn law_passed_nodes_unchanged_when_no_errors(prev: NodeV, next: NodeV, p: (Option<Seq<char>>, NodeV))
    requires
        immutability_errors(prev, next).len() == 0,
        nodes_with_parents(prev, None).contains(p),
        p.1.passes,
    ensures
        nodes_with_parents(next, None).contains(p),
{
    lemma_nodes_with_parents(prev, None);
    lemma_nodes_with_parents(next, None);
    let e = parent_entries(prev, None);
    let pred = |x: ParentEntry| x.1.passes;
    let k = choose|k: int| 0 <= k < e.len() && e[k] == p;
    e.lemma_filter_contains(pred, k);
    lemma_sort_by_id_keeps(e.filter(pred));
    let ps = passed_entries(prev);
    assert(ps.contains(p));
    let i = choose|i: int| 0 <= i < ps.len() && ps[i] == p;
    let ke = keyed(parent_entries(next, None));
    lemma_no_errors_each(ps, ke);
    assert(passed_errors(ps[i], ke).len() == 0);
    lemma_keyed_lookup_member(parent_entries(next, None), p.1.id);
    match lookup_last(ke, p.1.id) {
        Some(found) => {
            assert(found.0 == p.0 && found.1 == p.1);
            assert(found == p);
        },
        None => {},
    }
}

} // verus!
