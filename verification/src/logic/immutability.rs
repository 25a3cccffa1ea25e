//! Passed-node immutability checks.

use vstd::prelude::*;

use crate::logic::child_additions::lookup_last;
use crate::logic::strseq::push_str;
use crate::text::{seq_lt, string_lt};
use crate::tree::{lemma_forest_view, node_eq, strings_view, Node, NodeV};

verus! {

/// A node together with the id of its parent (`None` for the root).
pub type ParentEntry = (Option<Seq<char>>, NodeV);

/// Every node of `t` with its parent id, depth-first with parents first.
pub open spec fn parent_entries(t: NodeV, parent: Option<Seq<char>>) -> Seq<ParentEntry>
    decreases t, 1int,
{
    seq![(parent, t)] + parent_entries_forest(t.children, Some(t.id))
}

pub open spec fn parent_entries_forest(s: Seq<NodeV>, parent: Option<Seq<char>>) -> Seq<ParentEntry>
    decreases s, 0int,
{
    if s.len() == 0 {
        Seq::empty()
    } else {
        parent_entries(s[0], parent) + parent_entries_forest(s.drop_first(), parent)
    }
}

/// Inserts `x` after every entry whose id is not greater than its own.
pub open spec fn insert_by_id(s: Seq<ParentEntry>, x: ParentEntry) -> Seq<ParentEntry>
    decreases s.len(),
{
    if s.len() == 0 {
        seq![x]
    } else if seq_lt(x.1.id, s[0].1.id) {
        seq![x] + s
    } else {
        seq![s[0]] + insert_by_id(s.drop_first(), x)
    }
}

/// Stable sort of entries by node id.
pub open spec fn sort_by_id(s: Seq<ParentEntry>) -> Seq<ParentEntry>
    decreases s.len(),
{
    if s.len() == 0 {
        s
    } else {
        insert_by_id(sort_by_id(s.drop_last()), s.last())
    }
}

/// The passed nodes of `t` with their parents, sorted by id (stable).
pub open spec fn passed_entries(t: NodeV) -> Seq<ParentEntry> {
    sort_by_id(parent_entries(t, None).filter(|e: ParentEntry| e.1.passes))
}

/// Entries keyed by node id, for last-wins lookup.
pub open spec fn keyed(s: Seq<ParentEntry>) -> Seq<(Seq<char>, ParentEntry)> {
    s.map_values(|e: ParentEntry| (e.1.id, e))
}

pub open spec fn parent_label(p: Option<Seq<char>>) -> Seq<char> {
    match p {
        Some(id) => id,
        None => "<root>"@,
    }
}

/// The errors for one passed entry `p` against the nodes of the next tree.
pub open spec fn passed_errors(p: ParentEntry, next: Seq<(Seq<char>, ParentEntry)>) -> Seq<Seq<char>> {
    let id = p.1.id;
    match lookup_last(next, id) {
        None => seq!["passed node '"@ + id + "' missing in next tree"@],
        Some(found) => (if found.0 != p.0 {
            seq![
                "passed node '"@ + id + "' moved from parent '"@ + parent_label(p.0) + "' to '"@
                    + parent_label(found.0) + "'"@,
            ]
        } else {
            Seq::empty()
        }) + (if found.1 != p.1 {
            seq!["passed node '"@ + id + "' changed in next tree"@]
        } else {
            Seq::empty()
        }),
    }
}

pub open spec fn all_passed_errors(ps: Seq<ParentEntry>, next: Seq<(Seq<char>, ParentEntry)>) -> Seq<Seq<char>>
    decreases ps.len(),
{
    if ps.len() == 0 {
        Seq::empty()
    } else {
        all_passed_errors(ps.drop_last(), next) + passed_errors(ps.last(), next)
    }
}

/// The immutability errors between `prev` and `next`, in id order of the passed nodes.
pub open spec fn immutability_errors(prev: NodeV, next: NodeV) -> Seq<Seq<char>> {
    all_passed_errors(passed_entries(prev), keyed(parent_entries(next, None)))
}

pub open spec fn opt_string_view(o: Option<String>) -> Option<Seq<char>> {
    match o {
        Some(s) => Some(s@),
        None => None,
    }
}

pub open spec fn entries_view(v: Seq<(Option<String>, &Node)>) -> Seq<ParentEntry> {
    v.map_values(|e: (Option<String>, &Node)| (opt_string_view(e.0), e.1@))
}

fn clone_opt(o: &Option<String>) -> (r: Option<String>)
    ensures
        opt_string_view(r) == opt_string_view(*o),
{
    match o {
        Some(s) => Some(s.clone()),
        None => None,
    }
}

proof fn lemma_forest_prefix_step(s: Seq<NodeV>, i: int, parent: Option<Seq<char>>)
    requires
        0 <= i < s.len(),
    ensures
        parent_entries_forest(s.subrange(0, i + 1), parent) == parent_entries_forest(s.subrange(0, i), parent)
            + parent_entries(s[i], parent),
    decreases i,
{
    if i == 0 {
        let one = s.subrange(0, 1);
        assert(one[0] == s[0]);
        assert(one.drop_first() =~= Seq::<NodeV>::empty());
        assert(s.subrange(0, 0) =~= Seq::<NodeV>::empty());
        assert(parent_entries_forest(one.drop_first(), parent) == Seq::<ParentEntry>::empty());
        assert(parent_entries_forest(s.subrange(0, 0), parent) == Seq::<ParentEntry>::empty());
        assert(parent_entries(s[0], parent) + Seq::<ParentEntry>::empty() =~= parent_entries(s[0], parent));
        assert(Seq::<ParentEntry>::empty() + parent_entries(s[0], parent) =~= parent_entries(s[0], parent));
    } else {
        let d = s.drop_first();
        lemma_forest_prefix_step(d, i - 1, parent);
        let p1 = s.subrange(0, i + 1);
        let p0 = s.subrange(0, i);
        assert(p1[0] == s[0]);
        assert(p0[0] == s[0]);
        assert(p1.drop_first() =~= d.subrange(0, i));
        assert(p0.drop_first() =~= d.subrange(0, i - 1));
        assert(d[i - 1] == s[i]);
        let a = parent_entries(s[0], parent);
        let b = parent_entries_forest(d.subrange(0, i - 1), parent);
        let c = parent_entries(s[i], parent);
        assert(a + (b + c) =~= (a + b) + c);
    }
}

fn collect_entries<'a>(node: &'a Node, parent: Option<String>, out: &mut Vec<(Option<String>, &'a Node)>)
    ensures
        entries_view(final(out)@) == entries_view(old(out)@) + parent_entries(node@, opt_string_view(parent)),
    decreases node@,
{
    proof {
        lemma_forest_view(node.children@);
    }
    let ghost out0 = entries_view(out@);
    let ghost pv = opt_string_view(parent);
    out.push((parent, node));
    proof {
        assert(entries_view(out@) =~= out0.push((pv, node@)));
    }
    let ghost cs = node@.children;
    let ghost mid = entries_view(out@);
    let ghost me = Some(node@.id);
    let n = node.children.len();
    let mut i: usize = 0;
    proof {
        assert(cs.subrange(0, 0) =~= Seq::<NodeV>::empty());
        assert(parent_entries_forest(cs.subrange(0, 0), me) == Seq::<ParentEntry>::empty());
        assert(mid + Seq::<ParentEntry>::empty() =~= mid);
    }
    while i < n
        invariant
            n == node.children@.len(),
            cs == node@.children,
            cs.len() == n,
            i <= n,
            me == Some(node@.id),
            forall|k: int| 0 <= k < n ==> #[trigger] cs[k] == node.children@[k]@,
            entries_view(out@) == mid + parent_entries_forest(cs.subrange(0, i as int), me),
        decreases n - i,
    {
        proof {
            assert(decreases_to!(node@ => cs[i as int]));
        }
        collect_entries(&node.children[i], Some(node.id.clone()), out);
        proof {
            lemma_forest_prefix_step(cs, i as int, me);
            let a = parent_entries_forest(cs.subrange(0, i as int), me);
            let b = parent_entries(cs[i as int], me);
            assert(mid + (a + b) =~= (mid + a) + b);
        }
        i = i + 1;
    }
    proof {
        assert(cs.subrange(0, n as int) =~= cs);
        assert(out0 + (seq![(pv, node@)] + parent_entries_forest(cs, me))
            =~= out0.push((pv, node@)) + parent_entries_forest(cs, me));
    }
}

proof fn lemma_insert_by_id_at(s: Seq<ParentEntry>, x: ParentEntry, j: int)
    requires
        0 <= j <= s.len(),
        forall|k: int| 0 <= k < j ==> !seq_lt(x.1.id, #[trigger] s[k].1.id),
        j == s.len() || seq_lt(x.1.id, s[j].1.id),
    ensures
        insert_by_id(s, x) == s.insert(j, x),
    decreases j,
{
    if j == 0 {
        if s.len() == 0 {
            assert(s.insert(0, x) =~= seq![x]);
        } else {
            assert(s.insert(0, x) =~= seq![x] + s);
        }
    } else {
        assert forall|k: int| 0 <= k < j - 1 implies !seq_lt(x.1.id, #[trigger] s.drop_first()[k].1.id) by {
            assert(s.drop_first()[k] == s[k + 1]);
        }
        lemma_insert_by_id_at(s.drop_first(), x, j - 1);
        assert(seq![s[0]] + s.drop_first().insert(j - 1, x) =~= s.insert(j, x));
    }
}

fn sort_entries_by_id<'a>(v: Vec<(Option<String>, &'a Node)>) -> (r: Vec<(Option<String>, &'a Node)>)
    ensures
        entries_view(r@) == sort_by_id(entries_view(v@)),
{
    let ghost sv = entries_view(v@);
    let n = v.len();
    let mut rest = v;
    let ghost orig = rest@;
    let mut out: Vec<(Option<String>, &'a Node)> = Vec::new();
    let mut k: usize = 0;
    proof {
        assert(sv.take(0) =~= Seq::<ParentEntry>::empty());
        assert(entries_view(out@) =~= Seq::<ParentEntry>::empty());
        assert(rest@.subrange(0, n as int) =~= rest@);
    }
    while rest.len() > 0
        invariant
            orig.len() == n,
            sv == entries_view(orig),
            k <= n,
            rest@ == orig.subrange(k as int, n as int),
            rest@.len() == n - k,
            entries_view(out@) == sort_by_id(sv.take(k as int)),
        decreases n - k,
    {
        let x = rest.remove(0);
        proof {
            assert(x == orig[k as int]);
        }
        let mut j: usize = 0;
        while j < out.len() && !string_lt(&x.1.id, &out[j].1.id)
            invariant
                j <= out@.len(),
                forall|i: int| 0 <= i < j ==> !seq_lt(x.1@.id, #[trigger] entries_view(out@)[i].1.id),
            decreases out@.len() - j,
        {
            j = j + 1;
        }
        proof {
            lemma_insert_by_id_at(entries_view(out@), (opt_string_view(x.0), x.1@), j as int);
        }
        let ghost before = out@;
        let ghost xv = (opt_string_view(x.0), x.1@);
        out.insert(j, x);
        proof {
            assert(entries_view(out@) =~= entries_view(before).insert(j as int, xv));
            assert(sv.take(k + 1).drop_last() =~= sv.take(k as int));
            assert(sv.take(k + 1).last() == xv);
            assert(rest@ =~= orig.subrange(k + 1, n as int));
        }
        k = k + 1;
    }
    proof {
        assert(sv.take(n as int) =~= sv);
    }
    out
}

fn lookup_by_id<'a>(entries: &Vec<(Option<String>, &'a Node)>, id: &String) -> (r: Option<usize>)
    ensures
        match r {
            Some(j) => j < entries@.len() && lookup_last(keyed(entries_view(entries@)), id@) == Some(
                entries_view(entries@)[j as int],
            ),
            None => lookup_last(keyed(entries_view(entries@)), id@) is None,
        },
{
    let ghost ev = keyed(entries_view(entries@));
    let mut i: usize = entries.len();
    proof {
        assert(ev.take(i as int) =~= ev);
    }
    while i > 0
        invariant
            i <= entries@.len(),
            ev == keyed(entries_view(entries@)),
            lookup_last(ev, id@) == lookup_last(ev.take(i as int), id@),
        decreases i,
    {
        proof {
            assert(ev.take(i as int).last() == ev[i - 1]);
            assert(ev.take(i as int).drop_last() =~= ev.take(i - 1));
        }
        if entries[i - 1].1.id == *id {
            return Some(i - 1);
        }
        i = i - 1;
    }
    None
}

fn label(p: &Option<String>) -> (r: String)
    ensures
        r@ == parent_label(opt_string_view(*p)),
{
    match p {
        Some(s) => s.clone(),
        None => String::from_str("<root>"),
    }
}

fn opt_eq(a: &Option<String>, b: &Option<String>) -> (r: bool)
    ensures
        r == (opt_string_view(*a) == opt_string_view(*b)),
{
    match (a, b) {
        (Some(x), Some(y)) => *x == *y,
        (None, None) => true,
        _ => false,
    }
}

fn filter_passed<'a>(all: &Vec<(Option<String>, &'a Node)>) -> (r: Vec<(Option<String>, &'a Node)>)
    ensures
        entries_view(r@) == entries_view(all@).filter(|e: ParentEntry| e.1.passes),
{
    let ghost pv = entries_view(all@);
    let ghost f = |e: ParentEntry| e.1.passes;
    let mut passed: Vec<(Option<String>, &Node)> = Vec::new();
    let mut i: usize = 0;
    proof {
        assert(pv.take(0).filter(f) =~= Seq::<ParentEntry>::empty());
        assert(entries_view(passed@) =~= Seq::<ParentEntry>::empty());
    }
    while i < all.len()
        invariant
            i <= all@.len(),
            pv == entries_view(all@),
            f == (|e: ParentEntry| e.1.passes),
            entries_view(passed@) == pv.take(i as int).filter(f),
        decreases all@.len() - i,
    {
        proof {
            assert(pv.take(i + 1).drop_last() =~= pv.take(i as int));
            assert(pv.take(i + 1).last() == pv[i as int]);
            reveal_with_fuel(Seq::filter, 1);
        }
        if all[i].1.passes {
            let ghost before = entries_view(passed@);
            passed.push((clone_opt(&all[i].0), all[i].1));
            proof {
                assert(entries_view(passed@) =~= before.push(pv[i as int]));
            }
        }
        i = i + 1;
    }
    proof {
        assert(pv.take(all@.len() as int) =~= pv);
    }
    passed
}

fn report_passed(p: &(Option<String>, &Node), all_next: &Vec<(Option<String>, &Node)>, errors: &mut Vec<String>)
    ensures
        strings_view(final(errors)@) == strings_view(old(errors)@) + passed_errors(
            (opt_string_view(p.0), p.1@),
            keyed(entries_view(all_next@)),
        ),
{
    let ghost before = strings_view(errors@);
    let ghost nk = keyed(entries_view(all_next@));
    match lookup_by_id(all_next, &p.1.id) {
        None => {
            let mut m = String::from_str("passed node '");
            m.append(p.1.id.as_str());
            m.append("' missing in next tree");
            push_str(errors, m);
        },
        Some(j) => {
            let found = &all_next[j];
            if !opt_eq(&found.0, &p.0) {
                let mut m = String::from_str("passed node '");
                m.append(p.1.id.as_str());
                m.append("' moved from parent '");
                m.append(label(&p.0).as_str());
                m.append("' to '");
                m.append(label(&found.0).as_str());
                m.append("'");
                push_str(errors, m);
            }
            if !node_eq(found.1, p.1) {
                let mut m = String::from_str("passed node '");
                m.append(p.1.id.as_str());
                m.append("' changed in next tree");
                push_str(errors, m);
            }
        },
    }
    proof {
        assert(strings_view(errors@) =~= before + passed_errors((opt_string_view(p.0), p.1@), nk));
    }
}

/// Validate that nodes with `passes=true` in the previous tree remain immutable.
///
/// For each passed node in `prev`, this check enforces:
/// - The node still exists in `next`.
/// - The node's parent id is unchanged.
/// - The node is identical by value (all fields, including children).
///
/// Returns a list of stable error messages (sorted by node id).
pub fn check_passed_node_immutability(prev: &Node, next: &Node) -> (errors: Vec<String>)
    ensures
        strings_view(errors@) == immutability_errors(prev@, next@),
{
    let mut all_prev: Vec<(Option<String>, &Node)> = Vec::new();
    collect_entries(prev, None, &mut all_prev);
    proof {
        assert(entries_view(all_prev@) =~= parent_entries(prev@, None));
    }
    let passed = sort_entries_by_id(filter_passed(&all_prev));
    let ghost ps = entries_view(passed@);
    let mut all_next: Vec<(Option<String>, &Node)> = Vec::new();
    collect_entries(next, None, &mut all_next);
    let ghost nk = keyed(entries_view(all_next@));
    proof {
        assert(entries_view(all_next@) =~= parent_entries(next@, None));
    }
    let mut errors: Vec<String> = Vec::new();
    let mut i: usize = 0;
    proof {
        assert(ps.take(0) =~= Seq::<ParentEntry>::empty());
        assert(strings_view(errors@) =~= Seq::<Seq<char>>::empty());
    }
    while i < passed.len()
        invariant
            i <= passed@.len(),
            ps == entries_view(passed@),
            nk == keyed(entries_view(all_next@)),
            strings_view(errors@) == all_passed_errors(ps.take(i as int), nk),
        decreases passed@.len() - i,
    {
        proof {
            assert(ps.take(i + 1).drop_last() =~= ps.take(i as int));
            assert(ps.take(i + 1).last() == ps[i as int]);
        }
        report_passed(&passed[i], &all_next, &mut errors);
        i = i + 1;
    }
    proof {
        assert(ps.take(passed@.len() as int) =~= ps);
    }
    errors
}

} // verus!
