//! Task tree data structures for the goal-driven agent loop.
//!
//! The tree is a hierarchy of tasks; each node tracks its execution state
//! (attempts, passes) and an ordering key for deterministic traversal.

use vstd::prelude::*;

use crate::text::{seq_lt, string_lt};

verus! {

/// How the runner proceeds when a node is selected.
#[derive(Clone, Copy, Debug, PartialEq, Eq, Structural)]
pub enum NodeNext {
    Decompose,
    Execute,
}

/// The lowercase name of a `next` value.
pub open spec fn next_label(n: NodeNext) -> Seq<char> {
    match n {
        NodeNext::Decompose => "decompose"@,
        NodeNext::Execute => "execute"@,
    }
}

impl NodeNext {
    /// `decompose` or `execute`.
    pub fn as_str(&self) -> (r: &'static str)
        ensures
            r@ == next_label(*self),
    {
        match self {
            NodeNext::Decompose => "decompose",
            NodeNext::Execute => "execute",
        }
    }
}

/// A node in the task tree, representing a goal or sub-goal.
///
/// Leaves are executable tasks. The runner traverses depth-first in
/// `(order, id)` order to find the next open leaf (`passes == false`).
#[derive(Debug, PartialEq, Eq)]
pub struct Node {
    /// Unique identifier within the tree; used for duplicate detection.
    pub id: String,
    /// Sort key for sibling ordering; lower values are processed first.
    pub order: i64,
    pub title: String,
    /// What this node aims to accomplish.
    pub goal: String,
    /// Criteria that must hold for `passes` to become true.
    pub acceptance: Vec<String>,
    /// Whether the node is to be decomposed or executed next.
    pub next: NodeNext,
    /// Whether this node's goal has been achieved.
    pub passes: bool,
    /// How many times execution has been attempted.
    pub attempts: u32,
    /// Upper bound on attempts before the node is considered stuck.
    pub max_attempts: u32,
    pub children: Vec<Node>,
}

/// Mathematical model of a [`Node`]: strings become character sequences,
/// vectors become sequences.
pub struct NodeV {
    pub id: Seq<char>,
    pub order: i64,
    pub title: Seq<char>,
    pub goal: Seq<char>,
    pub acceptance: Seq<Seq<char>>,
    pub next: NodeNext,
    pub passes: bool,
    pub attempts: u32,
    pub max_attempts: u32,
    pub children: Seq<NodeV>,
}

pub open spec fn strings_view(s: Seq<String>) -> Seq<Seq<char>> {
    s.map_values(|x: String| x@)
}

pub open spec fn node_view(n: Node) -> NodeV
    decreases n,
{
    NodeV {
        id: n.id@,
        order: n.order,
        title: n.title@,
        goal: n.goal@,
        acceptance: strings_view(n.acceptance@),
        next: n.next,
        passes: n.passes,
        attempts: n.attempts,
        max_attempts: n.max_attempts,
        children: forest_view(n.children@),
    }
}

pub open spec fn forest_view(s: Seq<Node>) -> Seq<NodeV>
    decreases s,
{
    if s.len() == 0 {
        Seq::empty()
    } else {
        forest_view(s.drop_last()).push(node_view(s.last()))
    }
}

impl View for Node {
    type V = NodeV;

    open spec fn view(&self) -> NodeV {
        node_view(*self)
    }
}

/// The view of a sequence of nodes is the sequence of their views.
pub proof fn lemma_forest_view(s: Seq<Node>)
    ensures
        forest_view(s).len() == s.len(),
        forall|i: int| 0 <= i < s.len() ==> #[trigger] forest_view(s)[i] == s[i]@,
    decreases s.len(),
{
    if s.len() > 0 {
        lemma_forest_view(s.drop_last());
    }
}

/// Sibling ordering key: `(order, id)`, compared lexicographically.
pub open spec fn key_lt(a: NodeV, b: NodeV) -> bool {
    a.order < b.order || (a.order == b.order && seq_lt(a.id, b.id))
}

/// Inserts `x` after every element whose key is not greater than its own.
pub open spec fn insert_by_key(s: Seq<NodeV>, x: NodeV) -> Seq<NodeV>
    decreases s.len(),
{
    if s.len() == 0 {
        seq![x]
    } else if key_lt(x, s[0]) {
        seq![x] + s
    } else {
        seq![s[0]] + insert_by_key(s.drop_first(), x)
    }
}

/// Stable sort of `s` by `(order, id)`.
pub open spec fn sort_by_key(s: Seq<NodeV>) -> Seq<NodeV>
    decreases s.len(),
{
    if s.len() == 0 {
        s
    } else {
        insert_by_key(sort_by_key(s.drop_last()), s.last())
    }
}

/// `t` with the children of every node stably sorted by `(order, id)`.
pub open spec fn sorted_tree(t: NodeV) -> NodeV
    decreases t, 1int,
{
    NodeV { children: sort_by_key(sorted_forest(t.children)), ..t }
}

pub open spec fn sorted_forest(s: Seq<NodeV>) -> Seq<NodeV>
    decreases s, 0int,
{
    if s.len() == 0 {
        s
    } else {
        sorted_forest(s.drop_last()).push(sorted_tree(s.last()))
    }
}

pub proof fn lemma_insert_at(s: Seq<NodeV>, x: NodeV, j: int)
    requires
        0 <= j <= s.len(),
        forall|k: int| 0 <= k < j ==> !key_lt(x, #[trigger] s[k]),
        j == s.len() || key_lt(x, s[j]),
    ensures
        insert_by_key(s, x) == s.insert(j, x),
    decreases j,
{
    if j == 0 {
        if s.len() == 0 {
            assert(s.insert(0, x) =~= seq![x]);
        } else {
            assert(s.insert(0, x) =~= seq![x] + s);
        }
    } else {
        assert forall|k: int| 0 <= k < j - 1 implies !key_lt(x, #[trigger] s.drop_first()[k]) by {
            assert(s.drop_first()[k] == s[k + 1]);
        }
        lemma_insert_at(s.drop_first(), x, j - 1);
        assert(seq![s[0]] + s.drop_first().insert(j - 1, x) =~= s.insert(j, x));
    }
}

pub proof fn lemma_sorted_forest(s: Seq<NodeV>)
    ensures
        sorted_forest(s).len() == s.len(),
        forall|i: int| 0 <= i < s.len() ==> #[trigger] sorted_forest(s)[i] == sorted_tree(s[i]),
    decreases s.len(),
{
    if s.len() > 0 {
        lemma_sorted_forest(s.drop_last());
    }
}

/// `a` sorts strictly before `b` by `(order, id)`.
pub fn node_key_lt(a: &Node, b: &Node) -> (r: bool)
    ensures
        r == key_lt(a@, b@),
{
    a.order < b.order || (a.order == b.order && string_lt(&a.id, &b.id))
}

impl Node {
    /// Recursively sorts children by `(order, id)` for deterministic traversal.
    ///
    /// The sort is stable: siblings with equal keys keep their relative order.
    pub fn sort_children(&mut self)
        ensures
            final(self)@ == sorted_tree(old(self)@),
        decreases old(self)@,
    {
        let ghost old_children = self.children@;
        let mut rest: Vec<Node> = Vec::new();
        std::mem::swap(&mut rest, &mut self.children);
        let n: usize = rest.len();
        let mut out: Vec<Node> = Vec::new();
        let ghost mapped = sorted_forest(forest_view(old_children));
        proof {
            lemma_forest_view(old_children);
            lemma_sorted_forest(forest_view(old_children));
        }
        let mut k: usize = 0;
        while rest.len() > 0
            invariant
                rest@ == old_children.subrange(k as int, n as int),
                n == old_children.len(),
                k <= n,
                rest@.len() == n - k,
                forest_view(old_children).len() == n,
                mapped.len() == n,
                forall|i: int| 0 <= i < n ==> #[trigger] mapped[i] == sorted_tree(old_children[i]@),
                forest_view(out@) == sort_by_key(mapped.take(k as int)),
                decreases_to!(old(self)@ => forest_view(old_children)),
                forall|i: int| 0 <= i < n ==> #[trigger] forest_view(old_children)[i] == old_children[i]@,
            decreases n - k,
        {
            let mut c = rest.remove(0);
            proof {
                assert(c == old_children[k as int]);
                assert(decreases_to!(forest_view(old_children) => forest_view(old_children)[k as int]));
            }
            c.sort_children();
            let mut j: usize = 0;
            proof {
                lemma_forest_view(out@);
            }
            while j < out.len() && !node_key_lt(&c, &out[j])
                invariant
                    j <= out@.len(),
                    forest_view(out@).len() == out@.len(),
                    forall|i: int| 0 <= i < out@.len() ==> #[trigger] forest_view(out@)[i] == out@[i]@,
                    forall|i: int| 0 <= i < j ==> !key_lt(c@, #[trigger] forest_view(out@)[i]),
                decreases out@.len() - j,
            {
                j = j + 1;
            }
            proof {
                lemma_insert_at(forest_view(out@), c@, j as int);
            }
            let ghost before = out@;
            out.insert(j, c);
            proof {
                lemma_forest_view(out@);
                lemma_forest_view(before);
                assert(forest_view(out@) =~= forest_view(before).insert(j as int, c@));
                assert(mapped.take(k + 1).drop_last() =~= mapped.take(k as int));
                assert(rest@ =~= old_children.subrange(k + 1, n as int));
            }
            k = k + 1;
        }
        self.children = out;
        proof {
            assert(mapped.take(n as int) =~= mapped);
            assert(old(self)@.children == forest_view(old_children));
        }
    }
}

/// The ids of all nodes of `t`, depth-first with parents before children.
pub open spec fn preorder_ids(t: NodeV) -> Seq<Seq<char>>
    decreases t, 1int,
{
    seq![t.id] + preorder_ids_forest(t.children)
}

/// The ids of all nodes of the trees of `s`, tree after tree.
pub open spec fn preorder_ids_forest(s: Seq<NodeV>) -> Seq<Seq<char>>
    decreases s, 0int,
{
    if s.len() == 0 {
        Seq::empty()
    } else {
        preorder_ids(s[0]) + preorder_ids_forest(s.drop_first())
    }
}

/// Appending one tree to a prefix of a forest appends its ids.
pub proof fn lemma_ids_step(s: Seq<NodeV>, i: int)
    requires
        0 <= i < s.len(),
    ensures
        preorder_ids_forest(s.subrange(0, i + 1)) == preorder_ids_forest(s.subrange(0, i)) + preorder_ids(s[i]),
    decreases i,
{
    if i == 0 {
        let one = s.subrange(0, 1);
        assert(one[0] == s[0]);
        assert(one.drop_first() =~= Seq::<NodeV>::empty());
        assert(s.subrange(0, 0) =~= Seq::<NodeV>::empty());
        assert(preorder_ids_forest(one.drop_first()) == Seq::<Seq<char>>::empty());
        assert(preorder_ids(s[0]) + Seq::<Seq<char>>::empty() =~= preorder_ids(s[0]));
        assert(preorder_ids_forest(s.subrange(0, 0)) == Seq::<Seq<char>>::empty());
        assert(Seq::<Seq<char>>::empty() + preorder_ids(s[0]) =~= preorder_ids(s[0]));
    } else {
        let d = s.drop_first();
        lemma_ids_step(d, i - 1);
        let p1 = s.subrange(0, i + 1);
        let p0 = s.subrange(0, i);
        assert(p1[0] == s[0]);
        assert(p0[0] == s[0]);
        assert(p1.drop_first() =~= d.subrange(0, i));
        assert(p0.drop_first() =~= d.subrange(0, i - 1));
        assert(d[i - 1] == s[i]);
        let a = preorder_ids(s[0]);
        let b = preorder_ids_forest(d.subrange(0, i - 1));
        let c = preorder_ids(s[i]);
        assert(a + (b + c) =~= (a + b) + c);
    }
}

/// The first node (depth-first, parents before children) whose id is `id`.
pub open spec fn find_first(t: NodeV, id: Seq<char>) -> Option<NodeV>
    decreases t, 1int,
{
    if t.id == id {
        Some(t)
    } else {
        find_first_forest(t.children, id)
    }
}

/// The first node whose id is `id` among the trees of `s`, in order.
pub open spec fn find_first_forest(s: Seq<NodeV>, id: Seq<char>) -> Option<NodeV>
    decreases s, 0int,
{
    if s.len() == 0 {
        None
    } else {
        match find_first(s[0], id) {
            Some(x) => Some(x),
            None => find_first_forest(s.drop_first(), id),
        }
    }
}

/// Returns the first node (depth-first) whose id is `target_id`.
pub fn find_node<'a>(node: &'a Node, target_id: &str) -> (r: Option<&'a Node>)
    ensures
        match r {
            Some(found) => find_first(node@, target_id@) == Some(found@),
            None => find_first(node@, target_id@) is None,
        },
    decreases node@,
{
    proof {
        lemma_forest_view(node.children@);
    }
    if crate::text::str_eq(node.id.as_str(), target_id) {
        return Some(node);
    }
    let ghost cs = node@.children;
    let n = node.children.len();
    let mut i: usize = 0;
    proof {
        assert(cs.subrange(0, n as int) =~= cs);
    }
    while i < n
        invariant
            n == node.children@.len(),
            cs == node@.children,
            cs.len() == n,
            i <= n,
            node@.id != target_id@,
            forall|k: int| 0 <= k < n ==> #[trigger] cs[k] == node.children@[k]@,
            find_first_forest(cs, target_id@) == find_first_forest(
                cs.subrange(i as int, n as int),
                target_id@,
            ),
        decreases n - i,
    {
        proof {
            assert(cs.subrange(i as int, n as int)[0] == cs[i as int]);
            assert(cs.subrange(i as int, n as int).drop_first() =~= cs.subrange(i + 1, n as int));
            assert(decreases_to!(node@ => cs[i as int]));
        }
        if let Some(found) = find_node(&node.children[i], target_id) {
            return Some(found);
        }
        i = i + 1;
    }
    proof {
        assert(cs.subrange(n as int, n as int) =~= Seq::<NodeV>::empty());
    }
    None
}

/// Whether `a` and `b` are identical by value (all fields, including children).
pub fn node_eq(a: &Node, b: &Node) -> (r: bool)
    ensures
        r == (a@ == b@),
    decreases a@,
{
    proof {
        lemma_forest_view(a.children@);
        lemma_forest_view(b.children@);
    }
    if a.id != b.id || a.order != b.order || a.title != b.title || a.goal != b.goal || a.next != b.next
        || a.passes != b.passes || a.attempts != b.attempts || a.max_attempts != b.max_attempts
        || a.acceptance.len() != b.acceptance.len() || a.children.len() != b.children.len() {
        proof {
            if a@ == b@ {
                assert(a@.acceptance.len() == a.acceptance@.len());
                assert(b@.acceptance.len() == b.acceptance@.len());
            }
        }
        return false;
    }
    let mut i: usize = 0;
    while i < a.acceptance.len()
        invariant
            i <= a.acceptance@.len(),
            a.acceptance@.len() == b.acceptance@.len(),
            forall|k: int| 0 <= k < i ==> a.acceptance@[k]@ == b.acceptance@[k]@,
        decreases a.acceptance@.len() - i,
    {
        if a.acceptance[i] != b.acceptance[i] {
            proof {
                if a@ == b@ {
                    assert(a@.acceptance[i as int] == b@.acceptance[i as int]);
                }
            }
            return false;
        }
        i = i + 1;
    }
    proof {
        assert(a@.acceptance =~= b@.acceptance);
    }
    let mut i: usize = 0;
    while i < a.children.len()
        invariant
            i <= a.children@.len(),
            a.children@.len() == b.children@.len(),
            a@.children.len() == a.children@.len(),
            b@.children.len() == b.children@.len(),
            forall|k: int| 0 <= k < a.children@.len() ==> #[trigger] a@.children[k] == a.children@[k]@,
            forall|k: int| 0 <= k < b.children@.len() ==> #[trigger] b@.children[k] == b.children@[k]@,
            forall|k: int| 0 <= k < i ==> a@.children[k] == b@.children[k],
        decreases a.children@.len() - i,
    {
        proof {
            assert(decreases_to!(a@ => a@.children[i as int]));
        }
        if !node_eq(&a.children[i], &b.children[i]) {
            proof {
                if a@ == b@ {
                    assert(a@.children[i as int] == b@.children[i as int]);
                }
            }
            return false;
        }
        i = i + 1;
    }
    proof {
        assert(a@.children =~= b@.children);
    }
    true
}

/// A copy of `v` with equal contents.
pub fn clone_strings(v: &Vec<String>) -> (r: Vec<String>)
    ensures
        strings_view(r@) == strings_view(v@),
{
    let mut r: Vec<String> = Vec::new();
    let mut i: usize = 0;
    while i < v.len()
        invariant
            i <= v@.len(),
            strings_view(r@) =~= strings_view(v@).take(i as int),
        decreases v@.len() - i,
    {
        let ghost before = r@;
        r.push(v[i].clone());
        proof {
            assert(strings_view(r@) =~= strings_view(before).push(v@[i as int]@));
            assert(strings_view(v@).take(i + 1) =~= strings_view(v@).take(i as int).push(v@[i as int]@));
        }
        i = i + 1;
    }
    proof {
        assert(strings_view(v@).take(v@.len() as int) =~= strings_view(v@));
    }
    r
}

impl Node {
    /// A deep copy of this node and its whole subtree.
    pub fn deep_clone(&self) -> (r: Node)
        ensures
            r@ == self@,
        decreases self@,
    {
        proof {
            lemma_forest_view(self.children@);
        }
        let mut children: Vec<Node> = Vec::new();
        let mut i: usize = 0;
        while i < self.children.len()
            invariant
                i <= self.children@.len(),
                self@.children.len() == self.children@.len(),
                forall|k: int| 0 <= k < self.children@.len() ==> #[trigger] self@.children[k] == self.children@[k]@,
                forest_view(children@) =~= self@.children.take(i as int),
            decreases self.children@.len() - i,
        {
            proof {
                assert(decreases_to!(self@ => self@.children[i as int]));
            }
            let c = self.children[i].deep_clone();
            let ghost before = children@;
            children.push(c);
            proof {
                lemma_forest_view(before);
                lemma_forest_view(children@);
                assert(forest_view(children@) =~= forest_view(before).push(c@));
                assert(self@.children.take(i + 1) =~= self@.children.take(i as int).push(self@.children[i as int]));
            }
            i = i + 1;
        }
        let r = Node {
            id: self.id.clone(),
            order: self.order,
            title: self.title.clone(),
            goal: self.goal.clone(),
            acceptance: clone_strings(&self.acceptance),
            next: self.next,
            passes: self.passes,
            attempts: self.attempts,
            max_attempts: self.max_attempts,
            children,
        };
        proof {
            assert(self@.children.take(self.children@.len() as int) =~= self@.children);
            assert(r@.children =~= self@.children);
        }
        r
    }
}

impl Clone for Node {
    /// A deep copy of the node and its subtree.
    fn clone(&self) -> (r: Self)
        ensures
            r@ == self@,
    {
        self.deep_clone()
    }
}

/// Returns a minimal root node for bootstrapping a new task tree.
pub fn default_tree() -> (t: Node)
    ensures
        t@ == default_tree_spec(3),
{
    default_tree_with_max_attempts(3)
}

/// The bootstrap root node: id `root`, no children, nothing attempted yet.
pub open spec fn default_tree_spec(max_attempts: u32) -> NodeV {
    NodeV {
        id: "root"@,
        order: 0,
        title: "Root"@,
        goal: "Top-level goal (see .runner/GOAL.md)"@,
        acceptance: Seq::empty(),
        next: NodeNext::Decompose,
        passes: false,
        attempts: 0,
        max_attempts,
        children: Seq::empty(),
    }
}

/// Returns a minimal root node for bootstrapping a new task tree.
pub fn default_tree_with_max_attempts(max_attempts: u32) -> (t: Node)
    ensures
        t@ == default_tree_spec(max_attempts),
{
    let t = Node {
        id: String::from_str("root"),
        order: 0,
        title: String::from_str("Root"),
        goal: String::from_str("Top-level goal (see .runner/GOAL.md)"),
        acceptance: Vec::new(),
        next: NodeNext::Decompose,
        passes: false,
        attempts: 0,
        max_attempts,
        children: Vec::new(),
    };
    proof {
        assert(strings_view(t.acceptance@) =~= Seq::<Seq<char>>::empty());
        assert(forest_view(t.children@) =~= Seq::<NodeV>::empty());
    }
    t
}

} // verus!
