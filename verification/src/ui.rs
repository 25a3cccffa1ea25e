//! The dashboard's change feed: file-system changes under `.runner/` become
//! change events, and each event becomes a payload for the browser.

use vstd::prelude::*;

use crate::io::paths::{join, join_path};
use crate::text::{chars_of, seq_lt, str_eq, string_from_chars, string_lt};
use crate::scan::slice_chars;
use crate::logic::strseq::{lemma_insert_str_at, sort_strs};
use crate::tree::strings_view;

verus! {

/// Something that changed under `.runner/`.
#[derive(Debug, Clone, PartialEq, Eq)]
pub enum ChangeEvent {
    TreeChanged,
    RunStateChanged,
    IterationAdded { run_id: String, iter: u32 },
    IterationCompleted { run_id: String, iter: u32 },
    StreamUpdated { run_id: String, iter: u32 },
    ConfigChanged,
    AssumptionsChanged,
    QuestionsChanged,
}

/// A file-system notification: whether it created or modified something,
/// and the paths it concerns.
#[derive(Debug, Clone)]
pub struct FsEvent {
    pub create_or_modify: bool,
    pub paths: Vec<String>,
}

/// The files the dashboard watches.
#[derive(Debug, Clone)]
pub struct WatchPaths {
    pub state_dir: String,
    pub iterations_dir: String,
    pub tree_path: String,
    pub run_state_path: String,
    pub config_path: String,
    pub assumptions_path: String,
    pub questions_path: String,
}

impl WatchPaths {
    /// The watched paths of the project at `project_dir`.
    pub fn new(project_dir: &str) -> (r: WatchPaths)
        ensures
            r.state_dir@ == join_path(join_path(project_dir@, ".runner"@), "state"@),
            r.iterations_dir@ == join_path(join_path(project_dir@, ".runner"@), "iterations"@),
            r.tree_path@ == join_path(r.state_dir@, "tree.json"@),
            r.run_state_path@ == join_path(r.state_dir@, "run_state.json"@),
            r.config_path@ == join_path(r.state_dir@, "config.toml"@),
            r.assumptions_path@ == join_path(r.state_dir@, "assumptions.md"@),
            r.questions_path@ == join_path(r.state_dir@, "questions.md"@),
    {
        let runner = join(project_dir, ".runner");
        let state_dir = join(runner.as_str(), "state");
        let iterations_dir = join(runner.as_str(), "iterations");
        WatchPaths {
            tree_path: join(state_dir.as_str(), "tree.json"),
            run_state_path: join(state_dir.as_str(), "run_state.json"),
            config_path: join(state_dir.as_str(), "config.toml"),
            assumptions_path: join(state_dir.as_str(), "assumptions.md"),
            questions_path: join(state_dir.as_str(), "questions.md"),
            state_dir,
            iterations_dir,
        }
    }
}

/// The pieces of `s` between `/` characters.
pub open spec fn split_slash(s: Seq<char>) -> Seq<Seq<char>>
    decreases s.len(),
{
    if s.len() == 0 {
        seq![Seq::<char>::empty()]
    } else if s.last() == '/' {
        split_slash(s.drop_last()).push(Seq::empty())
    } else {
        let p = split_slash(s.drop_last());
        p.update(p.len() - 1, p.last().push(s.last()))
    }
}

/// The pieces of `ps` that name something: neither empty nor `.`.
pub open spec fn named_parts(ps: Seq<Seq<char>>) -> Seq<Seq<char>>
    decreases ps.len(),
{
    if ps.len() == 0 {
        ps
    } else {
        let p = named_parts(ps.drop_last());
        if ps.last().len() == 0 || ps.last() == seq!['.'] {
            p
        } else {
            p.push(ps.last())
        }
    }
}

/// The components of a path, as `Path::components` yields them: a leading
/// `/` is the root, a leading `.` is kept, empty and other `.` components
/// are dropped.
pub open spec fn components(p: Seq<char>) -> Seq<Seq<char>> {
    let parts = split_slash(p);
    let head = if p.len() > 0 && p[0] == '/' {
        seq![seq!['/']]
    } else if parts.len() > 0 && parts[0] == seq!['.'] {
        seq![seq!['.']]
    } else {
        Seq::empty()
    };
    head + named_parts(parts)
}

proof fn lemma_split_slash_nonempty(s: Seq<char>)
    ensures
        split_slash(s).len() >= 1,
        s.len() > 0 && s[0] != '/' ==> split_slash(s)[0].len() > 0,
    decreases s.len(),
{
    if s.len() > 0 {
        lemma_split_slash_nonempty(s.drop_last());
        if s.len() > 1 {
            assert(s.drop_last()[0] == s[0]);
        } else {
            assert(s.drop_last() =~= Seq::<char>::empty());
        }
    }
}

fn components_of(p: &str) -> (r: Vec<Vec<char>>)
    ensures
        r@.map_values(|c: Vec<char>| c@) == components(p@),
{
    let v = chars_of(p);
    let mut parts: Vec<Vec<char>> = Vec::new();
    let mut named: Vec<Vec<char>> = Vec::new();
    let mut cur: Vec<char> = Vec::new();
    let mut i: usize = 0;
    let mut first: Option<Vec<char>> = None;
    while i < v.len()
        invariant
            v@ == p@,
            i <= v@.len(),
            split_slash(v@.take(i as int)).len() >= 1,
            cur@ == split_slash(v@.take(i as int)).last(),
            named@.map_values(|c: Vec<char>| c@) == named_parts(split_slash(v@.take(i as int)).drop_last()),
            match first {
                Some(f) => split_slash(v@.take(i as int)).len() > 1 && f@ == split_slash(v@.take(i as int))[0],
                None => split_slash(v@.take(i as int)).len() == 1,
            },
        decreases v@.len() - i,
    {
        let c = v[i];
        proof {
            assert(v@.take(i + 1).drop_last() =~= v@.take(i as int));
            assert(v@.take(i + 1).last() == c);
        }
        let ghost sp = split_slash(v@.take(i as int));
        let ghost before = named@;
        if c == '/' {
            if first.is_none() {
                first = Some(clone_chars(&cur));
            }
            let keep = !(cur.len() == 0 || (cur.len() == 1 && cur[0] == '.'));
            if keep {
                named.push(cur);
            }
            cur = Vec::new();
            proof {
                assert(split_slash(v@.take(i + 1)) == sp.push(Seq::<char>::empty()));
                assert(sp.push(Seq::<char>::empty()).drop_last() =~= sp);
                assert(sp =~= sp.drop_last().push(sp.last()));
                if sp.last() == seq!['.'] {
                    assert(!keep);
                }
                if !keep && sp.last().len() == 1 {
                    assert(sp.last() =~= seq!['.']);
                }
                if keep {
                    assert(named@.map_values(|c: Vec<char>| c@) =~= before.map_values(|c: Vec<char>| c@).push(sp.last()));
                } else {
                    assert(named@ == before);
                }
                assert(cur@ =~= Seq::<char>::empty());
            }
        } else {
            cur.push(c);
            proof {
                let q = sp.update(sp.len() - 1, sp.last().push(c));
                assert(split_slash(v@.take(i + 1)) == q);
                assert(q.drop_last() =~= sp.drop_last());
                if sp.len() > 1 {
                    assert(q[0] == sp[0]);
                }
            }
        }
        i = i + 1;
    }
    proof {
        assert(v@.take(v@.len() as int) =~= v@);
    }
    let ghost sp = split_slash(v@);
    let ghost before = named@;
    let keep = !(cur.len() == 0 || (cur.len() == 1 && cur[0] == '.'));
    let whole_first = match &first {
        Some(f) => clone_chars(f),
        None => clone_chars(&cur),
    };
    if keep {
        named.push(cur);
    }
    proof {
        assert(sp =~= sp.drop_last().push(sp.last()));
        if sp.last() == seq!['.'] {
            assert(!keep);
        }
        if !keep && sp.last().len() == 1 {
            assert(sp.last() =~= seq!['.']);
        }
        if keep {
            assert(named@.map_values(|c: Vec<char>| c@) =~= before.map_values(|c: Vec<char>| c@).push(sp.last()));
        } else {
            assert(named@ == before);
        }
        assert(whole_first@ == sp[0]);
    }
    let mut out: Vec<Vec<char>> = Vec::new();
    if v.len() > 0 && v[0] == '/' {
        let mut root: Vec<char> = Vec::new();
        root.push('/');
        out.push(root);
    } else if whole_first.len() == 1 && whole_first[0] == '.' {
        let mut cur_dir: Vec<char> = Vec::new();
        cur_dir.push('.');
        out.push(cur_dir);
    }
    let ghost head = out@.map_values(|c: Vec<char>| c@);
    proof {
        if v@.len() > 0 && v@[0] == '/' {
            assert(head =~= seq![seq!['/']]);
        } else if sp[0] == seq!['.'] {
            assert(head =~= seq![seq!['.']]);
        } else {
            if whole_first@.len() == 1 && whole_first@[0] == '.' {
                assert(whole_first@ =~= seq!['.']);
            }
            assert(head =~= Seq::<Seq<char>>::empty());
        }
    }
    let mut j: usize = 0;
    while j < named.len()
        invariant
            j <= named@.len(),
            out@.map_values(|c: Vec<char>| c@) == head + named@.map_values(|c: Vec<char>| c@).take(j as int),
        decreases named@.len() - j,
    {
        let ghost b = out@;
        out.push(clone_chars(&named[j]));
        proof {
            assert(out@.map_values(|c: Vec<char>| c@) =~= b.map_values(|c: Vec<char>| c@).push(named@[j as int]@));
            assert(named@.map_values(|c: Vec<char>| c@).take(j + 1) =~= named@.map_values(|c: Vec<char>| c@).take(j as int).push(named@[j as int]@));
        }
        j = j + 1;
    }
    proof {
        assert(named@.map_values(|c: Vec<char>| c@).take(named@.len() as int) =~= named@.map_values(|c: Vec<char>| c@));
    }
    out
}

fn clone_chars(v: &Vec<char>) -> (r: Vec<char>)
    ensures
        r@ == v@,
{
    slice_chars(v.as_slice(), 0, v.len())
}

fn chars_eq(a: &Vec<char>, b: &Vec<char>) -> (r: bool)
    ensures
        r == (a@ == b@),
{
    if a.len() != b.len() {
        return false;
    }
    let mut i: usize = 0;
    while i < a.len()
        invariant
            a@.len() == b@.len(),
            i <= a@.len(),
            forall|k: int| 0 <= k < i ==> a@[k] == b@[k],
        decreases a@.len() - i,
    {
        if a[i] != b[i] {
            return false;
        }
        i = i + 1;
    }
    proof {
        assert(a@ =~= b@);
    }
    true
}

fn comps_eq(a: &Vec<Vec<char>>, b: &Vec<Vec<char>>) -> (r: bool)
    ensures
        r == (a@.map_values(|c: Vec<char>| c@) == b@.map_values(|c: Vec<char>| c@)),
{
    if a.len() != b.len() {
        proof {
            assert(a@.map_values(|c: Vec<char>| c@).len() != b@.map_values(|c: Vec<char>| c@).len());
        }
        return false;
    }
    let mut i: usize = 0;
    while i < a.len()
        invariant
            a@.len() == b@.len(),
            i <= a@.len(),
            forall|k: int| 0 <= k < i ==> a@[k]@ == b@[k]@,
        decreases a@.len() - i,
    {
        if !chars_eq(&a[i], &b[i]) {
            proof {
                assert(a@.map_values(|c: Vec<char>| c@)[i as int] != b@.map_values(|c: Vec<char>| c@)[i as int]);
            }
            return false;
        }
        i = i + 1;
    }
    proof {
        assert(a@.map_values(|c: Vec<char>| c@) =~= b@.map_values(|c: Vec<char>| c@));
    }
    true
}

/// The value of a run of decimal digits.
pub open spec fn digits_value(s: Seq<char>) -> nat
    decreases s.len(),
{
    if s.len() == 0 {
        0
    } else {
        digits_value(s.drop_last()) * 10 + ((s.last() as u32) - ('0' as u32)) as nat
    }
}

/// Whether every character of `s` is a decimal digit.
pub open spec fn all_digits(s: Seq<char>) -> bool {
    forall|i: int| 0 <= i < s.len() ==> '0' <= #[trigger] s[i] && s[i] <= '9'
}

/// `s` read as a `u32` (as `str::parse::<u32>`): an optional `+`, then
/// digits, within range.
pub open spec fn parse_u32(s: Seq<char>) -> Option<u32> {
    let d = if s.len() > 0 && s[0] == '+' { s.drop_first() } else { s };
    if d.len() > 0 && all_digits(d) && digits_value(d) <= u32::MAX {
        Some(digits_value(d) as u32)
    } else {
        None
    }
}

proof fn lemma_digits_value_grows(s: Seq<char>, k: int)
    requires
        0 <= k <= s.len(),
        all_digits(s),
    ensures
        digits_value(s.take(k)) <= digits_value(s),
    decreases s.len() - k,
{
    if k < s.len() {
        lemma_digits_value_grows(s.drop_last(), k);
        assert(s.drop_last().take(k) =~= s.take(k));
        assert(all_digits(s.drop_last())) by {
            assert forall|i: int| 0 <= i < s.drop_last().len() implies '0' <= #[trigger] s.drop_last()[i] && s.drop_last()[i] <= '9' by {
                assert(s.drop_last()[i] == s[i]);
            }
        }
    } else {
        assert(s.take(k) =~= s);
    }
}

fn parse_u32_chars(s: &Vec<char>) -> (r: Option<u32>)
    ensures
        r == parse_u32(s@),
{
    let start: usize = if s.len() > 0 && s[0] == '+' { 1 } else { 0 };
    let ghost d = if s@.len() > 0 && s@[0] == '+' { s@.drop_first() } else { s@ };
    proof {
        assert(s@.skip(start as int) =~= d);
    }
    if start >= s.len() {
        return None;
    }
    let mut value: u64 = 0;
    let mut i = start;
    proof {
        assert(d.take(0) =~= Seq::<char>::empty());
    }
    while i < s.len()
        invariant
            start <= i <= s@.len(),
            d == s@.skip(start as int),
            d == (if s@.len() > 0 && s@[0] == '+' { s@.drop_first() } else { s@ }),
            value == digits_value(d.take(i - start)),
            value <= u32::MAX,
            all_digits(d.take(i - start)),
        decreases s@.len() - i,
    {
        let c = s[i];
        proof {
            assert(d.take(i - start + 1).drop_last() =~= d.take(i - start));
            assert(d.take(i - start + 1).last() == c);
            assert(d[i - start] == c);
        }
        if !('0' <= c && c <= '9') {
            proof {
                assert(!('0' <= d[i - start] && d[i - start] <= '9'));
                assert(!all_digits(d));
            }
            return None;
        }
        let digit = (c as u32 - '0' as u32) as u64;
        let next = value * 10 + digit;
        proof {
            assert(digits_value(d.take(i - start + 1)) == value * 10 + digit);
        }
        if next > 4294967295u64 {
            proof {
                assert(all_digits(d.take(i - start + 1))) by {
                    assert forall|q: int| 0 <= q < d.take(i - start + 1).len() implies '0' <= #[trigger] d.take(i - start + 1)[q] && d.take(i - start + 1)[q] <= '9' by {
                        if q < i - start {
                            assert(d.take(i - start + 1)[q] == d.take(i - start)[q]);
                        }
                    }
                }
                if all_digits(d) {
                    lemma_digits_value_grows(d, i - start + 1);
                }
            }
            return None;
        }
        value = next;
        proof {
            assert(all_digits(d.take(i - start + 1))) by {
                assert forall|q: int| 0 <= q < d.take(i - start + 1).len() implies '0' <= #[trigger] d.take(i - start + 1)[q] && d.take(i - start + 1)[q] <= '9' by {
                    if q < i - start {
                        assert(d.take(i - start + 1)[q] == d.take(i - start)[q]);
                    }
                }
            }
        }
        i = i + 1;
    }
    proof {
        assert(d.take(i - start) =~= d);
    }
    Some(value as u32)
}

/// The run and iteration that `path` belongs to under `iter_dir`:
/// `<iter_dir>/<run_id>/<iter>/...` with `iter` a `u32`.
pub open spec fn iteration_of(iter_dir: Seq<char>, path: Seq<char>) -> Option<(Seq<char>, u32)> {
    let base = components(iter_dir);
    let all = components(path);
    if base.len() <= all.len() && all.take(base.len() as int) == base {
        let rel = all.skip(base.len() as int);
        if rel.len() >= 2 {
            match parse_u32(rel[1]) {
                Some(n) => Some((rel[0], n)),
                None => None,
            }
        } else {
            None
        }
    } else {
        None
    }
}

fn is_prefix(base: &Vec<Vec<char>>, all: &Vec<Vec<char>>) -> (r: bool)
    ensures
        r == (base@.len() <= all@.len() && all@.map_values(|c: Vec<char>| c@).take(base@.len() as int)
            == base@.map_values(|c: Vec<char>| c@)),
{
    if base.len() > all.len() {
        return false;
    }
    let mut i: usize = 0;
    while i < base.len()
        invariant
            base@.len() <= all@.len(),
            i <= base@.len(),
            forall|k: int| 0 <= k < i ==> all@[k]@ == base@[k]@,
        decreases base@.len() - i,
    {
        if !chars_eq(&all[i], &base[i]) {
            proof {
                assert(all@.map_values(|c: Vec<char>| c@).take(base@.len() as int)[i as int] != base@.map_values(|c: Vec<char>| c@)[i as int]);
            }
            return false;
        }
        i = i + 1;
    }
    proof {
        assert(all@.map_values(|c: Vec<char>| c@).take(base@.len() as int) =~= base@.map_values(|c: Vec<char>| c@));
    }
    true
}

/// The run id and iteration of a path under the iterations directory.
pub fn parse_iteration_path(iter_dir: &str, path: &str) -> (r: Option<(String, u32)>)
    ensures
        match r {
            Some((run, n)) => iteration_of(iter_dir@, path@) == Some((run@, n)),
            None => iteration_of(iter_dir@, path@) is None,
        },
{
    let base = components_of(iter_dir);
    let all = components_of(path);
    if !is_prefix(&base, &all) {
        return None;
    }
    let k = base.len();
    if all.len() - k < 2 {
        proof {
            assert(all@.map_values(|c: Vec<char>| c@).skip(k as int).len() < 2);
        }
        return None;
    }
    proof {
        let rel = all@.map_values(|c: Vec<char>| c@).skip(k as int);
        assert(rel[0] == all@[k as int]@);
        assert(rel[1] == all@[k + 1]@);
    }
    match parse_u32_chars(&all[k + 1]) {
        Some(n) => Some((string_from_chars(all[k].as_slice()), n)),
        None => None,
    }
}

/// A run id and iteration.
pub type IterKey = (Seq<char>, u32);

/// The models of `(run id, iteration)` pairs.
pub open spec fn keys_view(v: Seq<(String, u32)>) -> Seq<IterKey> {
    v.map_values(|k: (String, u32)| (k.0@, k.1))
}

/// `(String, u32)` order: by run id, then iteration.
pub open spec fn key_lt(a: IterKey, b: IterKey) -> bool {
    seq_lt(a.0, b.0) || (a.0 == b.0 && a.1 < b.1)
}

/// Inserts `x` before the first element greater than it.
pub open spec fn insert_key(s: Seq<IterKey>, x: IterKey) -> Seq<IterKey>
    decreases s.len(),
{
    if s.len() == 0 {
        seq![x]
    } else if key_lt(x, s[0]) {
        seq![x] + s
    } else {
        seq![s[0]] + insert_key(s.drop_first(), x)
    }
}

/// `s` sorted.
pub open spec fn sort_keys(s: Seq<IterKey>) -> Seq<IterKey>
    decreases s.len(),
{
    if s.len() == 0 {
        s
    } else {
        insert_key(sort_keys(s.drop_last()), s.last())
    }
}

/// `s` without repeats, first occurrences kept.
pub open spec fn dedup_keys(s: Seq<IterKey>) -> Seq<IterKey>
    decreases s.len(),
{
    if s.len() == 0 {
        s
    } else {
        let d = dedup_keys(s.drop_last());
        if d.contains(s.last()) {
            d
        } else {
            d.push(s.last())
        }
    }
}

proof fn lemma_insert_key_at(s: Seq<IterKey>, x: IterKey, j: int)
    requires
        0 <= j <= s.len(),
        forall|k: int| 0 <= k < j ==> !key_lt(x, #[trigger] s[k]),
        j == s.len() || key_lt(x, s[j]),
    ensures
        insert_key(s, x) == s.insert(j, x),
    decreases j,
{
    if j == 0 {
        if s.len() == 0 {
            assert(s.insert(0, x) =~= seq![x]);
        } else {
            assert(s.insert(0, x) =~= seq![x] + s);
        }
    } else {
        assert forall|k: int| 0 <= k < j - 1 implies !key_lt(x, #[trigger] s.drop_first()[k]) by {
            assert(s.drop_first()[k] == s[k + 1]);
        }
        lemma_insert_key_at(s.drop_first(), x, j - 1);
        assert(seq![s[0]] + s.drop_first().insert(j - 1, x) =~= s.insert(j, x));
    }
}

fn key_lt_exec(a: &(String, u32), b: &(String, u32)) -> (r: bool)
    ensures
        r == key_lt((a.0@, a.1), (b.0@, b.1)),
{
    string_lt(&a.0, &b.0) || (str_eq(a.0.as_str(), b.0.as_str()) && a.1 < b.1)
}

fn sort_key_vec(v: Vec<(String, u32)>) -> (r: Vec<(String, u32)>)
    ensures
        keys_view(r@) == sort_keys(keys_view(v@)),
{
    let ghost sv = keys_view(v@);
    let n = v.len();
    let mut rest = v;
    let mut out: Vec<(String, u32)> = Vec::new();
    let mut k: usize = 0;
    proof {
        assert(sv.take(0) =~= Seq::<IterKey>::empty());
        assert(keys_view(out@) =~= Seq::<IterKey>::empty());
        assert(rest@.subrange(0, n as int) =~= rest@);
    }
    let ghost orig = rest@;
    while rest.len() > 0
        invariant
            orig.len() == n,
            sv == keys_view(orig),
            k <= n,
            rest@ == orig.subrange(k as int, n as int),
            rest@.len() == n - k,
            keys_view(out@) == sort_keys(sv.take(k as int)),
        decreases n - k,
    {
        let x = rest.remove(0);
        proof {
            assert(x == orig[k as int]);
        }
        let mut j: usize = 0;
        while j < out.len() && !key_lt_exec(&x, &out[j])
            invariant
                j <= out@.len(),
                forall|i: int| 0 <= i < j ==> !key_lt((x.0@, x.1), #[trigger] keys_view(out@)[i]),
            decreases out@.len() - j,
        {
            j = j + 1;
        }
        proof {
            lemma_insert_key_at(keys_view(out@), (x.0@, x.1), j as int);
        }
        let ghost before = out@;
        out.insert(j, x);
        proof {
            assert(keys_view(out@) =~= keys_view(before).insert(j as int, (x.0@, x.1)));
            assert(sv.take(k + 1).drop_last() =~= sv.take(k as int));
            assert(sv.take(k + 1).last() == (orig[k as int].0@, orig[k as int].1));
            assert(rest@ =~= orig.subrange(k + 1, n as int));
        }
        k = k + 1;
    }
    proof {
        assert(sv.take(n as int) =~= sv);
    }
    out
}

fn contains_key(v: &Vec<(String, u32)>, key: &(String, u32)) -> (r: bool)
    ensures
        r == keys_view(v@).contains((key.0@, key.1)),
{
    let mut i: usize = 0;
    while i < v.len()
        invariant
            i <= v@.len(),
            forall|k: int| 0 <= k < i ==> keys_view(v@)[k] != (key.0@, key.1),
        decreases v@.len() - i,
    {
        if str_eq(v[i].0.as_str(), key.0.as_str()) && v[i].1 == key.1 {
            proof {
                assert(keys_view(v@)[i as int] == (key.0@, key.1));
            }
            return true;
        }
        i = i + 1;
    }
    false
}

fn push_key(v: &mut Vec<(String, u32)>, key: &(String, u32))
    ensures
        keys_view(final(v)@) == keys_view(old(v)@).push((key.0@, key.1)),
{
    v.push((key.0.clone(), key.1));
    proof {
        assert(keys_view(v@) =~= keys_view(old(v)@).push((key.0@, key.1)));
    }
}

fn dedup_key_vec(v: &Vec<(String, u32)>) -> (r: Vec<(String, u32)>)
    ensures
        keys_view(r@) == dedup_keys(keys_view(v@)),
{
    let ghost sv = keys_view(v@);
    let mut out: Vec<(String, u32)> = Vec::new();
    let mut i: usize = 0;
    proof {
        assert(sv.take(0) =~= Seq::<IterKey>::empty());
        assert(keys_view(out@) =~= Seq::<IterKey>::empty());
    }
    while i < v.len()
        invariant
            i <= v@.len(),
            sv == keys_view(v@),
            keys_view(out@) == dedup_keys(sv.take(i as int)),
        decreases v@.len() - i,
    {
        proof {
            assert(sv.take(i + 1).drop_last() =~= sv.take(i as int));
            assert(sv.take(i + 1).last() == (v@[i as int].0@, v@[i as int].1));
        }
        if !contains_key(&out, &v[i]) {
            push_key(&mut out, &v[i]);
        }
        i = i + 1;
    }
    proof {
        assert(sv.take(v@.len() as int) =~= sv);
    }
    out
}

/// What the watcher has noted so far in a batch.
pub struct WatchNotes {
    pub tree: bool,
    pub run_state: bool,
    pub config: bool,
    pub assumptions: bool,
    pub questions: bool,
    pub added: Seq<IterKey>,
    pub completed: Seq<IterKey>,
    pub streamed: Seq<IterKey>,
    pub known: Seq<IterKey>,
}

/// The component lists of the watched paths.
pub struct WatchComps {
    pub tree: Seq<Seq<char>>,
    pub run_state: Seq<Seq<char>>,
    pub config: Seq<Seq<char>>,
    pub assumptions: Seq<Seq<char>>,
    pub questions: Seq<Seq<char>>,
    pub iterations: Seq<Seq<char>>,
    pub iterations_dir: Seq<char>,
}

/// The component lists of `w`.
pub open spec fn watch_comps(w: WatchPaths) -> WatchComps {
    WatchComps {
        tree: components(w.tree_path@),
        run_state: components(w.run_state_path@),
        config: components(w.config_path@),
        assumptions: components(w.assumptions_path@),
        questions: components(w.questions_path@),
        iterations: components(w.iterations_dir@),
        iterations_dir: w.iterations_dir@,
    }
}

/// `stream.jsonl`.
pub open spec fn stream_file() -> Seq<char> {
    "stream.jsonl"@
}

/// `meta.json`.
pub open spec fn meta_file() -> Seq<char> {
    "meta.json"@
}

/// The notes after a changed path `p`.
pub open spec fn note_path(st: WatchNotes, w: WatchComps, p: Seq<char>) -> WatchNotes {
    let c = components(p);
    if c == w.tree {
        WatchNotes { tree: true, ..st }
    } else if c == w.run_state {
        WatchNotes { run_state: true, ..st }
    } else if c == w.config {
        WatchNotes { config: true, ..st }
    } else if c == w.assumptions {
        WatchNotes { assumptions: true, ..st }
    } else if c == w.questions {
        WatchNotes { questions: true, ..st }
    } else if w.iterations.len() <= c.len() && c.take(w.iterations.len() as int) == w.iterations {
        match iteration_of(w.iterations_dir, p) {
            None => st,
            Some(key) => {
                let st2 = if st.known.contains(key) {
                    st
                } else {
                    WatchNotes { known: st.known.push(key), added: st.added.push(key), ..st }
                };
                if c.last() == stream_file() {
                    WatchNotes { streamed: st2.streamed.push(key), ..st2 }
                } else if c.last() == meta_file() {
                    WatchNotes { completed: st2.completed.push(key), ..st2 }
                } else {
                    st2
                }
            },
        }
    } else {
        st
    }
}

/// The notes after the changed paths `ps`, in order.
pub open spec fn note_paths(st: WatchNotes, w: WatchComps, ps: Seq<Seq<char>>) -> WatchNotes
    decreases ps.len(),
{
    if ps.len() == 0 {
        st
    } else {
        note_path(note_paths(st, w, ps.drop_last()), w, ps.last())
    }
}

/// The model of a notification.
pub open spec fn fs_event_view(e: FsEvent) -> (bool, Seq<Seq<char>>) {
    (e.create_or_modify, crate::tree::strings_view(e.paths@))
}

/// The notes after the notifications `evs`; only creations and
/// modifications count.
pub open spec fn note_events(st: WatchNotes, w: WatchComps, evs: Seq<(bool, Seq<Seq<char>>)>) -> WatchNotes
    decreases evs.len(),
{
    if evs.len() == 0 {
        st
    } else {
        let before = note_events(st, w, evs.drop_last());
        if evs.last().0 {
            note_paths(before, w, evs.last().1)
        } else {
            before
        }
    }
}

/// The model of a change event: a kind number, a run id and an iteration.
pub open spec fn change_view(e: ChangeEvent) -> (int, Seq<char>, u32) {
    match e {
        ChangeEvent::TreeChanged => (0, Seq::empty(), 0),
        ChangeEvent::RunStateChanged => (1, Seq::empty(), 0),
        ChangeEvent::IterationAdded { run_id, iter } => (2, run_id@, iter),
        ChangeEvent::IterationCompleted { run_id, iter } => (3, run_id@, iter),
        ChangeEvent::StreamUpdated { run_id, iter } => (4, run_id@, iter),
        ChangeEvent::ConfigChanged => (5, Seq::empty(), 0),
        ChangeEvent::AssumptionsChanged => (6, Seq::empty(), 0),
        ChangeEvent::QuestionsChanged => (7, Seq::empty(), 0),
    }
}

/// `kind` events for each key, in order.
pub open spec fn keyed_events(kind: int, ks: Seq<IterKey>) -> Seq<(int, Seq<char>, u32)> {
    ks.map_values(|k: IterKey| (kind, k.0, k.1))
}

/// One event when `b` holds.
pub open spec fn flag_event(b: bool, kind: int) -> Seq<(int, Seq<char>, u32)> {
    if b { seq![(kind, Seq::<char>::empty(), 0u32)] } else { Seq::empty() }
}

/// The events a batch broadcasts: file changes first, then new iterations,
/// completed iterations and stream updates, each sorted and each once.
pub open spec fn batch_events(st: WatchNotes) -> Seq<(int, Seq<char>, u32)> {
    flag_event(st.tree, 0) + flag_event(st.run_state, 1) + flag_event(st.config, 5) + flag_event(st.assumptions, 6)
        + flag_event(st.questions, 7) + keyed_events(2, sort_keys(st.added)) + keyed_events(
        3,
        sort_keys(dedup_keys(st.completed)),
    ) + keyed_events(4, sort_keys(dedup_keys(st.streamed)))
}

/// Notes on nothing yet, with the iterations already known.
pub open spec fn fresh_notes(known: Seq<IterKey>) -> WatchNotes {
    WatchNotes {
        tree: false,
        run_state: false,
        config: false,
        assumptions: false,
        questions: false,
        added: Seq::empty(),
        completed: Seq::empty(),
        streamed: Seq::empty(),
        known,
    }
}

struct Notes {
    tree: bool,
    run_state: bool,
    config: bool,
    assumptions: bool,
    questions: bool,
    added: Vec<(String, u32)>,
    completed: Vec<(String, u32)>,
    streamed: Vec<(String, u32)>,
}

spec fn notes_model(n: Notes, known: Seq<IterKey>) -> WatchNotes {
    WatchNotes {
        tree: n.tree,
        run_state: n.run_state,
        config: n.config,
        assumptions: n.assumptions,
        questions: n.questions,
        added: keys_view(n.added@),
        completed: keys_view(n.completed@),
        streamed: keys_view(n.streamed@),
        known,
    }
}

struct Comps {
    tree: Vec<Vec<char>>,
    run_state: Vec<Vec<char>>,
    config: Vec<Vec<char>>,
    assumptions: Vec<Vec<char>>,
    questions: Vec<Vec<char>>,
    iterations: Vec<Vec<char>>,
}

spec fn comps_view(v: Vec<Vec<char>>) -> Seq<Seq<char>> {
    v@.map_values(|c: Vec<char>| c@)
}

fn note_path_exec(
    notes: &mut Notes,
    known: &mut Vec<(String, u32)>,
    comps: &Comps,
    watch: &WatchPaths,
    p: &str,
)
    requires
        comps_view(comps.tree) == components(watch.tree_path@),
        comps_view(comps.run_state) == components(watch.run_state_path@),
        comps_view(comps.config) == components(watch.config_path@),
        comps_view(comps.assumptions) == components(watch.assumptions_path@),
        comps_view(comps.questions) == components(watch.questions_path@),
        comps_view(comps.iterations) == components(watch.iterations_dir@),
    ensures
        notes_model(*final(notes), keys_view(final(known)@)) == note_path(
            notes_model(*old(notes), keys_view(old(known)@)),
            watch_comps(*watch),
            p@,
        ),
{
    let c = components_of(p);
    if comps_eq(&c, &comps.tree) {
        notes.tree = true;
    } else if comps_eq(&c, &comps.run_state) {
        notes.run_state = true;
    } else if comps_eq(&c, &comps.config) {
        notes.config = true;
    } else if comps_eq(&c, &comps.assumptions) {
        notes.assumptions = true;
    } else if comps_eq(&c, &comps.questions) {
        notes.questions = true;
    } else if is_prefix(&comps.iterations, &c) {
        match parse_iteration_path(watch.iterations_dir.as_str(), p) {
            None => {},
            Some(key) => {
                if !contains_key(known, &key) {
                    push_key(known, &key);
                    push_key(&mut notes.added, &key);
                }
                proof {
                    assert(comps_view(c).len() > 0) by {
                        let rel = comps_view(c).skip(comps_view(comps.iterations).len() as int);
                        assert(rel.len() >= 2);
                    }
                }
                let n = c.len();
                let last = string_from_chars(c[n - 1].as_slice());
                proof {
                    assert(last@ == comps_view(c).last());
                }
                if str_eq(last.as_str(), "stream.jsonl") {
                    push_key(&mut notes.streamed, &key);
                } else if str_eq(last.as_str(), "meta.json") {
                    push_key(&mut notes.completed, &key);
                }
            },
        }
    }
}

/// The events a batch of notifications raises, given the iterations already
/// known; newly seen iterations become known.
pub fn process_events(watch: &WatchPaths, events: &Vec<FsEvent>, known: &mut Vec<(String, u32)>) -> (r: Vec<ChangeEvent>)
    ensures
        ({
            let st = note_events(fresh_notes(keys_view(old(known)@)), watch_comps(*watch), events@.map_values(
                |e: FsEvent| fs_event_view(e),
            ));
            &&& r@.map_values(|e: ChangeEvent| change_view(e)) == batch_events(st)
            &&& keys_view(final(known)@) == st.known
        }),
{
    let comps = Comps {
        tree: components_of(watch.tree_path.as_str()),
        run_state: components_of(watch.run_state_path.as_str()),
        config: components_of(watch.config_path.as_str()),
        assumptions: components_of(watch.assumptions_path.as_str()),
        questions: components_of(watch.questions_path.as_str()),
        iterations: components_of(watch.iterations_dir.as_str()),
    };
    let mut notes = Notes {
        tree: false,
        run_state: false,
        config: false,
        assumptions: false,
        questions: false,
        added: Vec::new(),
        completed: Vec::new(),
        streamed: Vec::new(),
    };
    let ghost evs = events@.map_values(|e: FsEvent| fs_event_view(e));
    let ghost w = watch_comps(*watch);
    let ghost start = fresh_notes(keys_view(known@));
    proof {
        assert(keys_view(notes.added@) =~= Seq::<IterKey>::empty());
        assert(keys_view(notes.completed@) =~= Seq::<IterKey>::empty());
        assert(keys_view(notes.streamed@) =~= Seq::<IterKey>::empty());
        assert(notes_model(notes, keys_view(known@)) == start);
        assert(evs.take(0) =~= Seq::<(bool, Seq<Seq<char>>)>::empty());
    }
    let mut i: usize = 0;
    while i < events.len()
        invariant
            i <= events@.len(),
            evs == events@.map_values(|e: FsEvent| fs_event_view(e)),
            w == watch_comps(*watch),
            comps_view(comps.tree) == components(watch.tree_path@),
            comps_view(comps.run_state) == components(watch.run_state_path@),
            comps_view(comps.config) == components(watch.config_path@),
            comps_view(comps.assumptions) == components(watch.assumptions_path@),
            comps_view(comps.questions) == components(watch.questions_path@),
            comps_view(comps.iterations) == components(watch.iterations_dir@),
            notes_model(notes, keys_view(known@)) == note_events(start, w, evs.take(i as int)),
        decreases events@.len() - i,
    {
        proof {
            assert(evs.take(i + 1).drop_last() =~= evs.take(i as int));
            assert(evs.take(i + 1).last() == fs_event_view(events@[i as int]));
        }
        if events[i].create_or_modify {
            let ghost base = notes_model(notes, keys_view(known@));
            let ghost ps = crate::tree::strings_view(events@[i as int].paths@);
            let mut j: usize = 0;
            proof {
                assert(ps.take(0) =~= Seq::<Seq<char>>::empty());
            }
            while j < events[i].paths.len()
                invariant
                    i < events@.len(),
                    j <= events@[i as int].paths@.len(),
                    ps == crate::tree::strings_view(events@[i as int].paths@),
                    w == watch_comps(*watch),
                    comps_view(comps.tree) == components(watch.tree_path@),
                    comps_view(comps.run_state) == components(watch.run_state_path@),
                    comps_view(comps.config) == components(watch.config_path@),
                    comps_view(comps.assumptions) == components(watch.assumptions_path@),
                    comps_view(comps.questions) == components(watch.questions_path@),
                    comps_view(comps.iterations) == components(watch.iterations_dir@),
                    notes_model(notes, keys_view(known@)) == note_paths(base, w, ps.take(j as int)),
                decreases events@[i as int].paths@.len() - j,
            {
                proof {
                    assert(ps.take(j + 1).drop_last() =~= ps.take(j as int));
                    assert(ps.take(j + 1).last() == events@[i as int].paths@[j as int]@);
                }
                note_path_exec(&mut notes, known, &comps, watch, events[i].paths[j].as_str());
                j = j + 1;
            }
            proof {
                assert(ps.take(ps.len() as int) =~= ps);
            }
        }
        i = i + 1;
    }
    proof {
        assert(evs.take(events@.len() as int) =~= evs);
    }
    let ghost st = notes_model(notes, keys_view(known@));
    let mut out: Vec<ChangeEvent> = Vec::new();
    if notes.tree {
        out.push(ChangeEvent::TreeChanged);
    }
    if notes.run_state {
        out.push(ChangeEvent::RunStateChanged);
    }
    if notes.config {
        out.push(ChangeEvent::ConfigChanged);
    }
    if notes.assumptions {
        out.push(ChangeEvent::AssumptionsChanged);
    }
    if notes.questions {
        out.push(ChangeEvent::QuestionsChanged);
    }
    proof {
        assert(out@.map_values(|e: ChangeEvent| change_view(e)) =~= flag_event(st.tree, 0) + flag_event(st.run_state, 1)
            + flag_event(st.config, 5) + flag_event(st.assumptions, 6) + flag_event(st.questions, 7));
    }
    let added = sort_key_vec(notes.added);
    push_keyed(&mut out, &added, 2);
    let completed = sort_key_vec(dedup_key_vec(&notes.completed));
    push_keyed(&mut out, &completed, 3);
    let streamed = sort_key_vec(dedup_key_vec(&notes.streamed));
    push_keyed(&mut out, &streamed, 4);
    out
}

fn push_keyed(out: &mut Vec<ChangeEvent>, keys: &Vec<(String, u32)>, kind: u8)
    requires
        2 <= kind <= 4,
    ensures
        final(out)@.map_values(|e: ChangeEvent| change_view(e)) == old(out)@.map_values(|e: ChangeEvent| change_view(e))
            + keyed_events(kind as int, keys_view(keys@)),
{
    let ghost start = out@.map_values(|e: ChangeEvent| change_view(e));
    let mut i: usize = 0;
    proof {
        assert(keyed_events(kind as int, keys_view(keys@)).take(0) =~= Seq::<(int, Seq<char>, u32)>::empty());
        assert(start + Seq::<(int, Seq<char>, u32)>::empty() =~= start);
    }
    while i < keys.len()
        invariant
            2 <= kind <= 4,
            i <= keys@.len(),
            out@.map_values(|e: ChangeEvent| change_view(e)) == start + keyed_events(kind as int, keys_view(keys@)).take(i as int),
        decreases keys@.len() - i,
    {
        let run_id = keys[i].0.clone();
        let iter = keys[i].1;
        let e = if kind == 2 {
            ChangeEvent::IterationAdded { run_id, iter }
        } else if kind == 3 {
            ChangeEvent::IterationCompleted { run_id, iter }
        } else {
            ChangeEvent::StreamUpdated { run_id, iter }
        };
        let ghost before = out@;
        out.push(e);
        proof {
            assert(out@.map_values(|e: ChangeEvent| change_view(e)) =~= before.map_values(|e: ChangeEvent| change_view(e)).push(change_view(e)));
            assert(keyed_events(kind as int, keys_view(keys@)).take(i + 1) =~= keyed_events(kind as int, keys_view(keys@)).take(i as int).push((kind as int, keys@[i as int].0@, keys@[i as int].1)));
        }
        i = i + 1;
    }
    proof {
        assert(keyed_events(kind as int, keys_view(keys@)).take(keys@.len() as int) =~= keyed_events(kind as int, keys_view(keys@)));
    }
}

/// The payload sent to the browser for a change.
#[derive(Debug, Clone, PartialEq, Eq)]
pub struct SsePayload {
    pub event_type: String,
    pub run_id: Option<String>,
    pub iter: Option<u32>,
}

/// The type name of a change event.
pub open spec fn event_type_name(e: ChangeEvent) -> Seq<char> {
    match e {
        ChangeEvent::TreeChanged => "tree_changed"@,
        ChangeEvent::RunStateChanged => "run_state_changed"@,
        ChangeEvent::IterationAdded { .. } => "iteration_added"@,
        ChangeEvent::IterationCompleted { .. } => "iteration_completed"@,
        ChangeEvent::StreamUpdated { .. } => "stream_updated"@,
        ChangeEvent::ConfigChanged => "config_changed"@,
        ChangeEvent::AssumptionsChanged => "assumptions_changed"@,
        ChangeEvent::QuestionsChanged => "questions_changed"@,
    }
}

impl SsePayload {
    /// The payload for `event`: its type name, and its run and iteration when it has them.
    pub fn from_event(event: &ChangeEvent) -> (r: SsePayload)
        ensures
            r.event_type@ == event_type_name(*event),
            match *event {
                ChangeEvent::IterationAdded { run_id, iter } | ChangeEvent::IterationCompleted { run_id, iter }
                | ChangeEvent::StreamUpdated { run_id, iter } => r.run_id == Some(run_id) && r.iter == Some(iter),
                _ => r.run_id is None && r.iter is None,
            },
    {
        match event {
            ChangeEvent::TreeChanged => SsePayload { event_type: String::from_str("tree_changed"), run_id: None, iter: None },
            ChangeEvent::RunStateChanged => SsePayload {
                event_type: String::from_str("run_state_changed"),
                run_id: None,
                iter: None,
            },
            ChangeEvent::IterationAdded { run_id, iter } => SsePayload {
                event_type: String::from_str("iteration_added"),
                run_id: Some(run_id.clone()),
                iter: Some(*iter),
            },
            ChangeEvent::IterationCompleted { run_id, iter } => SsePayload {
                event_type: String::from_str("iteration_completed"),
                run_id: Some(run_id.clone()),
                iter: Some(*iter),
            },
            ChangeEvent::StreamUpdated { run_id, iter } => SsePayload {
                event_type: String::from_str("stream_updated"),
                run_id: Some(run_id.clone()),
                iter: Some(*iter),
            },
            ChangeEvent::ConfigChanged => SsePayload { event_type: String::from_str("config_changed"), run_id: None, iter: None },
            ChangeEvent::AssumptionsChanged => SsePayload {
                event_type: String::from_str("assumptions_changed"),
                run_id: None,
                iter: None,
            },
            ChangeEvent::QuestionsChanged => SsePayload {
                event_type: String::from_str("questions_changed"),
                run_id: None,
                iter: None,
            },
        }
    }
}


/// A run and its iterations, as the dashboard lists them.
#[derive(Debug, Clone, PartialEq, Eq)]
pub struct RunIterations {
    pub run_id: String,
    pub iterations: Vec<u32>,
}

/// The iteration numbers among directory `names`, in order; names that are
/// not a `u32` are skipped.
pub open spec fn parsed_iterations(names: Seq<Seq<char>>) -> Seq<u32>
    decreases names.len(),
{
    if names.len() == 0 {
        Seq::empty()
    } else {
        let head = parsed_iterations(names.drop_last());
        match parse_u32(names.last()) {
            Some(n) => head.push(n),
            None => head,
        }
    }
}

/// Inserts `x` after the elements not greater than it.
pub open spec fn insert_u32(s: Seq<u32>, x: u32) -> Seq<u32>
    decreases s.len(),
{
    if s.len() == 0 {
        seq![x]
    } else if x < s[0] {
        seq![x] + s
    } else {
        seq![s[0]] + insert_u32(s.drop_first(), x)
    }
}

/// `s` in ascending order.
pub open spec fn sort_u32s(s: Seq<u32>) -> Seq<u32>
    decreases s.len(),
{
    if s.len() == 0 {
        s
    } else {
        insert_u32(sort_u32s(s.drop_last()), s.last())
    }
}

proof fn lemma_insert_u32_at(s: Seq<u32>, x: u32, j: int)
    requires
        0 <= j <= s.len(),
        forall|k: int| 0 <= k < j ==> !(x < #[trigger] s[k]),
        j == s.len() || x < s[j],
    ensures
        insert_u32(s, x) == s.insert(j, x),
    decreases j,
{
    if j == 0 {
        if s.len() == 0 {
            assert(s.insert(0, x) =~= seq![x]);
        } else {
            assert(s.insert(0, x) =~= seq![x] + s);
        }
    } else {
        assert forall|k: int| 0 <= k < j - 1 implies !(x < #[trigger] s.drop_first()[k]) by {
            assert(s.drop_first()[k] == s[k + 1]);
        }
        lemma_insert_u32_at(s.drop_first(), x, j - 1);
        assert(seq![s[0]] + s.drop_first().insert(j - 1, x) =~= s.insert(j, x));
    }
}

/// The iteration numbers among `names`, ascending.
pub fn iteration_numbers(names: &Vec<String>) -> (r: Vec<u32>)
    ensures
        r@ == sort_u32s(parsed_iterations(strings_view(names@))),
{
    let mut out: Vec<u32> = Vec::new();
    let mut i: usize = 0;
    let ghost mut parsed: Seq<u32> = Seq::empty();
    while i < names.len()
        invariant
            i <= names@.len(),
            parsed == parsed_iterations(strings_view(names@.take(i as int))),
            out@ == sort_u32s(parsed),
        decreases names@.len() - i,
    {
        let v = chars_of(names[i].as_str());
        let p = parse_u32_chars(&v);
        proof {
            let t = strings_view(names@.take(i + 1));
            assert(t.drop_last() =~= strings_view(names@.take(i as int)));
            assert(t.last() == names@[i as int]@);
        }
        match p {
            Some(n) => {
                let mut j: usize = 0;
                while j < out.len() && !(n < out[j])
                    invariant
                        j <= out@.len(),
                        forall|a: int| 0 <= a < j ==> !(n < #[trigger] out@[a]),
                    decreases out@.len() - j,
                {
                    j = j + 1;
                }
                proof {
                    lemma_insert_u32_at(out@, n, j as int);
                    assert(parsed.push(n).drop_last() =~= parsed);
                }
                out.insert(j, n);
                proof {
                    parsed = parsed.push(n);
                }
            },
            None => {},
        }
        i = i + 1;
    }
    proof {
        assert(names@.take(names@.len() as int) =~= names@);
    }
    out
}

/// The run ids of `runs`, in order.
pub open spec fn run_ids(runs: Seq<RunIterations>) -> Seq<Seq<char>> {
    runs.map_values(|r: RunIterations| r.run_id@)
}

/// The run ids of directory listings, in order.
pub open spec fn listing_ids(dirs: Seq<(String, Vec<String>)>) -> Seq<Seq<char>> {
    dirs.map_values(|d: (String, Vec<String>)| d.0@)
}

/// `entry` lists the run directory `dir`.
pub open spec fn lists_run(entry: RunIterations, dir: (String, Vec<String>)) -> bool {
    entry.run_id@ == dir.0@ && entry.iterations@ == sort_u32s(parsed_iterations(strings_view(dir.1@)))
}

/// The dashboard's listing of run directories, each given by its name and
/// the names of its subdirectories: iterations ascending, runs by id.
pub fn list_runs(dirs: Vec<(String, Vec<String>)>) -> (r: Vec<RunIterations>)
    ensures
        run_ids(r@) == sort_strs(listing_ids(dirs@)),
        r@.len() == dirs@.len(),
        forall|i: int| 0 <= i < r@.len() ==> exists|j: int| 0 <= j < dirs@.len() && lists_run(#[trigger] r@[i], dirs@[j]),
{
    let ghost sv = listing_ids(dirs@);
    let n = dirs.len();
    let ghost orig = dirs@;
    let mut rest = dirs;
    let mut out: Vec<RunIterations> = Vec::new();
    let mut k: usize = 0;
    proof {
        assert(sv.take(0) =~= Seq::<Seq<char>>::empty());
        assert(run_ids(out@) =~= Seq::<Seq<char>>::empty());
        assert(rest@.subrange(0, n as int) =~= rest@);
    }
    while rest.len() > 0
        invariant
            orig.len() == n,
            sv == listing_ids(orig),
            k <= n,
            rest@ == orig.subrange(k as int, n as int),
            rest@.len() == n - k,
            out@.len() == k,
            run_ids(out@) == sort_strs(sv.take(k as int)),
            forall|a: int| 0 <= a < out@.len() ==> exists|b: int| 0 <= b < orig.len() && lists_run(#[trigger] out@[a], orig[b]),
        decreases n - k,
    {
        let d = rest.remove(0);
        proof {
            assert(d == orig[k as int]);
        }
        let iterations = iteration_numbers(&d.1);
        let x = RunIterations { run_id: d.0, iterations };
        assert(lists_run(x, orig[k as int]));
        let mut j: usize = 0;
        while j < out.len() && !string_lt(&x.run_id, &out[j].run_id)
            invariant
                j <= out@.len(),
                forall|a: int| 0 <= a < j ==> !seq_lt(x.run_id@, #[trigger] run_ids(out@)[a]),
            decreases out@.len() - j,
        {
            j = j + 1;
        }
        proof {
            lemma_insert_str_at(run_ids(out@), x.run_id@, j as int);
        }
        let ghost before = out@;
        let ghost xv = x;
        out.insert(j, x);
        proof {
            assert(run_ids(out@) =~= run_ids(before).insert(j as int, xv.run_id@));
            assert(sv.take(k + 1).drop_last() =~= sv.take(k as int));
            assert(sv.take(k + 1).last() == orig[k as int].0@);
            assert(rest@ =~= orig.subrange(k + 1, n as int));
            assert forall|a: int| 0 <= a < out@.len() implies exists|b: int| 0 <= b < orig.len() && lists_run(#[trigger] out@[a], orig[b]) by {
                if a < j {
                    assert(out@[a] == before[a]);
                } else if a == j {
                    assert(out@[a] == xv);
                    assert(lists_run(out@[a], orig[k as int]));
                } else {
                    assert(out@[a] == before[a - 1]);
                }
            }
        }
        k = k + 1;
    }
    proof {
        assert(sv.take(n as int) =~= sv);
    }
    out
}

} // verus!
