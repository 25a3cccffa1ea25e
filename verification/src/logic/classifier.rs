//! Deterministic classification of changed paths.

use vstd::prelude::*;

use crate::logic::types::Mode;
use crate::text::chars_of;

verus! {

/// A path segment that names a component: neither empty (the root or a
/// repeated separator) nor `.` (the current directory).
pub open spec fn is_named(seg: Seq<char>) -> bool {
    seg.len() > 0 && seg != seq!['.']
}

/// The first named `/`-separated segment of `cur + p`, where `cur` is the
/// segment read so far.
pub open spec fn first_named_from(p: Seq<char>, cur: Seq<char>) -> Option<Seq<char>>
    decreases p.len(),
{
    if p.len() == 0 {
        if is_named(cur) {
            Some(cur)
        } else {
            None
        }
    } else if p[0] == '/' {
        if is_named(cur) {
            Some(cur)
        } else {
            first_named_from(p.drop_first(), Seq::empty())
        }
    } else {
        first_named_from(p.drop_first(), cur.push(p[0]))
    }
}

/// A path lies under `.runner/` when its first component, ignoring `.` and
/// the root, is `.runner`.
pub open spec fn is_runner_path_spec(p: Seq<char>) -> bool {
    first_named_from(p, Seq::empty()) == Some(seq!['.', 'r', 'u', 'n', 'n', 'e', 'r'])
}

/// `Execute` if any path lies outside `.runner/`, otherwise `Decompose`
/// (also for an empty list).
pub open spec fn classify_spec(paths: Seq<Seq<char>>) -> Mode {
    if exists|i: int| 0 <= i < paths.len() && !is_runner_path_spec(#[trigger] paths[i]) {
        Mode::Execute
    } else {
        Mode::Decompose
    }
}

fn is_named_exec(cur: &Vec<char>) -> (r: bool)
    ensures
        r == is_named(cur@),
{
    if cur.len() == 0 {
        false
    } else if cur.len() == 1 && cur[0] == '.' {
        proof {
            assert(cur@ =~= seq!['.']);
        }
        false
    } else {
        proof {
            if cur@.len() == 1 {
                assert(cur@ != seq!['.']) by {
                    assert(seq!['.'][0] == '.');
                }
            }
        }
        true
    }
}

fn is_runner_name(cur: &Vec<char>) -> (r: bool)
    ensures
        r == (cur@ == seq!['.', 'r', 'u', 'n', 'n', 'e', 'r']),
{
    let want = ['.', 'r', 'u', 'n', 'n', 'e', 'r'];
    proof {
        assert(want@ =~= seq!['.', 'r', 'u', 'n', 'n', 'e', 'r']);
    }
    if cur.len() != 7 {
        return false;
    }
    let mut i: usize = 0;
    while i < 7
        invariant
            cur@.len() == 7,
            want@ == seq!['.', 'r', 'u', 'n', 'n', 'e', 'r'],
            i <= 7,
            forall|k: int| 0 <= k < i ==> cur@[k] == want@[k],
        decreases 7 - i,
    {
        if cur[i] != want[i] {
            return false;
        }
        i = i + 1;
    }
    proof {
        assert(cur@ =~= want@);
    }
    true
}

/// Whether `path` lies under `.runner/`.
pub fn is_runner_path(path: &str) -> (r: bool)
    ensures
        r == is_runner_path_spec(path@),
{
    let cs = chars_of(path);
    let ghost p = path@;
    let mut cur: Vec<char> = Vec::new();
    let mut i: usize = 0;
    proof {
        assert(p.skip(0) =~= p);
        assert(cur@ =~= Seq::<char>::empty());
    }
    while i < cs.len()
        invariant
            cs@ == p,
            p == path@,
            i <= p.len(),
            first_named_from(p, Seq::empty()) == first_named_from(p.skip(i as int), cur@),
        decreases p.len() - i,
    {
        proof {
            assert(p.skip(i as int)[0] == p[i as int]);
            assert(p.skip(i as int).drop_first() =~= p.skip(i + 1));
        }
        if cs[i] == '/' {
            if is_named_exec(&cur) {
                proof {
                    assert(p.skip(i as int).len() > 0);
                    assert(first_named_from(p.skip(i as int), cur@) == Some(cur@));
                    assert(first_named_from(p, Seq::empty()) == Some(cur@));
                }
                let r = is_runner_name(&cur);
                proof {
                    assert(r == (Some(cur@) == Some(seq!['.', 'r', 'u', 'n', 'n', 'e', 'r'])));
                }
                return r;
            }
            cur = Vec::new();
            proof {
                assert(cur@ =~= Seq::<char>::empty());
            }
        } else {
            cur.push(cs[i]);
        }
        i = i + 1;
    }
    proof {
        assert(p.skip(p.len() as int) =~= Seq::<char>::empty());
    }
    if is_named_exec(&cur) {
        is_runner_name(&cur)
    } else {
        false
    }
}

/// Classify changed paths into `Decompose` vs `Execute`.
///
/// - `Execute` if any changed path is outside `.runner/`.
/// - `Decompose` if all changed paths are under `.runner/`.
/// - Empty input defaults to `Decompose`.
pub fn classify_changed_paths(changed_paths: &[String]) -> (m: Mode)
    ensures
        m == classify_spec(changed_paths@.map_values(|s: String| s@)),
{
    let ghost v = changed_paths@.map_values(|s: String| s@);
    let mut i: usize = 0;
    while i < changed_paths.len()
        invariant
            i <= changed_paths@.len(),
            v == changed_paths@.map_values(|s: String| s@),
            forall|k: int| 0 <= k < i ==> is_runner_path_spec(#[trigger] v[k]),
        decreases changed_paths@.len() - i,
    {
        if !is_runner_path(changed_paths[i].as_str()) {
            proof {
                assert(!is_runner_path_spec(v[i as int]));
            }
            return Mode::Execute;
        }
        i = i + 1;
    }
    Mode::Decompose
}

} // verus!
