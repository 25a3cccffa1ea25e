//! The decisions made when a run starts: its id, its branch, its bookkeeping
//! and the runner's `.gitignore`.
//!
//! A "run" is a single execution session identified by a stable `run_id`.
//! Starting a run creates the `runner/<run-id>` branch, stamps `GOAL.md`
//! with the id and commits the bootstrap.

use vstd::prelude::*;

use crate::io::run_state::RunState;
use crate::logic::strseq::{sorted_set, sorted_set_of, contains_str, push_str};
use crate::scan::{lines, lines_of, trim, trim_str, is_blank};
use crate::text::{decimal, join, join_strings, push_char, u64_to_string};
use crate::tree::strings_view;

verus! {

/// The run id and branch of a started run.
#[derive(Debug, Clone, PartialEq, Eq)]
pub struct StartOutcome {
    pub run_id: String,
    pub branch: String,
}

/// `run-<sha>`, the base of generated run ids.
pub fn run_id_base(short_sha: &str) -> (r: String)
    ensures
        r@ == "run-"@ + short_sha@,
{
    let mut b = String::from_str("run-");
    b.append(short_sha);
    b
}

/// The `suffix`-th candidate run id: the base itself first, then `<base>-<n>`.
pub open spec fn run_id_candidate_text(base: Seq<char>, suffix: u32) -> Seq<char> {
    if suffix == 1 {
        base
    } else {
        base + "-"@ + decimal(suffix as nat)
    }
}

/// The `suffix`-th candidate run id built from `base`.
pub fn run_id_candidate(base: &str, suffix: u32) -> (r: String)
    ensures
        r@ == run_id_candidate_text(base@, suffix),
{
    if suffix == 1 {
        return base.to_string();
    }
    let mut id = base.to_string();
    id.append("-");
    id.append(u64_to_string(suffix as u64).as_str());
    id
}

/// How many candidate run ids starting a run tries before giving up.
pub const MAX_RUN_ID_CANDIDATES: u32 = 999;

/// The first candidate run id whose branch is free: `taken[i]` tells
/// whether the branch of the `(i + 1)`-th candidate already exists. `None`
/// when every candidate looked at is taken.
pub fn choose_run_id(base: &str, taken: &Vec<bool>) -> (r: Option<String>)
    requires
        taken@.len() < u32::MAX,
    ensures
        match r {
            Some(id) => exists|i: int|
                0 <= i < taken@.len() && !taken@[i] && (forall|k: int| 0 <= k < i ==> taken@[k]) && id@
                    == run_id_candidate_text(base@, (i + 1) as u32),
            None => forall|k: int| 0 <= k < taken@.len() ==> taken@[k],
        },
{
    let mut i: usize = 0;
    while i < taken.len()
        invariant
            i <= taken@.len(),
            taken@.len() < u32::MAX,
            forall|k: int| 0 <= k < i ==> taken@[k],
        decreases taken@.len() - i,
    {
        if !taken[i] {
            let suffix = (i + 1) as u32;
            let id = run_id_candidate(base, suffix);
            proof {
                assert(suffix == (i + 1) as u32);
            }
            return Some(id);
        }
        i = i + 1;
    }
    None
}

/// The error when every candidate run id is taken.
pub fn no_unique_run_id_message(base: &str) -> (r: String)
    ensures
        r@ == "unable to generate unique run id from base '"@ + base@ + "' (too many existing branches)"@,
{
    let mut m = String::from_str("unable to generate unique run id from base '");
    m.append(base);
    m.append("' (too many existing branches)");
    m
}

/// The bookkeeping a started run begins with: kept when it already belongs
/// to `run_id`, otherwise reset for the new run.
pub fn run_state_for_start(existing: RunState, run_id: &str) -> (r: RunState)
    ensures
        (existing.run_id matches Some(id) && id@ == run_id@) ==> r == existing,
        !(existing.run_id matches Some(id) && id@ == run_id@) ==> {
            &&& r.run_id matches Some(id) && id@ == run_id@
            &&& r.next_iter == 1
            &&& r.last_status is None
            &&& r.last_summary is None
            &&& r.last_guard is None
        },
{
    let same = match &existing.run_id {
        Some(id) => crate::text::str_eq(id.as_str(), run_id),
        None => false,
    };
    if same {
        return existing;
    }
    let mut fresh = RunState::default();
    fresh.run_id = Some(run_id.to_string());
    fresh
}

/// The commit that records a run's start.
pub fn start_commit_message(run_id: &str) -> (r: String)
    ensures
        r@ == "chore(loop): start run "@ + run_id@,
{
    let mut m = String::from_str("chore(loop): start run ");
    m.append(run_id);
    m
}

/// The non-blank lines of `ls`, trimmed.
pub open spec fn trimmed_nonblank(ls: Seq<Seq<char>>) -> Seq<Seq<char>>
    decreases ls.len(),
{
    if ls.len() == 0 {
        Seq::empty()
    } else {
        let p = trimmed_nonblank(ls.drop_last());
        if trim(ls.last()).len() == 0 {
            p
        } else {
            p.push(trim(ls.last()))
        }
    }
}

/// `ls` with `x` added at the end when it is missing.
pub open spec fn with_line(ls: Seq<Seq<char>>, x: Seq<char>) -> Seq<Seq<char>> {
    if ls.contains(x) {
        ls
    } else {
        ls.push(x)
    }
}

/// The runner's `.gitignore` after making sure it ignores `context/` and
/// `iterations/`: its non-blank lines, trimmed, each once, sorted, one per line.
pub open spec fn gitignore_text(existing: Seq<char>) -> Seq<char> {
    let ls = with_line(with_line(trimmed_nonblank(lines_of(existing)), "context/"@), "iterations/"@);
    join(sorted_set(ls), "\n"@).push('\n')
}

/// The normalized contents of `.runner/.gitignore`.
pub fn normalized_gitignore(existing: &str) -> (r: String)
    ensures
        r@ == gitignore_text(existing@),
{
    let ls = lines(existing);
    let ghost all = lines_of(existing@);
    let mut kept: Vec<String> = Vec::new();
    let mut i: usize = 0;
    while i < ls.len()
        invariant
            strings_view(ls@) == all,
            i <= ls@.len(),
            strings_view(kept@) == trimmed_nonblank(all.take(i as int)),
        decreases ls@.len() - i,
    {
        proof {
            assert(all.take(i + 1).drop_last() =~= all.take(i as int));
            assert(all.take(i + 1).last() == ls@[i as int]@);
        }
        let t = trim_str(ls[i].as_str());
        if !t.as_str().is_empty() {
            let ghost before = kept@;
            kept.push(t);
            proof {
                assert(strings_view(kept@) =~= strings_view(before).push(trim(ls@[i as int]@)));
            }
        } else {
            proof {
                assert(t@.len() == 0);
            }
        }
        i = i + 1;
    }
    proof {
        assert(all.take(ls@.len() as int) =~= all);
    }
    let ghost base = strings_view(kept@);
    if !contains_str(&kept, "context/") {
        push_str(&mut kept, String::from_str("context/"));
    }
    proof {
        assert(strings_view(kept@) == with_line(base, "context/"@));
    }
    let ghost base2 = strings_view(kept@);
    if !contains_str(&kept, "iterations/") {
        push_str(&mut kept, String::from_str("iterations/"));
    }
    proof {
        assert(strings_view(kept@) == with_line(base2, "iterations/"@));
    }
    let set = sorted_set_of(&kept);
    let mut out = join_strings(&set, "\n");
    push_char(&mut out, '\n');
    out
}

} // verus!
