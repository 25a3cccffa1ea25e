//! Workspaces: fresh repositories a case runs in.

use vstd::prelude::*;

use crate::eval::outcome::Outcome;
use crate::io::paths::{join, join_path};
use crate::scan::{is_blank, trim, trim_str};

verus! {

/// A workspace created for a case.
#[derive(Debug, Clone)]
pub struct Workspace {
    /// Path to the workspace root.
    pub root: String,
    /// Directory name (case id, timestamp, random suffix).
    pub name: String,
}

/// The outcome of one eval run.
#[derive(Debug, Clone)]
pub struct RunOutcome {
    pub eval_run_id: String,
    pub results_dir: String,
    pub outcome: Outcome,
}

/// `<case_id>_<timestamp>_<short_id>`.
pub fn build_workspace_name(case_id: &str, timestamp: &str, short_id: &str) -> (r: String)
    ensures
        r@ == case_id@ + "_"@ + timestamp@ + "_"@ + short_id@,
{
    let mut n = case_id.to_string();
    n.append("_");
    n.append(timestamp);
    n.append("_");
    n.append(short_id);
    n
}

/// The name of the link to a case's latest workspace.
pub fn latest_link_name(case_id: &str) -> (r: String)
    ensures
        r@ == case_id@ + "_latest"@,
{
    let mut n = case_id.to_string();
    n.append("_latest");
    n
}

/// The goal document of a case workspace: the run id in frontmatter, then the goal.
pub fn goal_document(run_id: &str, goal: &str) -> (r: String)
    ensures
        r@ == "---\nid: "@ + run_id@ + "\n---\n\n"@ + trim(goal@) + "\n"@,
{
    let mut s = String::from_str("---\nid: ");
    s.append(run_id);
    s.append("\n---\n\n");
    s.append(trim_str(goal).as_str());
    s.append("\n");
    s
}

/// A commit is needed when `git status --porcelain` lists anything.
pub fn needs_commit(status_porcelain: &str) -> (r: bool)
    ensures
        r == (trim(status_porcelain@).len() > 0),
{
    !is_blank(status_porcelain)
}


/// What the file system shows about a case's latest workspace.
#[derive(Debug, Clone)]
pub struct LatestProbe {
    /// Where the `<case_id>_latest` link points, if it is a link.
    pub link_target: Option<String>,
    /// Whether the target directory exists.
    pub root_exists: bool,
    /// Whether the target holds a `.git` directory.
    pub has_git: bool,
    /// Whether the target holds anything besides `.git`.
    pub has_files: bool,
}

/// The latest workspace of `case_id` under `base_dir`, given what was found:
/// the link must exist and point at a non-empty git repository.
pub fn resolve_latest(base_dir: &str, case_id: &str, probe: &LatestProbe) -> (r: Result<Workspace, String>)
    ensures
        match probe.link_target {
            None => r matches Err(m) && m@ == "no latest workspace for case '"@ + case_id@ + "': symlink "@
                + join_path(base_dir@, case_id@ + "_latest"@) + " does not exist"@,
            Some(t) => {
                let root = join_path(base_dir@, t@);
                if !probe.root_exists {
                    r matches Err(m) && m@ == "latest workspace for case '"@ + case_id@ + "' is missing: "@ + root
                        + " does not exist"@
                } else if !probe.has_git {
                    r matches Err(m) && m@ == "latest workspace for case '"@ + case_id@ + "' is not a git repository: "@
                        + root + " has no .git/"@
                } else if !probe.has_files {
                    r matches Err(m) && m@ == "latest workspace for case '"@ + case_id@
                        + "' is empty (no files besides .git): "@ + root
                } else {
                    r matches Ok(w) && w.root@ == root && w.name@ == t@
                }
            },
        },
{
    let target = match &probe.link_target {
        None => {
            let link = join(base_dir, latest_link_name(case_id).as_str());
            let mut m = String::from_str("no latest workspace for case '");
            m.append(case_id);
            m.append("': symlink ");
            m.append(link.as_str());
            m.append(" does not exist");
            return Err(m);
        },
        Some(t) => t,
    };
    let root = join(base_dir, target.as_str());
    if !probe.root_exists {
        let mut m = String::from_str("latest workspace for case '");
        m.append(case_id);
        m.append("' is missing: ");
        m.append(root.as_str());
        m.append(" does not exist");
        return Err(m);
    }
    if !probe.has_git {
        let mut m = String::from_str("latest workspace for case '");
        m.append(case_id);
        m.append("' is not a git repository: ");
        m.append(root.as_str());
        m.append(" has no .git/");
        return Err(m);
    }
    if !probe.has_files {
        let mut m = String::from_str("latest workspace for case '");
        m.append(case_id);
        m.append("' is empty (no files besides .git): ");
        m.append(root.as_str());
        return Err(m);
    }
    Ok(Workspace { root, name: target.clone() })
}

/// Whether `c` is an ASCII letter or digit.
pub open spec fn ascii_alnum(c: char) -> bool {
    ('a' <= c && c <= 'z') || ('A' <= c && c <= 'Z') || ('0' <= c && c <= '9')
}

/// Whether `c` is a lowercase ASCII letter or a digit.
pub open spec fn lower_alnum(c: char) -> bool {
    ('a' <= c && c <= 'z') || ('0' <= c && c <= '9')
}

/// `c` with an uppercase ASCII letter made lowercase.
pub open spec fn ascii_lower(c: char) -> char {
    if 'A' <= c && c <= 'Z' {
        ((c as u32) + 32) as char
    } else {
        c
    }
}

/// `n` characters drawn at random from the ASCII letters and digits
/// (`rand`'s `Alphanumeric` distribution on the thread's generator).
///
/// Trusted: there are `n` characters and each is an ASCII letter or digit;
/// which ones depends on chance.
#[verifier::external_body]
fn random_alphanumeric(n: usize) -> (r: String)
    ensures
        r@.len() == n,
        forall|i: int| 0 <= i < n ==> ascii_alnum(#[trigger] r@[i]),
{
    let rng = rand::thread_rng();
    rand::Rng::sample_iter(rng, &rand::distributions::Alphanumeric).take(n).map(char::from).collect()
}

/// `raw` (six ASCII letters or digits) in lowercase.
pub fn short_id_from(raw: &str) -> (r: String)
    requires
        raw@.len() == 6,
        forall|i: int| 0 <= i < 6 ==> ascii_alnum(#[trigger] raw@[i]),
    ensures
        r@ == raw@.map_values(|c: char| ascii_lower(c)),
        forall|i: int| 0 <= i < 6 ==> lower_alnum(#[trigger] r@[i]),
{
    let cs = crate::text::chars_of(raw);
    let mut out = String::new();
    let mut i: usize = 0;
    while i < cs.len()
        invariant
            cs@ == raw@,
            i <= cs@.len(),
            out@ == cs@.take(i as int).map_values(|c: char| ascii_lower(c)),
        decreases cs@.len() - i,
    {
        let c = cs[i];
        let l = if 'A' <= c && c <= 'Z' {
            ((c as u8) + 32) as char
        } else {
            c
        };
        proof {
            assert(l == ascii_lower(c));
            assert(cs@.take(i + 1) =~= cs@.take(i as int).push(c));
        }
        crate::text::push_char(&mut out, l);
        proof {
            assert(out@ =~= cs@.take((i + 1) as int).map_values(|c: char| ascii_lower(c)));
        }
        i = i + 1;
    }
    proof {
        assert(cs@.take(6) =~= cs@);
        assert forall|k: int| 0 <= k < 6 implies lower_alnum(#[trigger] out@[k]) by {
            assert(out@[k] == ascii_lower(raw@[k]));
            assert(ascii_alnum(raw@[k]));
        }
    }
    out
}

/// Six random lowercase ASCII letters or digits, the last part of a
/// workspace name: six characters drawn at random, in lowercase.
pub fn generate_short_id() -> (r: String)
    ensures
        r@.len() == 6,
        forall|i: int| 0 <= i < 6 ==> lower_alnum(#[trigger] r@[i]),
{
    let raw = random_alphanumeric(6);
    short_id_from(raw.as_str())
}

} // verus!
