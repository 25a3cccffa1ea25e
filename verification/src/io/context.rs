//! The per-iteration context files under `.runner/context/`.

use vstd::prelude::*;

use crate::io::paths::{join, join_path};
use crate::scan::{is_blank, trim, trim_str};

verus! {

/// What the context files say.
#[derive(Debug, Clone)]
pub struct ContextPayload {
    pub goal: String,
    pub history: Option<String>,
    pub failure: Option<String>,
}

/// Where the context files live.
#[derive(Debug, Clone)]
pub struct ContextPaths {
    pub dir: String,
    pub goal_path: String,
    pub history_path: String,
    pub failure_path: String,
}

/// `<root>/.runner/context`.
pub open spec fn context_dir(root: Seq<char>) -> Seq<char> {
    join_path(join_path(root, ".runner"@), "context"@)
}

impl ContextPaths {
    /// The context paths under `root`.
    pub fn new(root: &str) -> (r: ContextPaths)
        ensures
            r.dir@ == context_dir(root@),
            r.goal_path@ == join_path(context_dir(root@), "goal.md"@),
            r.history_path@ == join_path(context_dir(root@), "history.md"@),
            r.failure_path@ == join_path(context_dir(root@), "failure.md"@),
    {
        let runner = join(root, ".runner");
        let dir = join(runner.as_str(), "context");
        ContextPaths {
            goal_path: join(dir.as_str(), "goal.md"),
            history_path: join(dir.as_str(), "history.md"),
            failure_path: join(dir.as_str(), "failure.md"),
            dir,
        }
    }
}

/// `# Goal`, a blank line, the trimmed body and a line feed.
pub open spec fn goal_doc(body: Seq<char>) -> Seq<char> {
    "# Goal\n\n"@ + trim(body) + "\n"@
}

/// The goal context file for `body`.
pub fn render_goal(body: &str) -> (r: String)
    ensures
        r@ == goal_doc(body@),
{
    let mut s = String::from_str("# Goal\n\n");
    s.append(trim_str(body).as_str());
    s.append("\n");
    s
}

/// `# <title>`, a blank line, the trimmed body (or `None.` when there is no
/// body or it is blank) and a line feed.
pub open spec fn optional_doc(title: Seq<char>, body: Option<Seq<char>>) -> Seq<char> {
    let content = match body {
        Some(b) => if trim(b).len() > 0 { trim(b) } else { "None."@ },
        None => "None."@,
    };
    "# "@ + title + "\n\n"@ + content + "\n"@
}

/// An optional context file.
pub fn render_optional(title: &str, body: Option<&str>) -> (r: String)
    ensures
        r@ == optional_doc(title@, match body { Some(b) => Some(b@), None => None }),
{
    let mut s = String::from_str("# ");
    s.append(title);
    s.append("\n\n");
    match body {
        Some(b) => {
            if is_blank(b) {
                s.append("None.");
            } else {
                s.append(trim_str(b).as_str());
            }
        },
        None => {
            s.append("None.");
        },
    }
    s.append("\n");
    s
}

/// The contents of the goal, history and failure files for `payload`.
pub fn context_files(payload: &ContextPayload) -> (r: (String, String, String))
    ensures
        r.0@ == goal_doc(payload.goal@),
        r.1@ == optional_doc("History (previous attempt)"@, match payload.history { Some(b) => Some(b@), None => None }),
        r.2@ == optional_doc("Failure (guard output)"@, match payload.failure { Some(b) => Some(b@), None => None }),
{
    let goal = render_goal(payload.goal.as_str());
    let history = match &payload.history {
        Some(h) => render_optional("History (previous attempt)", Some(h.as_str())),
        None => render_optional("History (previous attempt)", None),
    };
    let failure = match &payload.failure {
        Some(f) => render_optional("Failure (guard output)", Some(f.as_str())),
        None => render_optional("Failure (guard output)", None),
    };
    (goal, history, failure)
}

} // verus!
