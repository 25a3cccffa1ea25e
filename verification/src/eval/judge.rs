//! Judging a workspace: what each check found.

use vstd::prelude::*;

use crate::eval::case::Check;

verus! {

/// Limits for check commands.
#[derive(Debug, Clone, Copy)]
pub struct CommandLimits {
    /// Time a check command may take, in seconds.
    pub timeout_secs: u64,
    /// Cap on each captured stream, in bytes.
    pub output_limit_bytes: usize,
}

impl CommandLimits {
    /// A minute per command and 50 000 bytes per stream.
    pub fn default_limits() -> (r: CommandLimits)
        ensures
            r.timeout_secs == 60,
            r.output_limit_bytes == 50_000,
    {
        CommandLimits { timeout_secs: 60, output_limit_bytes: 50_000 }
    }
}

/// The outcome of every check.
#[derive(Debug, Clone)]
pub struct Judgment {
    pub checks: Vec<CheckOutcome>,
}

/// What one check found.
#[derive(Debug, Clone)]
pub enum CheckOutcome {
    FileExists { path: String, passed: bool },
    CommandSucceeds {
        cmd: Vec<String>,
        passed: bool,
        exit_code: Option<i32>,
        timed_out: bool,
        stdout: String,
        stderr: String,
        stdout_truncated: bool,
        stderr_truncated: bool,
    },
    RunnerCompleted { passed: bool, exit_code: Option<i32> },
}

/// What was observed in the workspace for a check.
#[derive(Debug, Clone)]
pub enum Observation {
    /// Nothing needed observing.
    NotRun,
    /// Whether the checked path exists.
    PathFound(bool),
    /// How the check command ran.
    CommandRan(CommandRun),
}

/// A finished check command.
#[derive(Debug, Clone)]
pub struct CommandRun {
    pub exit_code: Option<i32>,
    /// Whether the process exited successfully.
    pub success: bool,
    pub timed_out: bool,
    pub stdout: Vec<u8>,
    pub stderr: Vec<u8>,
}

/// How `String::from_utf8_lossy` decodes `bytes`.
pub uninterp spec fn utf8_lossy(bytes: Seq<u8>) -> Seq<char>;

/// Decodes `bytes` as UTF-8, replacing invalid sequences (`String::from_utf8_lossy`).
///
/// Trusted: the text is `utf8_lossy(bytes)`.
#[verifier::external_body]
fn lossy_text(bytes: &[u8]) -> (r: String)
    ensures
        r@ == utf8_lossy(bytes@),
{
    String::from_utf8_lossy(bytes).to_string()
}

/// Keeps at most `limit` bytes; reports whether any were dropped.
pub fn truncate_output(buf: &mut Vec<u8>, limit: usize) -> (r: bool)
    ensures
        r == (old(buf)@.len() > limit),
        final(buf)@ == (if old(buf)@.len() > limit { old(buf)@.take(limit as int) } else { old(buf)@ }),
{
    if buf.len() > limit {
        buf.truncate(limit);
        return true;
    }
    false
}

/// What a check reports given what was observed for it.
pub open spec fn outcome_matches(check: Check, observed: Observation, exit: Option<i32>, limit: usize, out: CheckOutcome) -> bool {
    match check {
        Check::FileExists { path } => out matches CheckOutcome::FileExists { path: p, passed }
            && p@ == path@ && passed == (observed matches Observation::PathFound(true)),
        Check::RunnerCompleted => out matches CheckOutcome::RunnerCompleted { passed, exit_code }
            && passed == (exit == Some(0i32)) && exit_code == exit,
        Check::CommandSucceeds { cmd } => match observed {
            Observation::CommandRan(run) => out matches CheckOutcome::CommandSucceeds {
                cmd: c,
                passed,
                exit_code,
                timed_out,
                stdout,
                stderr,
                stdout_truncated,
                stderr_truncated,
            } && crate::tree::strings_view(c@) == crate::tree::strings_view(cmd@) && passed == (!run.timed_out && run.success) && exit_code == run.exit_code
                && timed_out == run.timed_out
                && stdout_truncated == (run.stdout@.len() > limit)
                && stderr_truncated == (run.stderr@.len() > limit)
                && stdout@ == utf8_lossy(if run.stdout@.len() > limit { run.stdout@.take(limit as int) } else { run.stdout@ })
                && stderr@ == utf8_lossy(if run.stderr@.len() > limit { run.stderr@.take(limit as int) } else { run.stderr@ }),
            _ => false,
        },
    }
}

/// The error a command check gives before anything runs, if any.
pub open spec fn judge_error(check: Check, observed: Observation) -> Option<Seq<char>> {
    match check {
        Check::CommandSucceeds { cmd } => if cmd@.len() == 0 {
            Some("command_succeeds cmd must be non-empty"@)
        } else if !(observed is CommandRan) {
            Some("command_succeeds check was not run"@)
        } else {
            None
        },
        _ => None,
    }
}

/// Judges one check: a file check passes when the path exists, a command
/// check when the command exited successfully within its time (its output
/// is kept up to the limit), and the runner check when the runner exited 0.
pub fn judge_check(check: &Check, observed: Observation, runner_exit_code: Option<i32>, limits: CommandLimits) -> (r: Result<CheckOutcome, String>)
    ensures
        r is Err <==> judge_error(*check, observed) is Some,
        r matches Err(e) ==> Some(e@) == judge_error(*check, observed),
        r matches Ok(o) ==> outcome_matches(*check, observed, runner_exit_code, limits.output_limit_bytes, o),
{
    match check {
        Check::FileExists { path } => {
            let passed = match observed {
                Observation::PathFound(found) => found,
                _ => false,
            };
            Ok(CheckOutcome::FileExists { path: path.clone(), passed })
        },
        Check::RunnerCompleted => {
            let passed = runner_exit_code == Some(0i32);
            Ok(CheckOutcome::RunnerCompleted { passed, exit_code: runner_exit_code })
        },
        Check::CommandSucceeds { cmd } => {
            if cmd.len() == 0 {
                return Err(String::from_str("command_succeeds cmd must be non-empty"));
            }
            match observed {
                Observation::CommandRan(run) => {
                    let mut stdout = run.stdout;
                    let mut stderr = run.stderr;
                    let stdout_truncated = truncate_output(&mut stdout, limits.output_limit_bytes);
                    let stderr_truncated = truncate_output(&mut stderr, limits.output_limit_bytes);
                    Ok(CheckOutcome::CommandSucceeds {
                        cmd: crate::tree::clone_strings(cmd),
                        passed: !run.timed_out && run.success,
                        exit_code: run.exit_code,
                        timed_out: run.timed_out,
                        stdout: lossy_text(stdout.as_slice()),
                        stderr: lossy_text(stderr.as_slice()),
                        stdout_truncated,
                        stderr_truncated,
                    })
                },
                _ => Err(String::from_str("command_succeeds check was not run")),
            }
        },
    }
}

/// Judges every check with what was observed for it, in order; the first
/// error stops the judging.
pub fn run_checks(checks: &[Check], observations: Vec<Observation>, runner_exit_code: Option<i32>, limits: CommandLimits) -> (r: Result<Judgment, String>)
    requires
        observations@.len() == checks@.len(),
    ensures
        r matches Ok(j) ==> j.checks@.len() == checks@.len() && forall|i: int| 0 <= i < checks@.len() ==> judge_error(
            #[trigger] checks@[i],
            observations@[i],
        ) is None && outcome_matches(checks@[i], observations@[i], runner_exit_code, limits.output_limit_bytes, j.checks@[i]),
        r matches Err(e) ==> exists|i: int| 0 <= i < checks@.len() && Some(e@) == judge_error(#[trigger] checks@[i], observations@[i])
            && forall|k: int| 0 <= k < i ==> judge_error(#[trigger] checks@[k], observations@[k]) is None,
{
    let mut outcomes: Vec<CheckOutcome> = Vec::new();
    let mut rest = observations;
    let ghost all = rest@;
    let mut i: usize = 0;
    proof {
        assert(all.skip(0) =~= all);
    }
    while i < checks.len()
        invariant
            all == observations@,
            rest@ == all.skip(i as int),
            observations@.len() == checks@.len(),
            i <= checks@.len(),
            outcomes@.len() == i,
            forall|k: int| 0 <= k < i ==> judge_error(#[trigger] checks@[k], observations@[k]) is None && outcome_matches(
                checks@[k],
                observations@[k],
                runner_exit_code,
                limits.output_limit_bytes,
                outcomes@[k],
            ),
        decreases checks@.len() - i,
    {
        let o = rest.remove(0);
        proof {
            assert(o == all[i as int]);
            assert(rest@ =~= all.skip(i + 1));
        }
        match judge_check(&checks[i], o, runner_exit_code, limits) {
            Ok(out) => {
                outcomes.push(out);
            },
            Err(e) => {
                proof {
                    assert(Some(e@) == judge_error(checks@[i as int], observations@[i as int]));
                }
                return Err(e);
            },
        }
        i = i + 1;
    }
    Ok(Judgment { checks: outcomes })
}

/// What has to be looked at in the workspace to judge a check.
#[derive(Debug, Clone)]
pub enum Probe {
    /// Nothing: the check is judged from the runner's exit code.
    Nothing,
    /// Whether this path (relative to the workspace) exists.
    PathExists(String),
    /// How this command runs in the workspace.
    RunCommand(Vec<String>),
}

/// Whether judging refuses `check` before anything runs.
pub open spec fn refused(check: Check) -> bool {
    check matches Check::CommandSucceeds { cmd } && cmd@.len() == 0
}

/// The probe that `check` needs.
pub open spec fn probe_matches(check: Check, p: Probe) -> bool {
    match check {
        Check::FileExists { path } => p matches Probe::PathExists(q) && q@ == path@,
        Check::CommandSucceeds { cmd } => p matches Probe::RunCommand(c) && crate::tree::strings_view(c@)
            == crate::tree::strings_view(cmd@),
        Check::RunnerCompleted => p is Nothing,
    }
}

/// The probes for `checks`, in order, up to the first check that judging
/// refuses: nothing after it is looked at, as judging stops there.
pub fn probes_for(checks: &[Check]) -> (r: Vec<Probe>)
    ensures
        r@.len() <= checks@.len(),
        forall|i: int| 0 <= i < r@.len() ==> !refused(#[trigger] checks@[i]) && probe_matches(checks@[i], r@[i]),
        r@.len() < checks@.len() ==> refused(checks@[r@.len() as int]),
{
    let mut r: Vec<Probe> = Vec::new();
    let mut i: usize = 0;
    while i < checks.len()
        invariant
            i <= checks@.len(),
            r@.len() == i,
            forall|k: int| 0 <= k < i ==> !refused(#[trigger] checks@[k]) && probe_matches(checks@[k], r@[k]),
        decreases checks@.len() - i,
    {
        let p = match &checks[i] {
            Check::FileExists { path } => Probe::PathExists(path.clone()),
            Check::CommandSucceeds { cmd } => {
                if cmd.len() == 0 {
                    return r;
                }
                Probe::RunCommand(crate::tree::clone_strings(cmd))
            },
            Check::RunnerCompleted => Probe::Nothing,
        };
        r.push(p);
        i = i + 1;
    }
    r
}

} // verus!
