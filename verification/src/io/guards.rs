//! Guards: the checks (`just ci`) that confirm a node an agent declared done.

use vstd::prelude::*;

use crate::logic::types::{AgentStatus, GuardOutcome};
use crate::scan::{byte_len, byte_length, char_index_at_bytes, slice_chars};
use crate::text::{chars_of, decimal, string_from_chars, u64_to_string};

verus! {

/// Default guard timeout, in seconds.
pub const DEFAULT_GUARD_TIMEOUT_SECS: u64 = 1800;

/// Default cap on captured guard output, in bytes.
pub const DEFAULT_OUTPUT_LIMIT_BYTES: usize = 1_000_000;

/// What a guard run needs.
#[derive(Debug, Clone)]
pub struct GuardRequest {
    /// Directory to run the guards in.
    pub workdir: String,
    /// Where the guard log is written.
    pub log_path: String,
    /// Time the guards may take, in nanoseconds.
    pub timeout_nanos: u64,
    /// Cap on the guard log, in bytes.
    pub output_limit_bytes: usize,
}

/// Runs the guards of a project.
pub trait GuardRunner {
    /// Whether `r` is a report this runner can give for a guard run of
    /// `request` (which outcome comes depends on the project and the
    /// machine); a runner that says nothing more may give any report.
    open spec fn reports(&self, request: GuardRequest, r: Result<GuardOutcome, String>) -> bool {
        true
    }

    /// Runs the guards for `request` and reports whether they passed.
    fn run(&self, request: &GuardRequest) -> (r: Result<GuardOutcome, String>)
        ensures
            self.reports(*request, r),
    ;
}

/// Guards run only when the agent declared the node done, and then the
/// result is the runner's report for this very request; otherwise they are
/// skipped.
pub fn run_guards_if_needed<R: GuardRunner>(status: AgentStatus, runner: &R, request: &GuardRequest) -> (r: Result<GuardOutcome, String>)
    ensures
        status != AgentStatus::Done ==> r == Ok::<GuardOutcome, String>(GuardOutcome::Skipped),
        status == AgentStatus::Done ==> runner.reports(*request, r),
{
    if status != AgentStatus::Done {
        return Ok(GuardOutcome::Skipped);
    }
    runner.run(request)
}


/// The captured output of a command, stdout then stderr.
pub open spec fn output_log(stdout: Seq<char>, stderr: Seq<char>) -> Seq<char> {
    "=== stdout ===\n"@ + stdout + "\n=== stderr ===\n"@ + stderr
}

/// The guard log for captured `stdout` and `stderr`.
pub fn guard_log_text(stdout: &str, stderr: &str) -> (r: String)
    ensures
        r@ == output_log(stdout@, stderr@),
{
    let mut buf = String::from_str("=== stdout ===\n");
    buf.append(stdout);
    buf.append("\n=== stderr ===\n");
    buf.append(stderr);
    buf
}

/// `text` cut to its first `limit` bytes, followed by a note of how many
/// bytes were cut, when it is longer than `limit`.
pub open spec fn limited_text(text: Seq<char>, limit: nat) -> Seq<char> {
    if byte_len(text) > limit {
        text.take(crate::io::git::char_index_at_byte(text, limit as int).unwrap()) + "\n[truncated "@ + decimal(
            (byte_len(text) - limit) as nat,
        ) + " bytes]\n"@
    } else {
        text
    }
}

/// Whether cutting `text` at `limit` bytes lands on a character boundary.
pub open spec fn limit_on_boundary(text: Seq<char>, limit: nat) -> bool {
    byte_len(text) > limit ==> crate::io::git::char_index_at_byte(text, limit as int) is Some
}

/// `text` within `limit` bytes, with a note of what was cut.
pub fn limit_text(text: &str, limit: usize) -> (r: String)
    requires
        byte_len(text@) <= usize::MAX,
        limit_on_boundary(text@, limit as nat),
    ensures
        r@ == limited_text(text@, limit as nat),
{
    let v = chars_of(text);
    let n = byte_length(v.as_slice());
    if n > limit {
        let k = char_index_at_bytes(v.as_slice(), limit).unwrap();
        let mut out = string_from_chars(slice_chars(v.as_slice(), 0, k).as_slice());
        out.append("\n[truncated ");
        out.append(u64_to_string((n - limit) as u64).as_str());
        out.append(" bytes]\n");
        proof {
            assert(v@.subrange(0, k as int) =~= v@.take(k as int));
        }
        return out;
    }
    text.to_string()
}

} // verus!
