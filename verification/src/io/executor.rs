//! Requests to the agent backend, and the log kept of each run.

use vstd::prelude::*;

use crate::text::{decimal, u64_to_string};

verus! {

/// One run of the agent backend.
#[derive(Debug, Clone)]
pub struct ExecRequest {
    pub workdir: String,
    pub prompt: String,
    pub output_schema_path: String,
    pub output_path: String,
    pub executor_log_path: String,
    /// Time the run may take, in nanoseconds.
    pub timeout_nanos: u64,
    pub output_limit_bytes: usize,
    pub stream_path: Option<String>,
}

/// An agent backend.
pub trait Executor {
    /// Runs the agent for `request`, which writes its output to `request.output_path`.
    fn exec(&self, request: &ExecRequest) -> Result<(), String>;
}

/// The note added when `n` bytes of a stream were dropped: nothing when none were.
pub open spec fn truncation_note(label: Seq<char>, stream: Seq<char>, n: nat) -> Seq<char> {
    if n > 0 {
        "\n["@ + label + " "@ + stream + " truncated "@ + decimal(n) + " bytes]\n"@
    } else {
        Seq::empty()
    }
}

/// `\n[<label> <stream> truncated <n> bytes]\n`, or nothing when `n` is 0.
pub fn truncated_notice(label: &str, stream: &str, n: usize) -> (r: String)
    ensures
        r@ == truncation_note(label@, stream@, n as nat),
{
    if n == 0 {
        return String::new();
    }
    let mut m = String::from_str("\n[");
    m.append(label);
    m.append(" ");
    m.append(stream);
    m.append(" truncated ");
    m.append(u64_to_string(n as u64).as_str());
    m.append(" bytes]\n");
    m
}

/// The executor log before it is cut to its limit.
pub open spec fn executor_log(
    stdout: Seq<char>,
    stdout_cut: nat,
    stderr: Seq<char>,
    stderr_cut: nat,
    timed_out: bool,
) -> Seq<char> {
    "=== stdout ===\n"@ + stdout + truncation_note("executor"@, "stdout"@, stdout_cut) + "\n=== stderr ===\n"@ + stderr
        + truncation_note("executor"@, "stderr"@, stderr_cut) + (if timed_out { "\n[executor timed out]\n"@ } else { Seq::empty() })
}

/// The executor log: both streams, notes of what the capture dropped, and
/// whether the run timed out.
pub fn executor_log_text(stdout: &str, stdout_cut: usize, stderr: &str, stderr_cut: usize, timed_out: bool) -> (r: String)
    ensures
        r@ == executor_log(stdout@, stdout_cut as nat, stderr@, stderr_cut as nat, timed_out),
{
    let mut buf = String::from_str("=== stdout ===\n");
    buf.append(stdout);
    buf.append(truncated_notice("executor", "stdout", stdout_cut).as_str());
    buf.append("\n=== stderr ===\n");
    buf.append(stderr);
    buf.append(truncated_notice("executor", "stderr", stderr_cut).as_str());
    if timed_out {
        buf.append("\n[executor timed out]\n");
    }
    buf
}

/// The error when the agent left no output file at `path`.
pub fn missing_output_message(path: &str) -> (r: String)
    ensures
        r@ == "missing executor output "@ + path@,
{
    let mut m = String::from_str("missing executor output ");
    m.append(path);
    m
}

/// How many bytes of a chunk fit after `kept` bytes under `limit`.
pub open spec fn room_for(kept: nat, limit: nat, n: nat) -> nat {
    if kept >= limit {
        0
    } else if limit - kept < n {
        (limit - kept) as nat
    } else {
        n
    }
}

/// Appends to `kept` as much of `chunk` as fits under `limit` bytes in all;
/// returns how many bytes of the chunk were dropped.
pub fn append_limited(kept: &mut Vec<u8>, chunk: &[u8], limit: usize) -> (dropped: usize)
    ensures
        final(kept)@ == old(kept)@ + chunk@.take(room_for(old(kept)@.len(), limit as nat, chunk@.len()) as int),
        dropped == chunk@.len() - room_for(old(kept)@.len(), limit as nat, chunk@.len()),
{
    let room = if kept.len() >= limit { 0 } else { limit - kept.len() };
    let take = if room < chunk.len() { room } else { chunk.len() };
    let ghost before = kept@;
    let mut i: usize = 0;
    while i < take
        invariant
            take <= chunk@.len(),
            i <= take,
            kept@ == before + chunk@.take(i as int),
        decreases take - i,
    {
        kept.push(chunk[i]);
        proof {
            assert(chunk@.take(i + 1) =~= chunk@.take(i as int).push(chunk@[i as int]));
        }
        i = i + 1;
    }
    chunk.len() - take
}

} // verus!
