//! Where an eval run's results are kept.

use vstd::prelude::*;

use crate::io::paths::{join, join_path};
use crate::prompt_lab::{hex_encode, hex_text, sha256, sha256_digest};

verus! {

/// `<base_dir>/<case_id>/<eval_run_id>`.
pub fn results_dir(base_dir: &str, case_id: &str, eval_run_id: &str) -> (r: String)
    ensures
        r@ == join_path(join_path(base_dir@, case_id@), eval_run_id@),
{
    let a = join(base_dir, case_id);
    join(a.as_str(), eval_run_id)
}

/// The SHA-256 of a case file's bytes, in lowercase hex (64 characters),
/// recorded to tell which version of the case a run used.
pub fn content_digest(bytes: &[u8]) -> (r: String)
    ensures
        r@ == hex_text(sha256_digest(bytes@)),
{
    let digest = sha256(bytes);
    hex_encode(digest.as_slice())
}

} // verus!
