//! The prompt lab: prompt variants run against saved inputs, with results
//! cached by the hash of the prompt's text.

use vstd::prelude::*;

use crate::io::paths::{join, join_path};
use crate::io::prompt::{opt_view, pairs_view, render_template, rendered_prompt, vars_view};
use crate::io::sections::{lemma_marker_end, markers_from, marker_at};
use crate::logic::types::DecompositionOutput;
use crate::tree::NodeNext;
use crate::text::{chars_of, string_from_chars};
use crate::logic::strseq::{sorted_set, sorted_set_of};
use crate::tree::strings_view;

verus! {

/// The SHA-256 digest of `bytes`.
pub uninterp spec fn sha256_digest(bytes: Seq<u8>) -> Seq<u8>;

/// SHA-256 of `bytes` (`sha2::Sha256::digest`).
///
/// Trusted: the digest is `sha256_digest(bytes)` and has 32 bytes.
#[verifier::external_body]
pub(crate) fn sha256(bytes: &[u8]) -> (r: Vec<u8>)
    ensures
        r@ == sha256_digest(bytes@),
        r@.len() == 32,
{
    <sha2::Sha256 as sha2::Digest>::digest(bytes).to_vec()
}

/// The lowercase hex digit for `n` (`0 <= n < 16`).
pub open spec fn hex_digit(n: u8) -> char {
    if n < 10 {
        (('0' as u8) + n) as char
    } else {
        (('a' as u8) + (n - 10)) as char
    }
}

/// Lowercase hex of `bytes`, two digits per byte.
pub open spec fn hex_text(bytes: Seq<u8>) -> Seq<char>
    decreases bytes.len(),
{
    if bytes.len() == 0 {
        Seq::empty()
    } else {
        hex_text(bytes.drop_last()) + seq![hex_digit(bytes.last() / 16), hex_digit(bytes.last() % 16)]
    }
}

/// Lowercase hex of `bytes` (`hex::encode`).
///
/// Trusted: two lowercase hex digits per byte, high nibble first.
#[verifier::external_body]
pub(crate) fn hex_encode(bytes: &[u8]) -> (r: String)
    ensures
        r@ == hex_text(bytes@),
{
    hex::encode(bytes)
}

/// The cache key of a prompt: the first 8 bytes of the SHA-256 of its UTF-8
/// text, in hex (16 characters).
pub fn content_hash(content: &str) -> (r: String)
    ensures
        r@ == hex_text(sha256_digest(vstd::utf8::encode_utf8(content@)).take(8)),
{
    let digest = sha256(content.as_bytes());
    let mut prefix: Vec<u8> = Vec::new();
    let mut i: usize = 0;
    while i < 8
        invariant
            digest@.len() == 32,
            i <= 8,
            prefix@ == digest@.take(i as int),
        decreases 8 - i,
    {
        prefix.push(digest[i]);
        proof {
            assert(prefix@ =~= digest@.take(i + 1));
        }
        i = i + 1;
    }
    hex_encode(prefix.as_slice())
}

/// Where results are cached.
#[derive(Debug, Clone)]
pub struct ResultCache {
    results_dir: String,
}

impl ResultCache {
    /// The cache of the lab at `lab_root`: its `results` directory.
    pub fn new(lab_root: &str) -> (r: ResultCache)
        ensures
            r.dir() == join_path(lab_root@, "results"@),
    {
        ResultCache { results_dir: join(lab_root, "results") }
    }

    /// The results directory.
    pub closed spec fn dir(&self) -> Seq<char> {
        self.results_dir@
    }

    /// `<results>/<agent>/<prompt_hash>/<input_id>.json`.
    pub fn cache_path(&self, agent: &str, prompt_hash: &str, input_id: &str) -> (r: String)
        ensures
            r@ == join_path(join_path(join_path(self.dir(), agent@), prompt_hash@), input_id@ + ".json"@),
    {
        let a = join(self.results_dir.as_str(), agent);
        let b = join(a.as_str(), prompt_hash);
        let mut file = input_id.to_string();
        file.append(".json");
        join(b.as_str(), file.as_str())
    }
}

/// Where the lab looks for the schema `<name>.json`, in order: the lab's own
/// `schemas/`, then, when the lab directory has a parent, the parent's
/// `schemas/` and `.runner/schemas/`.
pub open spec fn schema_candidate_paths(lab_root: Seq<char>, parent: Option<Seq<char>>, name: Seq<char>) -> Seq<
    Seq<char>,
> {
    let file = name + ".json"@;
    let own = seq![join_path(join_path(lab_root, "schemas"@), file)];
    match parent {
        Some(p) => own + seq![
            join_path(join_path(p, "schemas"@), file),
            join_path(join_path(join_path(p, ".runner"@), "schemas"@), file),
        ],
        None => own,
    }
}

/// The schema paths to try for `schema_name`, most preferred first;
/// `parent` is the lab directory's parent, if it has one.
pub fn schema_candidates(lab_root: &str, parent: Option<&str>, schema_name: &str) -> (r: Vec<String>)
    ensures
        strings_view(r@) == schema_candidate_paths(
            lab_root@,
            match parent {
                Some(p) => Some(p@),
                None => None,
            },
            schema_name@,
        ),
{
    let mut file = schema_name.to_string();
    file.append(".json");
    let own_dir = join(lab_root, "schemas");
    let mut r: Vec<String> = Vec::new();
    r.push(join(own_dir.as_str(), file.as_str()));
    match parent {
        Some(p) => {
            let shared = join(p, "schemas");
            r.push(join(shared.as_str(), file.as_str()));
            let runner = join(p, ".runner");
            let runner_schemas = join(runner.as_str(), "schemas");
            r.push(join(runner_schemas.as_str(), file.as_str()));
        },
        None => {},
    }
    proof {
        let file_v = schema_name@ + ".json"@;
        assert(file@ == file_v);
    }
    r
}

/// The schema to use: the first candidate that exists (`present[i]` tells
/// whether `candidates[i]` does), or `None` when none does and the default
/// schema has to be written.
pub fn first_present(candidates: &Vec<String>, present: &Vec<bool>) -> (r: Option<usize>)
    requires
        present@.len() == candidates@.len(),
    ensures
        match r {
            Some(i) => i < candidates@.len() && present@[i as int] && forall|k: int| 0 <= k < i ==> !present@[k],
            None => forall|k: int| 0 <= k < present@.len() ==> !present@[k],
        },
{
    let mut i: usize = 0;
    while i < present.len()
        invariant
            i <= present@.len(),
            present@.len() == candidates@.len(),
            forall|k: int| 0 <= k < i ==> !present@[k],
        decreases present@.len() - i,
    {
        if present[i] {
            return Some(i);
        }
        i = i + 1;
    }
    None
}

/// The node a lab input selects.
#[derive(Debug, Clone)]
pub struct SelectedNode {
    pub id: String,
    pub title: String,
    pub goal: String,
    pub acceptance: Vec<String>,
    pub next: NodeNext,
}

/// A saved lab input.
#[derive(Debug, Clone)]
pub struct TestInput {
    pub id: String,
    pub name: String,
    pub selected_node: SelectedNode,
    pub tree_summary: Option<String>,
    pub context_goal: String,
    pub context_history: Option<String>,
    pub context_failure: Option<String>,
    pub assumptions: Option<String>,
    pub questions: Option<String>,
    pub expected_decision: Option<String>,
}

/// The result of one prompt on one input.
#[derive(Debug, Clone)]
pub struct CombinationResult {
    pub prompt_name: String,
    pub prompt_hash: String,
    pub input_id: String,
    pub input_name: String,
    pub expected_decision: Option<String>,
    pub actual_decision: Option<String>,
    pub matches_expected: Option<bool>,
    pub output: Option<DecompositionOutput>,
    pub error: Option<String>,
    pub duration_ms: u64,
    pub timestamp: String,
}

/// The selected node as a template sees it.
#[derive(Debug, Clone)]
pub struct SelectedNodeContext {
    pub path: String,
    pub id: String,
    pub title: String,
    pub goal: String,
    pub acceptance: Vec<String>,
}

impl SelectedNodeContext {
    /// The context for an input's node, whose path is `root/<title>`.
    pub fn from_test_input(input: &TestInput) -> (r: SelectedNodeContext)
        ensures
            r.path@ == "root/"@ + input.selected_node.title@,
            r.id@ == input.selected_node.id@,
            r.title@ == input.selected_node.title@,
            r.goal@ == input.selected_node.goal@,
            crate::tree::strings_view(r.acceptance@) == crate::tree::strings_view(input.selected_node.acceptance@),
    {
        let mut path = String::from_str("root/");
        path.append(input.selected_node.title.as_str());
        SelectedNodeContext {
            path,
            id: input.selected_node.id.clone(),
            title: input.selected_node.title.clone(),
            goal: input.selected_node.goal.clone(),
            acceptance: crate::tree::clone_strings(&input.selected_node.acceptance),
        }
    }
}

/// `s` without its section markers, from index `i` on.
pub open spec fn without_markers_from(s: Seq<char>, i: int) -> Seq<char>
    decreases s.len() - i,
{
    if i < 0 || i >= s.len() {
        Seq::empty()
    } else {
        match marker_at(s, i) {
            Some((e, _, _)) => {
                proof {
                    lemma_marker_end(s, i);
                }
                without_markers_from(s, e)
            },
            None => seq![s[i]] + without_markers_from(s, i + 1),
        }
    }
}

/// `content` with every section marker removed.
pub fn strip_section_markers(content: &str) -> (r: String)
    ensures
        r@ == without_markers_from(content@, 0),
{
    let v = chars_of(content);
    let mut out: Vec<char> = Vec::new();
    let mut i: usize = 0;
    while i < v.len()
        invariant
            v@ == content@,
            i <= v@.len(),
            without_markers_from(v@, 0) == out@ + without_markers_from(v@, i as int),
        decreases v@.len() - i,
    {
        match crate::io::sections::marker_end(v.as_slice(), i) {
            Some(e) => {
                proof {
                    lemma_marker_end(v@, i as int);
                }
                i = e;
            },
            None => {
                let ghost before = out@;
                out.push(v[i]);
                proof {
                    assert(before + (seq![v@[i as int]] + without_markers_from(v@, i + 1)) =~= out@
                        + without_markers_from(v@, i + 1));
                }
                i = i + 1;
            },
        }
    }
    proof {
        assert(out@ + Seq::<char>::empty() =~= out@);
    }
    string_from_chars(out.as_slice())
}


/// The top-level template variables of a lab input.
pub open spec fn lab_vars(input: TestInput) -> Seq<(Seq<char>, Option<Seq<char>>)> {
    seq![
        ("goal"@, Some(input.context_goal@)),
        ("history"@, opt_view(input.context_history)),
        ("failure"@, opt_view(input.context_failure)),
        ("tree_summary"@, opt_view(input.tree_summary)),
        ("assumptions"@, opt_view(input.assumptions)),
        ("questions"@, opt_view(input.questions)),
    ]
}

/// The `selected` fields a lab template sees.
pub open spec fn lab_selected(input: TestInput) -> Seq<(Seq<char>, Seq<char>)> {
    seq![
        ("path"@, "root/"@ + input.selected_node.title@),
        ("id"@, input.selected_node.id@),
        ("title"@, input.selected_node.title@),
        ("goal"@, input.selected_node.goal@),
    ]
}

fn opt_clone(o: &Option<String>) -> (r: Option<String>)
    ensures
        opt_view(r) == opt_view(*o),
{
    match o {
        Some(s) => Some(s.clone()),
        None => None,
    }
}

fn named(name: &str, value: Option<String>) -> (r: (String, Option<String>))
    ensures
        r.0@ == name@,
        r.1 == value,
{
    (name.to_string(), value)
}

/// Renders a lab prompt `template` for `input` and removes its section
/// markers; when the template does not render, the error is the template
/// engine's message.
pub fn render_lab_prompt(template: &str, input: &TestInput) -> (r: Result<String, String>)
    ensures
        match rendered_prompt(template@, lab_vars(*input), lab_selected(*input), strings_view(input.selected_node.acceptance@)) {
            Some(t) => r matches Ok(s) && s@ == without_markers_from(t, 0),
            None => r is Err,
        },
{
    let ctx = SelectedNodeContext::from_test_input(input);
    let mut vars: Vec<(String, Option<String>)> = Vec::new();
    vars.push(named("goal", Some(input.context_goal.clone())));
    vars.push(named("history", opt_clone(&input.context_history)));
    vars.push(named("failure", opt_clone(&input.context_failure)));
    vars.push(named("tree_summary", opt_clone(&input.tree_summary)));
    vars.push(named("assumptions", opt_clone(&input.assumptions)));
    vars.push(named("questions", opt_clone(&input.questions)));
    let mut selected: Vec<(String, String)> = Vec::new();
    selected.push((String::from_str("path"), ctx.path));
    selected.push((String::from_str("id"), ctx.id));
    selected.push((String::from_str("title"), ctx.title));
    selected.push((String::from_str("goal"), ctx.goal));
    proof {
        assert(vars_view(vars@) =~= lab_vars(*input));
        assert(pairs_view(selected@) =~= lab_selected(*input));
    }
    match render_template(template, &vars, &selected, &ctx.acceptance) {
        Ok(text) => Ok(strip_section_markers(text.as_str())),
        Err(e) => Err(e),
    }
}


/// The prompt names of `results`, in order.
pub open spec fn prompt_names(results: Seq<CombinationResult>) -> Seq<Seq<char>> {
    results.map_values(|r: CombinationResult| r.prompt_name@)
}

/// The input ids of `results`, in order.
pub open spec fn input_ids(results: Seq<CombinationResult>) -> Seq<Seq<char>> {
    results.map_values(|r: CombinationResult| r.input_id@)
}

/// The prompts and the inputs an index lists: each name once, in `String` order.
pub fn index_names(results: &Vec<CombinationResult>) -> (r: (Vec<String>, Vec<String>))
    ensures
        strings_view(r.0@) == sorted_set(prompt_names(results@)),
        strings_view(r.1@) == sorted_set(input_ids(results@)),
{
    let mut prompts: Vec<String> = Vec::new();
    let mut inputs: Vec<String> = Vec::new();
    let mut i: usize = 0;
    while i < results.len()
        invariant
            i <= results@.len(),
            strings_view(prompts@) == prompt_names(results@.take(i as int)),
            strings_view(inputs@) == input_ids(results@.take(i as int)),
        decreases results@.len() - i,
    {
        prompts.push(results[i].prompt_name.clone());
        inputs.push(results[i].input_id.clone());
        proof {
            assert(prompt_names(results@.take(i + 1)) =~= prompt_names(results@.take(i as int)).push(
                results@[i as int].prompt_name@,
            ));
            assert(input_ids(results@.take(i + 1)) =~= input_ids(results@.take(i as int)).push(results@[i as int].input_id@));
        }
        i = i + 1;
    }
    proof {
        assert(results@.take(results@.len() as int) =~= results@);
    }
    (sorted_set_of(&prompts), sorted_set_of(&inputs))
}


/// What `str::to_lowercase` gives for `s` (Unicode lowercase mapping).
pub uninterp spec fn lowercase_of(s: Seq<char>) -> Seq<char>;

/// `s` in lowercase (`str::to_lowercase`).
///
/// Trusted: the text is `lowercase_of(s)`.
#[verifier::external_body]
fn to_lowercase(s: &str) -> (r: String)
    ensures
        r@ == lowercase_of(s@),
{
    s.to_lowercase()
}

/// The decision an output amounts to: `decompose` when some child is to be
/// decomposed further, `execute` otherwise.
pub open spec fn decision_of(output: DecompositionOutput) -> Seq<char> {
    if exists|i: int| 0 <= i < output.children@.len() && #[trigger] output.children@[i].next == NodeNext::Decompose {
        "decompose"@
    } else {
        "execute"@
    }
}

/// The decision an output amounts to.
pub fn decision_label(output: &DecompositionOutput) -> (r: String)
    ensures
        r@ == decision_of(*output),
{
    let mut i: usize = 0;
    while i < output.children.len()
        invariant
            i <= output.children@.len(),
            forall|k: int| 0 <= k < i ==> output.children@[k].next != NodeNext::Decompose,
        decreases output.children@.len() - i,
    {
        match output.children[i].next {
            NodeNext::Decompose => return String::from_str("decompose"),
            NodeNext::Execute => {},
        }
        i = i + 1;
    }
    String::from_str("execute")
}

/// The actual decision of an output, if there is one, and whether it matches
/// the expected one (compared in lowercase), when both are known.
pub fn combination_verdict(expected: &Option<String>, output: &Option<DecompositionOutput>) -> (r: (Option<String>, Option<bool>))
    ensures
        match *output {
            Some(o) => r.0 matches Some(a) && a@ == decision_of(o),
            None => r.0 is None,
        },
        match (*expected, *output) {
            (Some(e), Some(o)) => r.1 == Some(lowercase_of(e@) == decision_of(o)),
            _ => r.1 is None,
        },
{
    let actual = match output {
        Some(o) => Some(decision_label(o)),
        None => None,
    };
    let matches = match (expected, &actual) {
        (Some(e), Some(a)) => Some(crate::text::str_eq(to_lowercase(e.as_str()).as_str(), a.as_str())),
        _ => None,
    };
    (actual, matches)
}

/// How a finished combination is reported: `error`, `pass`, `fail` or `ok`.
pub open spec fn status_of(error: bool, matches: Option<bool>) -> Seq<char> {
    if error {
        "error"@
    } else if matches == Some(true) {
        "pass"@
    } else if matches == Some(false) {
        "fail"@
    } else {
        "ok"@
    }
}

/// How a finished combination is reported.
pub fn combination_status(result: &CombinationResult) -> (r: String)
    ensures
        r@ == status_of(result.error is Some, result.matches_expected),
{
    if result.error.is_some() {
        String::from_str("error")
    } else if result.matches_expected == Some(true) {
        String::from_str("pass")
    } else if result.matches_expected == Some(false) {
        String::from_str("fail")
    } else {
        String::from_str("ok")
    }
}

} // verus!
