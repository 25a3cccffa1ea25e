//! Case files: a goal, runner settings and the checks that judge the result.

use vstd::prelude::*;

use crate::scan::{is_blank, trim};
use crate::logic::strseq::{insert_str, lemma_insert_str_at, sort_strings, sort_strs};
use crate::text::{chars_of, decimal, seq_lt, str_eq, string_lt, u64_to_string};
use crate::tree::strings_view;

verus! {

/// A case: what to build and how to judge it.
#[derive(Debug, Clone, PartialEq, Eq)]
pub struct CaseFile {
    pub case: CaseMeta,
    pub config: CaseConfig,
    /// Environment variables, ordered by key, each key once.
    pub env: Vec<(String, String)>,
    pub checks: Vec<Check>,
}

/// A case's id and goal.
#[derive(Debug, Clone, PartialEq, Eq)]
pub struct CaseMeta {
    pub id: String,
    pub goal: String,
}

/// Runner settings a case overrides.
#[derive(Debug, Clone, PartialEq, Eq)]
pub struct CaseConfig {
    pub max_iterations: Option<u32>,
    pub max_attempts_default: Option<u32>,
    pub guard: Option<GuardOverride>,
}

impl Default for CaseConfig {
    /// No overrides.
    fn default() -> (r: Self)
        ensures
            r.max_iterations is None,
            r.max_attempts_default is None,
            r.guard is None,
    {
        CaseConfig { max_iterations: None, max_attempts_default: None, guard: None }
    }
}

/// A replacement guard command.
#[derive(Debug, Clone, PartialEq, Eq)]
pub struct GuardOverride {
    pub command: Vec<String>,
}

/// A check run after the runner loop.
#[derive(Debug, Clone, PartialEq, Eq)]
pub enum Check {
    /// A file must exist (path relative to the workspace).
    FileExists { path: String },
    /// A command must succeed in the workspace.
    CommandSucceeds { cmd: Vec<String> },
    /// The runner loop must have completed.
    RunnerCompleted,
}

/// Whether `c` may appear in a case id: `[a-z0-9_-]`.
pub open spec fn case_id_char(c: char) -> bool {
    ('a' <= c && c <= 'z') || ('0' <= c && c <= '9') || c == '-' || c == '_'
}

/// Why `id` is not a valid case id, if it is not.
pub open spec fn case_id_error(id: Seq<char>) -> Option<Seq<char>> {
    if trim(id).len() == 0 {
        Some("case.id must be non-empty"@)
    } else if id.contains('/') || id.contains('\\') {
        Some("case.id must not contain path separators"@)
    } else if exists|i: int| 0 <= i < id.len() - 1 && id[i] == '.' && #[trigger] id[i + 1] == '.' {
        Some("case.id must not contain '..'"@)
    } else if exists|i: int| 0 <= i < id.len() && !case_id_char(#[trigger] id[i]) {
        Some("case.id must use [a-z0-9_-] only"@)
    } else {
        None
    }
}

/// Checks a case id: non-empty, no path separators or `..`, `[a-z0-9_-]` only.
pub fn validate_case_id(id: &str) -> (r: Result<(), String>)
    ensures
        r is Ok <==> case_id_error(id@) is None,
        r matches Err(e) ==> Some(e@) == case_id_error(id@),
{
    if is_blank(id) {
        return Err(String::from_str("case.id must be non-empty"));
    }
    let v = chars_of(id);
    let mut i: usize = 0;
    while i < v.len()
        invariant
            v@ == id@,
            trim(id@).len() != 0,
            i <= v@.len(),
            forall|k: int| 0 <= k < i ==> v@[k] != '/' && v@[k] != '\\',
        decreases v@.len() - i,
    {
        if v[i] == '/' || v[i] == '\\' {
            proof {
                if v@[i as int] == '/' {
                    assert(id@.contains('/'));
                } else {
                    assert(id@.contains('\\'));
                }
            }
            return Err(String::from_str("case.id must not contain path separators"));
        }
        i = i + 1;
    }
    proof {
        assert(!id@.contains('/') && !id@.contains('\\'));
    }
    let mut j: usize = 0;
    while v.len() > 0 && j < v.len() - 1
        invariant
            v@ == id@,
            trim(id@).len() != 0,
            !id@.contains('/') && !id@.contains('\\'),
            j <= v@.len(),
            forall|k: int| 0 <= k < j && k + 1 < v@.len() ==> !(v@[k] == '.' && #[trigger] v@[k + 1] == '.'),
        decreases v@.len() - j,
    {
        if v[j] == '.' && v[j + 1] == '.' {
            proof {
                assert(id@[j as int] == '.' && id@[j + 1] == '.');
            }
            return Err(String::from_str("case.id must not contain '..'"));
        }
        j = j + 1;
    }
    let mut k: usize = 0;
    while k < v.len()
        invariant
            v@ == id@,
            trim(id@).len() != 0,
            !id@.contains('/') && !id@.contains('\\'),
            forall|q: int| 0 <= q < id@.len() - 1 ==> !(id@[q] == '.' && #[trigger] id@[q + 1] == '.'),
            k <= v@.len(),
            forall|q: int| 0 <= q < k ==> case_id_char(#[trigger] v@[q]),
        decreases v@.len() - k,
    {
        let c = v[k];
        if !(('a' <= c && c <= 'z') || ('0' <= c && c <= '9') || c == '-' || c == '_') {
            proof {
                assert(!case_id_char(id@[k as int]));
            }
            return Err(String::from_str("case.id must use [a-z0-9_-] only"));
        }
        k = k + 1;
    }
    Ok(())
}

/// Why a check is malformed, if it is.
pub open spec fn check_error(c: Check) -> Option<Seq<char>> {
    match c {
        Check::FileExists { path } => if path@.len() == 0 {
            Some("file_exists.path must be non-empty"@)
        } else {
            None
        },
        Check::CommandSucceeds { cmd } => if cmd@.len() == 0 || trim(cmd@[0]@).len() == 0 {
            Some("command_succeeds.cmd must be a non-empty array"@)
        } else {
            None
        },
        Check::RunnerCompleted => None,
    }
}

impl Check {
    /// A file check needs a path; a command check needs a program.
    pub fn validate(&self) -> (r: Result<(), String>)
        ensures
            r is Ok <==> check_error(*self) is None,
            r matches Err(e) ==> Some(e@) == check_error(*self),
    {
        match self {
            Check::FileExists { path } => {
                if path.as_str().is_empty() {
                    return Err(String::from_str("file_exists.path must be non-empty"));
                }
            },
            Check::CommandSucceeds { cmd } => {
                if cmd.len() == 0 || is_blank(cmd[0].as_str()) {
                    return Err(String::from_str("command_succeeds.cmd must be a non-empty array"));
                }
            },
            Check::RunnerCompleted => {},
        }
        Ok(())
    }
}

/// The first malformed check from `i` on, with its error, if any.
pub open spec fn first_check_error(cs: Seq<Check>, i: int) -> Option<(int, Seq<char>)>
    decreases cs.len() - i,
{
    if i < 0 || i >= cs.len() {
        None
    } else {
        match check_error(cs[i]) {
            Some(e) => Some((i, e)),
            None => first_check_error(cs, i + 1),
        }
    }
}

/// The first invalid environment entry from `i` on, with its error, if any.
pub open spec fn first_env_error(env: Seq<(String, String)>, i: int) -> Option<Seq<char>>
    decreases env.len() - i,
{
    if i < 0 || i >= env.len() {
        None
    } else if trim(env[i].0@).len() == 0 {
        Some("env key must be non-empty"@)
    } else if env[i].1@.len() == 0 {
        Some("env "@ + env[i].0@ + " must be non-empty"@)
    } else {
        first_env_error(env, i + 1)
    }
}

/// Whether the id, goal, overrides and check list of a case are valid.
pub open spec fn header_ok(c: CaseFile) -> bool {
    &&& case_id_error(c.case.id@) is None
    &&& trim(c.case.goal@).len() != 0
    &&& c.config.max_iterations != Some(0u32)
    &&& c.config.max_attempts_default != Some(0u32)
    &&& !(c.config.guard matches Some(g) && (g.command@.len() == 0 || trim(g.command@[0]@).len() == 0))
    &&& c.checks@.len() != 0
}

/// Why a case is invalid, if it is, in the order the checks run.
pub open spec fn case_error(c: CaseFile) -> Option<Seq<char>> {
    if case_id_error(c.case.id@) is Some {
        case_id_error(c.case.id@)
    } else if trim(c.case.goal@).len() == 0 {
        Some("case.goal must be non-empty"@)
    } else if c.config.max_iterations == Some(0u32) {
        Some("config.max_iterations must be > 0"@)
    } else if c.config.max_attempts_default == Some(0u32) {
        Some("config.max_attempts_default must be > 0"@)
    } else if c.config.guard matches Some(g) && (g.command@.len() == 0 || trim(g.command@[0]@).len() == 0) {
        Some("config.guard.command must be a non-empty array"@)
    } else if c.checks@.len() == 0 {
        Some("checks must be a non-empty array"@)
    } else {
        match first_check_error(c.checks@, 0) {
            Some((i, e)) => Some("checks["@ + decimal(i as nat) + "] invalid: "@ + e),
            None => first_env_error(c.env@, 0),
        }
    }
}

impl CaseFile {
    /// Checks the id, goal, overrides, checks and environment of the case.
    pub fn validate(&self) -> (r: Result<(), String>)
        ensures
            r is Ok <==> case_error(*self) is None,
            r matches Err(e) ==> Some(e@) == case_error(*self),
    {
        validate_case_id(self.case.id.as_str())?;
        if is_blank(self.case.goal.as_str()) {
            return Err(String::from_str("case.goal must be non-empty"));
        }
        if self.config.max_iterations == Some(0u32) {
            return Err(String::from_str("config.max_iterations must be > 0"));
        }
        if self.config.max_attempts_default == Some(0u32) {
            return Err(String::from_str("config.max_attempts_default must be > 0"));
        }
        match &self.config.guard {
            Some(g) => {
                if g.command.len() == 0 || is_blank(g.command[0].as_str()) {
                    return Err(String::from_str("config.guard.command must be a non-empty array"));
                }
            },
            None => {},
        }
        if self.checks.len() == 0 {
            return Err(String::from_str("checks must be a non-empty array"));
        }
        proof {
            assert(header_ok(*self));
        }
        let mut i: usize = 0;
        while i < self.checks.len()
            invariant
                header_ok(*self),
                i <= self.checks@.len(),
                first_check_error(self.checks@, 0) == first_check_error(self.checks@, i as int),
            decreases self.checks@.len() - i,
        {
            match self.checks[i].validate() {
                Err(e) => {
                    let mut m = String::from_str("checks[");
                    m.append(u64_to_string(i as u64).as_str());
                    m.append("] invalid: ");
                    m.append(e.as_str());
                    return Err(m);
                },
                Ok(()) => {},
            }
            i = i + 1;
        }
        let mut j: usize = 0;
        while j < self.env.len()
            invariant
                header_ok(*self),
                first_check_error(self.checks@, 0) is None,
                j <= self.env@.len(),
                first_env_error(self.env@, 0) == first_env_error(self.env@, j as int),
            decreases self.env@.len() - j,
        {
            if is_blank(self.env[j].0.as_str()) {
                return Err(String::from_str("env key must be non-empty"));
            }
            if self.env[j].1.as_str().is_empty() {
                let mut m = String::from_str("env ");
                m.append(self.env[j].0.as_str());
                m.append(" must be non-empty");
                return Err(m);
            }
            j = j + 1;
        }
        Ok(())
    }
}


/// The ids of `cases`, in order.
pub open spec fn case_ids(cases: Seq<CaseFile>) -> Seq<Seq<char>> {
    cases.map_values(|c: CaseFile| c.case.id@)
}

/// The first element of `s` from index `i` on that equals its successor.
pub open spec fn first_repeat(s: Seq<Seq<char>>, i: int) -> Option<Seq<char>>
    decreases s.len() - i,
{
    if i < 0 || i + 1 >= s.len() {
        None
    } else if s[i] == s[i + 1] {
        Some(s[i])
    } else {
        first_repeat(s, i + 1)
    }
}

/// Orders loaded cases by id; two cases with one id are refused, naming the
/// smallest such id.
pub fn order_cases(cases: Vec<CaseFile>) -> (r: Result<Vec<CaseFile>, String>)
    ensures
        match first_repeat(sort_strs(case_ids(cases@)), 0) {
            Some(d) => r matches Err(m) && m@ == "duplicate case.id "@ + d,
            None => r matches Ok(v) && case_ids(v@) == sort_strs(case_ids(cases@)) && v@.len() == cases@.len()
                && forall|i: int| 0 <= i < v@.len() ==> exists|j: int| 0 <= j < cases@.len() && #[trigger] v@[i] == cases@[j],
        },
{
    let mut ids: Vec<String> = Vec::new();
    let mut i: usize = 0;
    while i < cases.len()
        invariant
            i <= cases@.len(),
            strings_view(ids@) == case_ids(cases@.take(i as int)),
        decreases cases@.len() - i,
    {
        ids.push(cases[i].case.id.clone());
        proof {
            assert(case_ids(cases@.take(i + 1)) =~= case_ids(cases@.take(i as int)).push(cases@[i as int].case.id@));
        }
        i = i + 1;
    }
    proof {
        assert(cases@.take(cases@.len() as int) =~= cases@);
    }
    let sorted = sort_strings(ids);
    let mut k: usize = 0;
    while k < sorted.len() && k + 1 < sorted.len()
        invariant
            strings_view(sorted@) == sort_strs(case_ids(cases@)),
            k <= sorted@.len(),
            first_repeat(strings_view(sorted@), 0) == first_repeat(strings_view(sorted@), k as int),
        decreases sorted@.len() - k,
    {
        if str_eq(sorted[k].as_str(), sorted[k + 1].as_str()) {
            let mut m = String::from_str("duplicate case.id ");
            m.append(sorted[k].as_str());
            return Err(m);
        }
        k = k + 1;
    }
    let ghost sv = case_ids(cases@);
    let n = cases.len();
    let ghost orig = cases@;
    let mut rest = cases;
    let mut out: Vec<CaseFile> = Vec::new();
    let mut k: usize = 0;
    proof {
        assert(sv.take(0) =~= Seq::<Seq<char>>::empty());
        assert(case_ids(out@) =~= Seq::<Seq<char>>::empty());
        assert(rest@.subrange(0, n as int) =~= rest@);
    }
    while rest.len() > 0
        invariant
            orig.len() == n,
            sv == case_ids(orig),
            k <= n,
            rest@ == orig.subrange(k as int, n as int),
            rest@.len() == n - k,
            out@.len() == k,
            case_ids(out@) == sort_strs(sv.take(k as int)),
            forall|a: int| 0 <= a < out@.len() ==> exists|b: int| 0 <= b < orig.len() && #[trigger] out@[a] == orig[b],
        decreases n - k,
    {
        let x = rest.remove(0);
        proof {
            assert(x == orig[k as int]);
        }
        let mut j: usize = 0;
        while j < out.len() && !string_lt(&x.case.id, &out[j].case.id)
            invariant
                j <= out@.len(),
                forall|a: int| 0 <= a < j ==> !seq_lt(x.case.id@, #[trigger] case_ids(out@)[a]),
            decreases out@.len() - j,
        {
            j = j + 1;
        }
        proof {
            lemma_insert_str_at(case_ids(out@), x.case.id@, j as int);
        }
        let ghost before = out@;
        out.insert(j, x);
        proof {
            assert(case_ids(out@) =~= case_ids(before).insert(j as int, x.case.id@));
            assert(sv.take(k + 1).drop_last() =~= sv.take(k as int));
            assert(sv.take(k + 1).last() == orig[k as int].case.id@);
            assert(rest@ =~= orig.subrange(k + 1, n as int));
            assert forall|a: int| 0 <= a < out@.len() implies exists|b: int| 0 <= b < orig.len() && #[trigger] out@[a] == orig[b] by {
                if a < j {
                    assert(out@[a] == before[a]);
                } else if a == j {
                    assert(out@[a] == orig[k as int]);
                } else {
                    assert(out@[a] == before[a - 1]);
                }
            }
        }
        k = k + 1;
    }
    proof {
        assert(sv.take(n as int) =~= sv);
    }
    Ok(out)
}

} // verus!
