//! Git state as text: porcelain status lines, branch names and the checks the
//! runner makes before it commits. Running `git` itself happens outside the
//! library; these functions decide what its output means.

use vstd::prelude::*;

use crate::scan::{
    byte_len, char_width, is_blank, lines, lines_of, slice_chars, split_once_pat, split_once_seq,
    starts_with, starts_with_chars, trim, trim_bounds, trim_end, utf8_width,
};
use crate::text::{chars_of, join, push_char, string_from_chars, str_eq};
use crate::tree::strings_view;

verus! {

/// One entry of `git status --porcelain=v1`.
#[derive(Debug, Clone, PartialEq, Eq)]
pub struct StatusEntry {
    /// The two-letter status code (`??`, ` M`, `R `, ...).
    pub code: String,
    /// The path; for renames, the new path.
    pub path: String,
}

/// A git working directory.
#[derive(Debug, Clone)]
pub struct Git {
    workdir: String,
}

impl Git {
    /// A handle on the repository at `workdir`.
    pub fn new(workdir: &str) -> (r: Git)
        ensures
            r.workdir_spec() == workdir@,
    {
        Git { workdir: workdir.to_string() }
    }

    /// The working directory.
    pub closed spec fn workdir_spec(&self) -> Seq<char> {
        self.workdir@
    }

    /// The working directory.
    pub fn workdir(&self) -> (r: &str)
        ensures
            r@ == self.workdir_spec(),
    {
        self.workdir.as_str()
    }
}

/// The first index `k >= from` at which the first `k` characters of `s`
/// take exactly `b` bytes.
pub open spec fn boundary_from(s: Seq<char>, b: int, from: int) -> Option<int>
    decreases s.len() + 1 - from,
{
    if from < 0 || from > s.len() {
        None
    } else if byte_len(s.take(from)) == b {
        Some(from)
    } else if byte_len(s.take(from)) > b {
        None
    } else {
        boundary_from(s, b, from + 1)
    }
}

/// The number of characters that make up the first `b` bytes of `s`, when
/// byte `b` starts a character.
pub open spec fn char_index_at_byte(s: Seq<char>, b: int) -> Option<int> {
    boundary_from(s, b, 0)
}

fn char_index_at(v: &[char], b: usize) -> (r: Option<usize>)
    requires
        b <= 3,
    ensures
        match r {
            Some(k) => char_index_at_byte(v@, b as int) == Some(k as int) && k <= v@.len(),
            None => char_index_at_byte(v@, b as int) is None,
        },
{
    let mut k: usize = 0;
    let mut used: usize = 0;
    proof {
        assert(v@.take(0) =~= Seq::<char>::empty());
    }
    loop
        invariant
            k <= v@.len(),
            used == byte_len(v@.take(k as int)),
            used <= b,
            b <= 3,
            char_index_at_byte(v@, b as int) == boundary_from(v@, b as int, k as int),
        decreases v@.len() - k,
    {
        if used == b {
            return Some(k);
        }
        if k == v.len() {
            proof {
                assert(boundary_from(v@, b as int, (k + 1) as int) is None);
            }
            return None;
        }
        let w = char_width(v[k]);
        proof {
            assert(v@.take(k + 1).drop_last() =~= v@.take(k as int));
            assert(v@.take(k + 1).last() == v@[k as int]);
        }
        k = k + 1;
        if used + w > b {
            proof {
                assert(byte_len(v@.take(k as int)) > b);
            }
            return None;
        }
        used = used + w;
    }
}

/// `?? `, the prefix of an untracked entry.
pub open spec fn untracked_prefix() -> Seq<char> {
    seq!['?', '?', ' ']
}

/// `->`, which separates the old and new path of a rename.
pub open spec fn rename_arrow() -> Seq<char> {
    seq!['-', '>']
}

/// Whether slicing `line` where the porcelain format puts its fields stays on
/// character boundaries (it always does for ASCII status codes).
pub open spec fn porcelain_sliceable(line: Seq<char>) -> bool {
    starts_with(line, untracked_prefix()) || byte_len(line) < 4 || (char_index_at_byte(line, 2)
        is Some && char_index_at_byte(line, 3) is Some)
}

/// The `(code, path)` that a porcelain line describes, or the error text.
pub open spec fn status_entry_spec(line: Seq<char>) -> Result<(Seq<char>, Seq<char>), Seq<char>> {
    if starts_with(line, untracked_prefix()) {
        Ok((seq!['?', '?'], trim(line.skip(3))))
    } else if byte_len(line) < 4 {
        Err("unexpected porcelain line: '"@ + line + "'"@)
    } else {
        let code = line.take(char_index_at_byte(line, 2).unwrap());
        let path = trim(line.skip(char_index_at_byte(line, 3).unwrap()));
        match split_once_seq(path, rename_arrow()) {
            Some((_, new)) => Ok((code, trim(new))),
            None => Ok((code, path)),
        }
    }
}

fn trim_vec(v: &[char]) -> (r: Vec<char>)
    ensures
        r@ == trim(v@),
{
    let (lo, hi) = trim_bounds(v);
    slice_chars(v, lo, hi)
}

fn short_byte_len(v: &[char]) -> (r: usize)
    ensures
        r < 4 <==> byte_len(v@) < 4,
        r < 4 ==> r == byte_len(v@),
{
    let mut k: usize = 0;
    let mut used: usize = 0;
    proof {
        assert(v@.take(0) =~= Seq::<char>::empty());
    }
    while k < v.len() && used < 4
        invariant
            k <= v@.len(),
            used == byte_len(v@.take(k as int)),
            used <= 7,
        decreases v@.len() - k,
    {
        let w = char_width(v[k]);
        proof {
            assert(v@.take(k + 1).drop_last() =~= v@.take(k as int));
            assert(v@.take(k + 1).last() == v@[k as int]);
        }
        used = used + w;
        k = k + 1;
    }
    proof {
        if k == v@.len() {
            assert(v@.take(k as int) =~= v@);
        } else {
            lemma_byte_len_prefix(v@, k as int);
        }
    }
    used
}

proof fn lemma_byte_len_prefix(s: Seq<char>, k: int)
    requires
        0 <= k <= s.len(),
    ensures
        byte_len(s.take(k)) <= byte_len(s),
    decreases s.len() - k,
{
    if k < s.len() {
        lemma_byte_len_prefix(s.drop_last(), k);
        assert(s.drop_last().take(k) =~= s.take(k));
    } else {
        assert(s.take(k) =~= s);
    }
}

/// Parses one line of `git status --porcelain=v1`.
pub fn parse_status_line(line: &str) -> (r: Result<StatusEntry, String>)
    requires
        porcelain_sliceable(line@),
    ensures
        match (r, status_entry_spec(line@)) {
            (Ok(e), Ok((code, path))) => e.code@ == code && e.path@ == path,
            (Err(m), Err(msg)) => m@ == msg,
            _ => false,
        },
{
    let v = chars_of(line);
    let pre = vec!['?', '?', ' '];
    proof {
        assert(pre@ =~= untracked_prefix());
    }
    if starts_with_chars(v.as_slice(), pre.as_slice()) {
        let rest = slice_chars(v.as_slice(), 3, v.len());
        let path = trim_vec(rest.as_slice());
        proof {
            assert(rest@ =~= line@.skip(3));
            reveal_strlit("??");
            assert("??"@ =~= seq!['?', '?']);
        }
        return Ok(StatusEntry { code: String::from_str("??"), path: string_from_chars(path.as_slice()) });
    }
    if short_byte_len(v.as_slice()) < 4 {
        let mut m = String::from_str("unexpected porcelain line: '");
        m.append(line);
        m.append("'");
        return Err(m);
    }
    let k2 = char_index_at(v.as_slice(), 2).unwrap();
    let k3 = char_index_at(v.as_slice(), 3).unwrap();
    let code = slice_chars(v.as_slice(), 0, k2);
    let tail = slice_chars(v.as_slice(), k3, v.len());
    let path = trim_vec(tail.as_slice());
    proof {
        assert(code@ =~= line@.take(k2 as int));
        assert(tail@ =~= line@.skip(k3 as int));
    }
    let arrow = vec!['-', '>'];
    proof {
        assert(arrow@ =~= rename_arrow());
    }
    let final_path = match split_once_pat(path.as_slice(), arrow.as_slice()) {
        Some((_, new)) => trim_vec(new.as_slice()),
        None => path,
    };
    Ok(StatusEntry { code: string_from_chars(code.as_slice()), path: string_from_chars(final_path.as_slice()) })
}

/// The entries listed by porcelain status lines `ls`, skipping blank lines;
/// the first unparsable line decides the error.
pub open spec fn status_list(ls: Seq<Seq<char>>) -> Result<Seq<(Seq<char>, Seq<char>)>, Seq<char>>
    decreases ls.len(),
{
    if ls.len() == 0 {
        Ok(Seq::empty())
    } else if trim(ls[0]).len() == 0 {
        status_list(ls.drop_first())
    } else {
        match status_entry_spec(ls[0]) {
            Err(m) => Err(m),
            Ok(e) => match status_list(ls.drop_first()) {
                Ok(es) => Ok(seq![e] + es),
                Err(m) => Err(m),
            },
        }
    }
}

/// The `(code, path)` pairs of `v`.
pub open spec fn entries_view(v: Seq<StatusEntry>) -> Seq<(Seq<char>, Seq<char>)> {
    v.map_values(|e: StatusEntry| (e.code@, e.path@))
}

/// `prefix` followed by the entries of `r`, or `r`'s error.
pub open spec fn after_prefix(
    prefix: Seq<(Seq<char>, Seq<char>)>,
    r: Result<Seq<(Seq<char>, Seq<char>)>, Seq<char>>,
) -> Result<Seq<(Seq<char>, Seq<char>)>, Seq<char>> {
    match r {
        Ok(es) => Ok(prefix + es),
        Err(m) => Err(m),
    }
}

/// Parses the output of `git status --porcelain=v1` into entries.
pub fn parse_status_output(out: &str) -> (r: Result<Vec<StatusEntry>, String>)
    requires
        forall|i: int| 0 <= i < lines_of(out@).len() ==> porcelain_sliceable(#[trigger] lines_of(out@)[i]),
    ensures
        match (r, status_list(lines_of(out@))) {
            (Ok(v), Ok(es)) => entries_view(v@) == es,
            (Err(m), Err(msg)) => m@ == msg,
            _ => false,
        },
{
    let ls = lines(out);
    let ghost all = lines_of(out@);
    let mut entries: Vec<StatusEntry> = Vec::new();
    let mut i: usize = 0;
    proof {
        assert(all.skip(0) =~= all);
        assert(after_prefix(Seq::empty(), status_list(all)) == status_list(all)) by {
            match status_list(all) {
                Ok(es) => { assert(Seq::<(Seq<char>, Seq<char>)>::empty() + es =~= es); },
                Err(_) => {},
            }
        }
    }
    while i < ls.len()
        invariant
            strings_view(ls@) == all,
            all == lines_of(out@),
            i <= ls@.len(),
            forall|j: int| 0 <= j < all.len() ==> porcelain_sliceable(#[trigger] all[j]),
            status_list(all) == after_prefix(entries_view(entries@), status_list(all.skip(i as int))),
        decreases ls@.len() - i,
    {
        proof {
            assert(all.skip(i as int).drop_first() =~= all.skip(i + 1));
            assert(all.skip(i as int)[0] == ls@[i as int]@);
            assert(porcelain_sliceable(all[i as int]));
        }
        if is_blank(ls[i].as_str()) {
            i = i + 1;
            continue;
        }
        match parse_status_line(ls[i].as_str()) {
            Err(m) => {
                proof {
                    let sk = all.skip(i as int);
                    assert(trim(sk[0]).len() != 0);
                    assert(status_entry_spec(sk[0]) == Err::<(Seq<char>, Seq<char>), Seq<char>>(m@));
                    assert(status_list(sk) == Err::<Seq<(Seq<char>, Seq<char>)>, Seq<char>>(m@));
                    assert(status_list(all) == Err::<Seq<(Seq<char>, Seq<char>)>, Seq<char>>(m@));
                }
                return Err(m);
            },
            Ok(e) => {
                let ghost before = entries@;
                entries.push(e);
                proof {
                    assert(entries_view(entries@) =~= entries_view(before).push((e.code@, e.path@)));
                    match status_list(all.skip(i + 1)) {
                        Ok(es) => {
                            assert(entries_view(before) + (seq![(e.code@, e.path@)] + es)
                                =~= entries_view(entries@) + es);
                        },
                        Err(_) => {},
                    }
                }
                i = i + 1;
            },
        }
    }
    proof {
        assert(all.skip(i as int) =~= Seq::<Seq<char>>::empty());
        assert(entries_view(entries@) + Seq::<(Seq<char>, Seq<char>)>::empty() =~= entries_view(entries@));
    }
    Ok(entries)
}

/// Whether `path` starts with one of `prefixes`.
pub open spec fn allowed_path(path: Seq<char>, prefixes: Seq<Seq<char>>) -> bool {
    exists|i: int| 0 <= i < prefixes.len() && starts_with(path, #[trigger] prefixes[i])
}

/// `code path\n` for each entry whose path no prefix allows.
pub open spec fn disallowed_text(es: Seq<(Seq<char>, Seq<char>)>, prefixes: Seq<Seq<char>>) -> Seq<char>
    decreases es.len(),
{
    if es.len() == 0 {
        Seq::empty()
    } else {
        let e = es.last();
        let before = disallowed_text(es.drop_last(), prefixes);
        if allowed_path(e.1, prefixes) {
            before
        } else {
            before + e.0 + seq![' '] + e.1 + seq!['\n']
        }
    }
}

/// Whether some entry's path no prefix allows.
pub open spec fn has_disallowed(es: Seq<(Seq<char>, Seq<char>)>, prefixes: Seq<Seq<char>>) -> bool {
    exists|i: int| 0 <= i < es.len() && !allowed_path(#[trigger] es[i].1, prefixes)
}

fn is_allowed(path: &str, prefixes: &Vec<String>) -> (r: bool)
    ensures
        r == allowed_path(path@, strings_view(prefixes@)),
{
    let p = chars_of(path);
    let mut i: usize = 0;
    while i < prefixes.len()
        invariant
            p@ == path@,
            i <= prefixes@.len(),
            forall|k: int| 0 <= k < i ==> !starts_with(path@, #[trigger] strings_view(prefixes@)[k]),
        decreases prefixes@.len() - i,
    {
        let q = chars_of(prefixes[i].as_str());
        if starts_with_chars(p.as_slice(), q.as_slice()) {
            proof {
                assert(starts_with(path@, strings_view(prefixes@)[i as int]));
            }
            return true;
        }
        i = i + 1;
    }
    false
}

/// The heading of the error for a worktree with disallowed changes.
pub open spec fn not_clean_heading() -> Seq<char> {
    "working tree not clean (disallowed changes):\n"@
}

/// Ok when every changed path starts with one of `allowed_prefixes`; else the
/// list of offending entries.
pub fn check_clean_except_prefixes(entries: &Vec<StatusEntry>, allowed_prefixes: &Vec<String>) -> (r: Result<(), String>)
    ensures
        r is Ok <==> !has_disallowed(entries_view(entries@), strings_view(allowed_prefixes@)),
        r matches Err(m) ==> m@ == trim_end(not_clean_heading() + disallowed_text(
            entries_view(entries@),
            strings_view(allowed_prefixes@),
        )),
{
    let ghost es = entries_view(entries@);
    let ghost ps = strings_view(allowed_prefixes@);
    let mut text = String::new();
    let mut any = false;
    let mut i: usize = 0;
    while i < entries.len()
        invariant
            es == entries_view(entries@),
            ps == strings_view(allowed_prefixes@),
            i <= entries@.len(),
            text@ == disallowed_text(es.take(i as int), ps),
            any == has_disallowed(es.take(i as int), ps),
        decreases entries@.len() - i,
    {
        proof {
            assert(es.take(i + 1).drop_last() =~= es.take(i as int));
            assert(es.take(i + 1).last() == es[i as int]);
        }
        if !is_allowed(entries[i].path.as_str(), allowed_prefixes) {
            text.append(entries[i].code.as_str());
            push_char(&mut text, ' ');
            text.append(entries[i].path.as_str());
            push_char(&mut text, '\n');
            any = true;
            proof {
                assert(!allowed_path(es.take(i + 1)[i as int].1, ps));
            }
        } else {
            proof {
                if has_disallowed(es.take(i + 1), ps) {
                    let j = choose|j: int| 0 <= j < es.take(i + 1).len() && !allowed_path(#[trigger] es.take(i + 1)[j].1, ps);
                    assert(es.take(i as int)[j] == es.take(i + 1)[j]);
                }
            }
        }
        proof {
            if has_disallowed(es.take(i as int), ps) {
                let j = choose|j: int| 0 <= j < es.take(i as int).len() && !allowed_path(#[trigger] es.take(i as int)[j].1, ps);
                assert(es.take(i + 1)[j] == es.take(i as int)[j]);
            }
        }
        i = i + 1;
    }
    proof {
        assert(es.take(entries@.len() as int) =~= es);
    }
    if !any {
        return Ok(());
    }
    let mut m = String::from_str("working tree not clean (disallowed changes):\n");
    m.append(text.as_str());
    let mv = chars_of(m.as_str());
    let mut hi = mv.len();
    while hi > 0 && crate::scan::is_whitespace(mv[hi - 1])
        invariant
            hi <= mv@.len(),
            forall|k: int| hi <= k < mv@.len() ==> crate::scan::is_ws(#[trigger] mv@[k]),
        decreases hi,
    {
        hi = hi - 1;
    }
    proof {
        crate::io::goal::lemma_trim_end_prefix(mv@, hi as int);
        assert(mv@.subrange(0, hi as int) =~= mv@.take(hi as int));
    }
    Err(string_from_chars(slice_chars(mv.as_slice(), 0, hi).as_slice()))
}

/// The branch name printed by `git rev-parse --abbrev-ref HEAD`; a detached
/// head is refused.
pub fn branch_from_rev_parse(out: &str) -> (r: Result<String, String>)
    ensures
        match r {
            Ok(b) => b@ == trim(out@) && trim(out@) != "HEAD"@,
            Err(m) => trim(out@) == "HEAD"@ && m@ == "detached HEAD (refuse to run)"@,
        },
{
    let name = crate::scan::trim_str(out);
    if str_eq(name.as_str(), "HEAD") {
        return Err(String::from_str("detached HEAD (refuse to run)"));
    }
    Ok(name)
}

/// Whether `git diff --cached --name-only` printed anything.
pub fn staged_changes_listed(out: &str) -> (r: bool)
    ensures
        r == (trim(out@).len() > 0),
{
    !is_blank(out)
}

/// The message of a failed git command: `git <args> failed: <stderr>`.
pub fn git_failure_message(args: &Vec<String>, stderr: &str) -> (r: String)
    ensures
        r@ == "git "@ + join(strings_view(args@), " "@) + " failed: "@ + trim(stderr@),
{
    let mut m = String::from_str("git ");
    m.append(crate::text::join_strings(args, " ").as_str());
    m.append(" failed: ");
    m.append(crate::scan::trim_str(stderr).as_str());
    m
}

/// The ref of a local branch: `refs/heads/<branch>`.
pub fn branch_ref(branch: &str) -> (r: String)
    ensures
        r@ == "refs/heads/"@ + branch@,
{
    let mut m = String::from_str("refs/heads/");
    m.append(branch);
    m
}

} // verus!
