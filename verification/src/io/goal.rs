//! The goal document `.runner/GOAL.md`: a human-facing spec whose YAML
//! frontmatter carries the run `id`.

use vstd::prelude::*;

use crate::scan::{
    find_seq, is_whitespace, lines, lines_of, split_once, split_once_chars, starts_with,
    starts_with_chars, find_chars, slice_chars, trim, trim_bounds, trim_end, is_ws,
};
use crate::text::{chars_of, join, join_strings, push_char, string_from_chars};
use crate::tree::strings_view;

verus! {

/// Whether `c` may appear in an id: ASCII letters, digits, `.`, `_`, `-`.
pub open spec fn id_char_ok(c: char) -> bool {
    ('a' <= c && c <= 'z') || ('A' <= c && c <= 'Z') || ('0' <= c && c <= '9') || c == '.'
        || c == '_' || c == '-'
}

/// Why `id` is not a valid run id, if it is not.
pub open spec fn id_error(id: Seq<char>) -> Option<Seq<char>> {
    if id.len() == 0 {
        Some("id must not be empty"@)
    } else if id.contains('/') {
        Some("id must not contain '/'"@)
    } else if exists|i: int| 0 <= i < id.len() && !id_char_ok(#[trigger] id[i]) {
        Some("id must be [A-Za-z0-9._-] only (got '"@ + id + "')"@)
    } else {
        None
    }
}

/// Checks that `id` is non-empty and made of `[A-Za-z0-9._-]`.
pub fn validate_id(id: &str) -> (r: Result<(), String>)
    ensures
        r is Ok <==> id_error(id@) is None,
        r matches Err(e) ==> Some(e@) == id_error(id@),
{
    let v = chars_of(id);
    if v.len() == 0 {
        return Err(String::from_str("id must not be empty"));
    }
    let mut i: usize = 0;
    while i < v.len()
        invariant
            v@ == id@,
            i <= v@.len(),
            forall|k: int| 0 <= k < i ==> v@[k] != '/',
        decreases v@.len() - i,
    {
        if v[i] == '/' {
            proof {
                assert(id@.contains('/')) by {
                    assert(id@[i as int] == '/');
                }
            }
            return Err(String::from_str("id must not contain '/'"));
        }
        i = i + 1;
    }
    let mut j: usize = 0;
    while j < v.len()
        invariant
            v@ == id@,
            !id@.contains('/'),
            j <= v@.len(),
            forall|k: int| 0 <= k < j ==> id_char_ok(#[trigger] v@[k]),
        decreases v@.len() - j,
    {
        let c = v[j];
        let ok = ('a' <= c && c <= 'z') || ('A' <= c && c <= 'Z') || ('0' <= c && c <= '9')
            || c == '.' || c == '_' || c == '-';
        if !ok {
            let mut m = String::from_str("id must be [A-Za-z0-9._-] only (got '");
            m.append(id);
            m.append("')");
            proof {
                assert(!id_char_ok(id@[j as int]));
            }
            return Err(m);
        }
        j = j + 1;
    }
    Ok(())
}

/// `---\n`, which opens and closes a frontmatter block.
pub open spec fn fence() -> Seq<char> {
    seq!['-', '-', '-', '\n']
}

/// `\n---\n`, the line that closes a frontmatter block.
pub open spec fn closing_fence() -> Seq<char> {
    seq!['\n', '-', '-', '-', '\n']
}

/// The frontmatter and the text after it, when `c` opens with a fenced block.
pub open spec fn frontmatter_parts(c: Seq<char>) -> Option<(Seq<char>, Seq<char>)> {
    if !starts_with(c, fence()) {
        None
    } else {
        let after = c.skip(4);
        match find_seq(after, closing_fence()) {
            None => None,
            Some(e) => Some((after.take(e), after.skip(e + 5))),
        }
    }
}

/// Splits `contents` into its frontmatter and the text after it.
pub fn split_frontmatter(contents: &str) -> (r: Option<(String, String)>)
    ensures
        match r {
            Some((fm, rest)) => frontmatter_parts(contents@) == Some((fm@, rest@)),
            None => frontmatter_parts(contents@) is None,
        },
{
    let v = chars_of(contents);
    let open = vec!['-', '-', '-', '\n'];
    proof {
        assert(open@ =~= fence());
    }
    if !starts_with_chars(v.as_slice(), open.as_slice()) {
        return None;
    }
    let after = slice_chars(v.as_slice(), 4, v.len());
    let close = vec!['\n', '-', '-', '-', '\n'];
    proof {
        assert(close@ =~= closing_fence());
        assert(after@ =~= contents@.skip(4));
    }
    match find_chars(after.as_slice(), close.as_slice()) {
        None => None,
        Some(e) => {
            proof {
                crate::scan::lemma_find_from_some(after@, closing_fence(), 0);
                assert(after@.take(e as int) =~= after@.subrange(0, e as int));
                assert(after@.skip(e + 5) =~= after@.subrange(e + 5, after@.len() as int));
            }
            let fm = slice_chars(after.as_slice(), 0, e);
            let rest = slice_chars(after.as_slice(), e + 5, after.len());
            Some((string_from_chars(fm.as_slice()), string_from_chars(rest.as_slice())))
        },
    }
}

/// `v` without one pair of matching surrounding quotes (`"` or `'`).
pub open spec fn unquote(v: Seq<char>) -> Seq<char> {
    if v.len() >= 2 && ((v[0] == '"' && v.last() == '"') || (v[0] == '\'' && v.last() == '\'')) {
        v.subrange(1, v.len() - 1)
    } else {
        v
    }
}

/// `id`.
pub open spec fn id_key() -> Seq<char> {
    seq!['i', 'd']
}

/// The id read from frontmatter lines: the first `key: value` line whose key
/// is `id` decides; blank and `#` lines are skipped; a line without `:` ends
/// the search with no id; an empty value is no id.
pub open spec fn id_from_lines(ls: Seq<Seq<char>>) -> Option<Seq<char>>
    decreases ls.len(),
{
    if ls.len() == 0 {
        None
    } else {
        let t = trim(ls[0]);
        if t.len() == 0 || t[0] == '#' {
            id_from_lines(ls.drop_first())
        } else {
            match split_once(t, ':') {
                None => None,
                Some((k, v)) => {
                    if trim(k) != id_key() {
                        id_from_lines(ls.drop_first())
                    } else {
                        let u = unquote(trim(v));
                        if u.len() == 0 {
                            None
                        } else {
                            Some(u)
                        }
                    }
                },
            }
        }
    }
}

/// The `id` stored in the frontmatter of `c`, if any.
pub open spec fn frontmatter_id(c: Seq<char>) -> Option<Seq<char>> {
    match frontmatter_parts(c) {
        None => None,
        Some((fm, _)) => id_from_lines(lines_of(fm)),
    }
}

fn trimmed_chars(s: &str) -> (r: Vec<char>)
    ensures
        r@ == trim(s@),
{
    let v = chars_of(s);
    let (lo, hi) = trim_bounds(v.as_slice());
    slice_chars(v.as_slice(), lo, hi)
}

fn trimmed_of(v: &Vec<char>) -> (r: Vec<char>)
    ensures
        r@ == trim(v@),
{
    let (lo, hi) = trim_bounds(v.as_slice());
    slice_chars(v.as_slice(), lo, hi)
}

fn is_id_key(k: &Vec<char>) -> (r: bool)
    ensures
        r == (trim(k@) == id_key()),
{
    let t = trimmed_of(k);
    let r = t.len() == 2 && t[0] == 'i' && t[1] == 'd';
    proof {
        if r {
            assert(t@ =~= id_key());
        }
    }
    r
}

/// The `id` value in the YAML frontmatter of `contents`, if any.
pub fn parse_frontmatter_id(contents: &str) -> (r: Option<String>)
    ensures
        match r {
            Some(s) => frontmatter_id(contents@) == Some(s@),
            None => frontmatter_id(contents@) is None,
        },
{
    let parts = split_frontmatter(contents);
    if parts.is_none() {
        proof {
            assert(frontmatter_id(contents@) is None);
        }
        return None;
    }
    let (fm, _rest) = parts.unwrap();
    let ls = lines(fm.as_str());
    let ghost all = lines_of(fm@);
    proof {
        assert(frontmatter_id(contents@) == id_from_lines(all));
        assert(all.skip(0) =~= all);
    }
    let mut i: usize = 0;
    while i < ls.len()
        invariant
            strings_view(ls@) == all,
            i <= ls@.len(),
            frontmatter_id(contents@) == id_from_lines(all),
            id_from_lines(all) == id_from_lines(all.skip(i as int)),
        decreases ls@.len() - i,
    {
        proof {
            assert(all.skip(i as int).drop_first() =~= all.skip(i + 1));
            assert(all.skip(i as int)[0] == ls@[i as int]@);
        }
        let t = trimmed_chars(ls[i].as_str());
        if t.len() == 0 || t[0] == '#' {
            i = i + 1;
            continue;
        }
        match split_once_chars(t.as_slice(), ':') {
            None => {
                proof {
                    let sk = all.skip(i as int);
                    assert(trim(sk[0]) == t@);
                    assert(id_from_lines(sk) is None);
                }
                return None;
            },
            Some((k, value)) => {
                if !is_id_key(&k) {
                    i = i + 1;
                    continue;
                }
                let u0 = trimmed_of(&value);
                let n = u0.len();
                let u = if n >= 2 && ((u0[0] == '"' && u0[n - 1] == '"') || (u0[0] == '\'' && u0[n - 1] == '\'')) {
                    slice_chars(u0.as_slice(), 1, n - 1)
                } else {
                    u0
                };
                proof {
                    let sk = all.skip(i as int);
                    assert(sk[0] == ls@[i as int]@);
                    assert(trim(sk[0]) == t@);
                    assert(split_once(t@, ':') == Some((k@, value@)));
                    assert(u@ == unquote(trim(value@)));
                    assert(id_from_lines(sk) == (if u@.len() == 0 { None } else { Some(u@) }));
                }
                if u.len() == 0 {
                    return None;
                }
                return Some(string_from_chars(u.as_slice()));
            },
        }
    }
    proof {
        assert(all.skip(i as int) =~= Seq::<Seq<char>>::empty());
    }
    None
}

/// Whether `l` is a `key: value` line whose key is `id`.
pub open spec fn is_id_line(l: Seq<char>) -> bool {
    match split_once(trim(l), ':') {
        Some((k, _)) => trim(k) == id_key(),
        None => false,
    }
}

/// Whether some line of `ls` is an id line.
pub open spec fn has_id_line(ls: Seq<Seq<char>>) -> bool
    decreases ls.len(),
{
    ls.len() > 0 && (has_id_line(ls.drop_last()) || is_id_line(ls.last()))
}

/// `ls` with its first id line replaced by `idl` and later id lines removed.
pub open spec fn replace_id_lines(ls: Seq<Seq<char>>, idl: Seq<char>) -> Seq<Seq<char>>
    decreases ls.len(),
{
    if ls.len() == 0 {
        ls
    } else {
        let p = replace_id_lines(ls.drop_last(), idl);
        if is_id_line(ls.last()) {
            if has_id_line(ls.drop_last()) {
                p
            } else {
                p.push(idl)
            }
        } else {
            p.push(ls.last())
        }
    }
}

pub proof fn lemma_replace_without_id(ls: Seq<Seq<char>>, idl: Seq<char>)
    requires
        !has_id_line(ls),
    ensures
        replace_id_lines(ls, idl) == ls,
    decreases ls.len(),
{
    if ls.len() > 0 {
        lemma_replace_without_id(ls.drop_last(), idl);
        assert(ls.drop_last().push(ls.last()) =~= ls);
    }
}

/// `s` ending in a line feed: `s` itself when it already does.
pub open spec fn with_final_nl(s: Seq<char>) -> Seq<char> {
    if s.len() > 0 && s.last() == '\n' {
        s
    } else {
        s.push('\n')
    }
}

/// `id: <id>`.
pub open spec fn id_line(id: Seq<char>) -> Seq<char> {
    seq!['i', 'd', ':', ' '] + id
}

/// Frontmatter `fm` with its `id` set to `id`: the first id line is
/// rewritten, later ones dropped, or an id line is put first when none exists.
pub open spec fn upsert_id(fm: Seq<char>, id: Seq<char>) -> Seq<char> {
    let ls = lines_of(fm);
    let out = if has_id_line(ls) {
        replace_id_lines(ls, id_line(id))
    } else {
        seq![id_line(id)] + ls
    };
    with_final_nl(join(out, seq!['\n']))
}

fn id_line_string(id: &str) -> (r: String)
    ensures
        r@ == id_line(id@),
{
    let mut s = String::from_str("id: ");
    proof {
        reveal_strlit("id: ");
        assert(s@ =~= seq!['i', 'd', ':', ' ']);
    }
    s.append(id);
    s
}

fn ensure_final_nl(s: &mut String)
    ensures
        final(s)@ == with_final_nl(old(s)@),
{
    let v = chars_of(s.as_str());
    if !(v.len() > 0 && v[v.len() - 1] == '\n') {
        push_char(s, '\n');
    }
}

fn is_id_line_exec(l: &str) -> (r: bool)
    ensures
        r == is_id_line(l@),
{
    let t = trimmed_chars(l);
    match split_once_chars(t.as_slice(), ':') {
        Some((k, _)) => is_id_key(&k),
        None => false,
    }
}

/// Frontmatter `frontmatter` with its `id` line set to `id`.
pub fn upsert_id_line(frontmatter: &str, id: &str) -> (r: String)
    ensures
        r@ == upsert_id(frontmatter@, id@),
{
    let ls = lines(frontmatter);
    let ghost all = lines_of(frontmatter@);
    let idl = id_line_string(id);
    let mut out: Vec<String> = Vec::new();
    let mut saw = false;
    let mut i: usize = 0;
    while i < ls.len()
        invariant
            strings_view(ls@) == all,
            idl@ == id_line(id@),
            i <= ls@.len(),
            strings_view(out@) == replace_id_lines(all.take(i as int), id_line(id@)),
            saw == has_id_line(all.take(i as int)),
        decreases ls@.len() - i,
    {
        proof {
            assert(all.take(i + 1).drop_last() =~= all.take(i as int));
            assert(all.take(i + 1).last() == ls@[i as int]@);
        }
        let ghost before = out@;
        if is_id_line_exec(ls[i].as_str()) {
            if !saw {
                out.push(idl.clone());
                proof {
                    assert(strings_view(out@) =~= strings_view(before).push(idl@));
                }
                saw = true;
            }
        } else {
            out.push(ls[i].clone());
            proof {
                assert(strings_view(out@) =~= strings_view(before).push(ls@[i as int]@));
            }
        }
        i = i + 1;
    }
    proof {
        assert(all.take(ls@.len() as int) =~= all);
    }
    if !saw {
        proof {
            lemma_replace_without_id(all, id_line(id@));
        }
        let ghost before = out@;
        out.insert(0, idl);
        proof {
            assert(strings_view(out@) =~= seq![id_line(id@)] + strings_view(before));
        }
    }
    let mut buf = join_strings(&out, "\n");
    proof {
        reveal_strlit("\n");
        assert("\n"@ =~= seq!['\n']);
    }
    ensure_final_nl(&mut buf);
    buf
}

/// `s` without its leading line feeds.
pub open spec fn drop_leading_nl(s: Seq<char>) -> Seq<char>
    decreases s.len(),
{
    if s.len() > 0 && s[0] == '\n' {
        drop_leading_nl(s.drop_first())
    } else {
        s
    }
}

/// A goal document with frontmatter `fm` followed by `rest`.
pub open spec fn frontmatter_doc(fm: Seq<char>, rest: Seq<char>) -> Seq<char> {
    with_final_nl(fence() + trim_end(fm) + seq!['\n'] + fence() + seq!['\n'] + drop_leading_nl(rest))
}

pub proof fn lemma_trim_end_prefix(s: Seq<char>, j: int)
    requires
        0 <= j <= s.len(),
        forall|k: int| j <= k < s.len() ==> is_ws(#[trigger] s[k]),
        j == 0 || !is_ws(s[j - 1]),
    ensures
        trim_end(s) == s.take(j),
    decreases s.len() - j,
{
    if j == s.len() {
        assert(s.take(j) =~= s);
    } else {
        lemma_trim_end_prefix(s.drop_last(), j);
        assert(s.drop_last().take(j) =~= s.take(j));
    }
}

/// Renders a document whose frontmatter is `frontmatter` and body `rest`.
pub fn render_frontmatter(frontmatter: &str, rest: &str) -> (r: String)
    ensures
        r@ == frontmatter_doc(frontmatter@, rest@),
{
    let f = chars_of(frontmatter);
    let mut hi = f.len();
    while hi > 0 && is_whitespace(f[hi - 1])
        invariant
            f@ == frontmatter@,
            hi <= f@.len(),
            forall|k: int| hi <= k < f@.len() ==> is_ws(#[trigger] f@[k]),
        decreases hi,
    {
        hi = hi - 1;
    }
    proof {
        lemma_trim_end_prefix(f@, hi as int);
        assert(f@.subrange(0, hi as int) =~= f@.take(hi as int));
    }
    let body = slice_chars(f.as_slice(), 0, hi);
    let r = chars_of(rest);
    let mut lo: usize = 0;
    proof {
        assert(r@.skip(0) =~= r@);
    }
    while lo < r.len() && r[lo] == '\n'
        invariant
            r@ == rest@,
            lo <= r@.len(),
            drop_leading_nl(rest@) == drop_leading_nl(r@.skip(lo as int)),
        decreases r@.len() - lo,
    {
        proof {
            assert(r@.skip(lo as int).drop_first() =~= r@.skip(lo + 1));
        }
        lo = lo + 1;
    }
    proof {
        assert(r@.skip(lo as int) =~= r@.subrange(lo as int, r@.len() as int));
    }
    let tail = slice_chars(r.as_slice(), lo, r.len());
    let mut buf = String::from_str("---\n");
    buf.append(string_from_chars(body.as_slice()).as_str());
    buf.append("\n---\n\n");
    buf.append(string_from_chars(tail.as_slice()).as_str());
    proof {
        reveal_strlit("---\n");
        reveal_strlit("\n---\n\n");
        assert(buf@ =~= fence() + trim_end(frontmatter@) + seq!['\n'] + fence() + seq!['\n']
            + drop_leading_nl(rest@));
    }
    ensure_final_nl(&mut buf);
    buf
}

/// The goal document `contents` with its frontmatter `id` set to `id`.
pub open spec fn with_goal_id(contents: Seq<char>, id: Seq<char>) -> Seq<char> {
    match frontmatter_parts(contents) {
        Some((fm, rest)) => frontmatter_doc(upsert_id(fm, id), rest),
        None => frontmatter_doc(id_line(id).push('\n'), contents),
    }
}

/// `contents` with frontmatter `id: <id>`, adding a frontmatter block when
/// there is none.
pub fn set_frontmatter_id(contents: &str, id: &str) -> (r: String)
    ensures
        r@ == with_goal_id(contents@, id@),
{
    match split_frontmatter(contents) {
        Some((fm, rest)) => {
            let updated = upsert_id_line(fm.as_str(), id);
            render_frontmatter(updated.as_str(), rest.as_str())
        },
        None => {
            let mut fm = id_line_string(id);
            push_char(&mut fm, '\n');
            render_frontmatter(fm.as_str(), contents)
        },
    }
}

} // verus!
