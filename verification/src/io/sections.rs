//! Prompt sections: a rendered prompt is cut at its section markers
//! (`<!-- section:<key> required|droppable -->`), sections are dropped or cut
//! to fit a byte budget, and the rest is joined again.

use vstd::prelude::*;

use crate::scan::{byte_len, byte_length, char_index_at_bytes, char_width, is_whitespace, is_ws, slice_chars, trim, trim_bounds, utf8_width};
use crate::text::{chars_of, join, string_from_chars};
use crate::tree::strings_view;

verus! {

/// Whether `c` is a word character (`\w`) for the `regex` crate.
pub uninterp spec fn regex_word_char(c: char) -> bool;

/// Whether `c` matches `\w` (`regex` crate).
///
/// Trusted: the result is `regex_word_char(c)`; for ASCII characters it is
/// exactly letters, digits and `_`, as the crate documents for `\w`.
#[verifier::external_body]
fn is_word_char(c: char) -> (r: bool)
    ensures
        r == regex_word_char(c),
        (c as u32) < 128 ==> (r <==> (('a' <= c && c <= 'z') || ('A' <= c && c <= 'Z') || ('0' <= c && c <= '9')
            || c == '_')),
{
    let mut buf = [0u8; 4];
    match regex::Regex::new(r"\A\w\z") {
        Ok(re) => re.is_match(c.encode_utf8(&mut buf)),
        Err(_) => false,
    }
}

/// Whether `lit` occurs in `s` at `i`.
pub open spec fn lit_at(s: Seq<char>, i: int, lit: Seq<char>) -> bool {
    0 <= i && i + lit.len() <= s.len() && s.subrange(i, i + lit.len()) == lit
}

/// The first index from `i` that is not whitespace.
pub open spec fn skip_ws_from(s: Seq<char>, i: int) -> int
    decreases s.len() - i,
{
    if 0 <= i < s.len() && is_ws(s[i]) {
        skip_ws_from(s, i + 1)
    } else {
        i
    }
}

/// The first index from `i` that is not a word character.
pub open spec fn word_end(s: Seq<char>, i: int) -> int
    decreases s.len() - i,
{
    if 0 <= i < s.len() && regex_word_char(s[i]) {
        word_end(s, i + 1)
    } else {
        i
    }
}

pub open spec fn open_comment() -> Seq<char> {
    seq!['<', '!', '-', '-']
}

pub open spec fn section_tag() -> Seq<char> {
    seq!['s', 'e', 'c', 't', 'i', 'o', 'n', ':']
}

pub open spec fn required_word() -> Seq<char> {
    seq!['r', 'e', 'q', 'u', 'i', 'r', 'e', 'd']
}

pub open spec fn droppable_word() -> Seq<char> {
    seq!['d', 'r', 'o', 'p', 'p', 'a', 'b', 'l', 'e']
}

pub open spec fn close_comment() -> Seq<char> {
    seq!['-', '-', '>']
}

/// A section marker starting at `i`: where it ends, its key and whether the
/// section is required. This is the match of
/// `<!--\s*section:(\w+)\s+(required|droppable)\s*-->` at `i`.
pub open spec fn marker_at(s: Seq<char>, i: int) -> Option<(int, Seq<char>, bool)> {
    if !lit_at(s, i, open_comment()) {
        None
    } else {
        let a = skip_ws_from(s, i + 4);
        if !lit_at(s, a, section_tag()) {
            None
        } else {
            let k0 = a + 8;
            let k1 = word_end(s, k0);
            let b = skip_ws_from(s, k1);
            if k1 == k0 || b == k1 {
                None
            } else {
                let req = lit_at(s, b, required_word());
                let c = if req { b + 8 } else { b + 9 };
                if !req && !lit_at(s, b, droppable_word()) {
                    None
                } else {
                    let d = skip_ws_from(s, c);
                    if lit_at(s, d, close_comment()) {
                        Some((d + 3, s.subrange(k0, k1), req))
                    } else {
                        None
                    }
                }
            }
        }
    }
}

pub proof fn lemma_skip_ws_ge(s: Seq<char>, i: int)
    ensures
        skip_ws_from(s, i) >= i,
        0 <= i <= s.len() ==> skip_ws_from(s, i) <= s.len(),
    decreases s.len() - i,
{
    if 0 <= i < s.len() && is_ws(s[i]) {
        lemma_skip_ws_ge(s, i + 1);
    }
}

pub proof fn lemma_word_end_ge(s: Seq<char>, i: int)
    ensures
        word_end(s, i) >= i,
        0 <= i <= s.len() ==> word_end(s, i) <= s.len(),
    decreases s.len() - i,
{
    if 0 <= i < s.len() && regex_word_char(s[i]) {
        lemma_word_end_ge(s, i + 1);
    }
}

pub proof fn lemma_marker_end(s: Seq<char>, i: int)
    ensures
        marker_at(s, i) matches Some((e, _, _)) ==> i < e <= s.len(),
{
    if lit_at(s, i, open_comment()) {
        let a = skip_ws_from(s, i + 4);
        lemma_skip_ws_ge(s, i + 4);
        if lit_at(s, a, section_tag()) {
            let k0 = a + 8;
            lemma_word_end_ge(s, k0);
            let k1 = word_end(s, k0);
            lemma_skip_ws_ge(s, k1);
            let b = skip_ws_from(s, k1);
            let req = lit_at(s, b, required_word());
            let c = if req { b + 8 } else { b + 9 };
            lemma_skip_ws_ge(s, c);
        }
    }
}

/// The markers of `s` from index `i` on, as `(start, end, key, required)`,
/// found left to right without overlap.
pub open spec fn markers_from(s: Seq<char>, i: int) -> Seq<(int, int, Seq<char>, bool)>
    decreases s.len() - i,
{
    if i < 0 || i >= s.len() {
        Seq::empty()
    } else {
        match marker_at(s, i) {
            Some((e, k, r)) => {
                proof {
                    lemma_marker_end(s, i);
                }
                seq![(i, e, k, r)] + markers_from(s, e)
            },
            None => markers_from(s, i + 1),
        }
    }
}

fn lit_at_exec(v: &[char], i: usize, lit: &[char]) -> (r: bool)
    ensures
        r == lit_at(v@, i as int, lit@),
{
    if i > v.len() || lit.len() > v.len() - i {
        return false;
    }
    let mut k: usize = 0;
    while k < lit.len()
        invariant
            i + lit@.len() <= v@.len(),
            k <= lit@.len(),
            v@.len() == v.len(),
            v@.subrange(i as int, i + k) == lit@.take(k as int),
        decreases lit@.len() - k,
    {
        if v[i + k] != lit[k] {
            proof {
                assert(v@.subrange(i as int, i + lit@.len())[k as int] != lit@[k as int]);
            }
            return false;
        }
        proof {
            assert(v@.subrange(i as int, i + k + 1) =~= v@.subrange(i as int, i + k).push(v@[i + k]));
            assert(lit@.take(k + 1) =~= lit@.take(k as int).push(lit@[k as int]));
        }
        k = k + 1;
    }
    proof {
        assert(lit@.take(lit@.len() as int) =~= lit@);
    }
    true
}

fn skip_ws_exec(v: &[char], i: usize) -> (r: usize)
    requires
        i <= v@.len(),
    ensures
        r as int == skip_ws_from(v@, i as int),
        i <= r <= v@.len(),
{
    let mut j = i;
    while j < v.len() && is_whitespace(v[j])
        invariant
            i <= j <= v@.len(),
            v@.len() == v.len(),
            skip_ws_from(v@, i as int) == skip_ws_from(v@, j as int),
        decreases v@.len() - j,
    {
        j = j + 1;
    }
    j
}

fn word_end_exec(v: &[char], i: usize) -> (r: usize)
    requires
        i <= v@.len(),
    ensures
        r as int == word_end(v@, i as int),
        i <= r <= v@.len(),
{
    let mut j = i;
    while j < v.len() && is_word_char(v[j])
        invariant
            i <= j <= v@.len(),
            v@.len() == v.len(),
            word_end(v@, i as int) == word_end(v@, j as int),
        decreases v@.len() - j,
    {
        j = j + 1;
    }
    j
}

fn marker_at_exec(v: &[char], i: usize) -> (r: Option<(usize, bool)>)
    requires
        i < v@.len(),
    ensures
        match r {
            Some((e, req)) => marker_at(v@, i as int) matches Some((e2, _, r2)) && e2 == e && r2 == req,
            None => marker_at(v@, i as int) is None,
        },
{
    let open = vec!['<', '!', '-', '-'];
    let tag = vec!['s', 'e', 'c', 't', 'i', 'o', 'n', ':'];
    let required = vec!['r', 'e', 'q', 'u', 'i', 'r', 'e', 'd'];
    let droppable = vec!['d', 'r', 'o', 'p', 'p', 'a', 'b', 'l', 'e'];
    let close = vec!['-', '-', '>'];
    proof {
        assert(open@ =~= open_comment());
        assert(tag@ =~= section_tag());
        assert(required@ =~= required_word());
        assert(droppable@ =~= droppable_word());
        assert(close@ =~= close_comment());
    }
    proof {
        assert(v@.len() == v.len());
    }
    if !lit_at_exec(v, i, open.as_slice()) {
        return None;
    }
    let a = skip_ws_exec(v, i + 4);
    if !lit_at_exec(v, a, tag.as_slice()) {
        return None;
    }
    let k0 = a + 8;
    let k1 = word_end_exec(v, k0);
    let b = skip_ws_exec(v, k1);
    if k1 == k0 || b == k1 {
        return None;
    }
    let req = lit_at_exec(v, b, required.as_slice());
    if !req && !lit_at_exec(v, b, droppable.as_slice()) {
        return None;
    }
    let c = if req { b + 8 } else { b + 9 };
    let d = skip_ws_exec(v, c);
    if lit_at_exec(v, d, close.as_slice()) {
        Some((d + 3, req))
    } else {
        None
    }
}

/// Where the section marker starting at `i` ends, if one starts there.
pub fn marker_end(v: &[char], i: usize) -> (r: Option<usize>)
    requires
        i < v@.len(),
    ensures
        match r {
            Some(e) => marker_at(v@, i as int) matches Some((e2, _, _)) && e2 == e,
            None => marker_at(v@, i as int) is None,
        },
{
    match marker_at_exec(v, i) {
        Some((e, _)) => Some(e),
        None => None,
    }
}

/// The markers of `v`, in order, as `(start, end, key, required)`.
fn find_markers(v: &[char]) -> (r: Vec<(usize, usize, bool)>)
    ensures
        r@.len() == markers_from(v@, 0).len(),
        forall|j: int| 0 <= j < r@.len() ==> {
            let m = #[trigger] markers_from(v@, 0)[j];
            &&& r@[j].0 as int == m.0
            &&& r@[j].1 as int == m.1
            &&& r@[j].2 == m.3
        },
{
    let mut found: Vec<(usize, usize, bool)> = Vec::new();
    let ghost seen: Seq<(int, int, Seq<char>, bool)> = Seq::empty();
    let mut i: usize = 0;
    proof {
        assert(markers_from(v@, 0) =~= seen + markers_from(v@, 0));
    }
    while i < v.len()
        invariant
            i <= v@.len(),
            v@.len() == v.len(),
            markers_from(v@, 0) == seen + markers_from(v@, i as int),
            found@.len() == seen.len(),
            forall|j: int| 0 <= j < found@.len() ==> {
                &&& found@[j].0 as int == seen[j].0
                &&& found@[j].1 as int == seen[j].1
                &&& found@[j].2 == seen[j].3
            },
        decreases v@.len() - i,
    {
        match marker_at_exec(v, i) {
            Some((e, req)) => {
                proof {
                    lemma_marker_end(v@, i as int);
                    let m = marker_at(v@, i as int).unwrap();
                    let t = (i as int, m.0, m.1, m.2);
                    assert(markers_from(v@, i as int) == seq![t] + markers_from(v@, e as int));
                    assert(seen + (seq![t] + markers_from(v@, e as int)) =~= seen.push(t) + markers_from(v@, e as int));
                    seen = seen.push(t);
                }
                found.push((i, e, req));
                i = e;
            },
            None => {
                i = i + 1;
            },
        }
    }
    proof {
        assert(markers_from(v@, i as int) =~= Seq::<(int, int, Seq<char>, bool)>::empty());
        assert(seen + Seq::<(int, int, Seq<char>, bool)>::empty() =~= seen);
    }
    found
}

/// A section of a prompt: its key, whether it may be dropped, and its text.
#[derive(Debug, Clone, PartialEq, Eq)]
pub struct ParsedSection {
    pub key: String,
    pub required: bool,
    pub content: String,
}

/// The model of a section: key, required, content.
pub type SectionV = (Seq<char>, bool, Seq<char>);

/// The models of `v`.
pub open spec fn sections_view(v: Seq<ParsedSection>) -> Seq<SectionV> {
    v.map_values(|p: ParsedSection| (p.key@, p.required, p.content@))
}

/// The section that marker `j` of `ms` opens: its content runs to the next
/// marker or the end, trimmed.
pub open spec fn section_of(s: Seq<char>, ms: Seq<(int, int, Seq<char>, bool)>, j: int) -> SectionV {
    let end = if j + 1 < ms.len() { ms[j + 1].0 } else { s.len() as int };
    (ms[j].2, ms[j].3, trim(s.subrange(ms[j].1, end)))
}

/// The sections of the first `n` markers, without empty droppable ones.
pub open spec fn kept_sections(s: Seq<char>, ms: Seq<(int, int, Seq<char>, bool)>, n: int) -> Seq<SectionV>
    decreases n,
{
    if n <= 0 {
        Seq::empty()
    } else {
        let p = kept_sections(s, ms, n - 1);
        let sec = section_of(s, ms, n - 1);
        if sec.2.len() > 0 || sec.1 {
            p.push(sec)
        } else {
            p
        }
    }
}

/// The sections of a rendered prompt, in order.
pub open spec fn prompt_sections(s: Seq<char>) -> Seq<SectionV> {
    let ms = markers_from(s, 0);
    kept_sections(s, ms, ms.len() as int)
}

proof fn lemma_markers_ordered(s: Seq<char>, i: int)
    requires
        0 <= i,
    ensures
        forall|j: int| 0 <= j < markers_from(s, i).len() ==> {
            let m = #[trigger] markers_from(s, i)[j];
            &&& i <= m.0 < m.1 <= s.len()
            &&& marker_at(s, m.0) == Some((m.1, m.2, m.3))
        },
        forall|j: int| 0 <= j < markers_from(s, i).len() - 1 ==> #[trigger] markers_from(s, i)[j].1 <= markers_from(s, i)[j + 1].0,
    decreases s.len() - i,
{
    if i < s.len() {
        match marker_at(s, i) {
            Some((e, k, r)) => {
                lemma_marker_end(s, i);
                lemma_markers_ordered(s, e);
                let rest = markers_from(s, e);
                let all = seq![(i, e, k, r)] + rest;
                assert(markers_from(s, i) == all);
                assert forall|j: int| 0 <= j < all.len() - 1 implies #[trigger] all[j].1 <= all[j + 1].0 by {
                    if j == 0 {
                        if rest.len() > 0 {
                            assert(all[1] == rest[0]);
                        }
                    } else {
                        assert(all[j] == rest[j - 1]);
                        assert(all[j + 1] == rest[j]);
                    }
                }
                assert forall|j: int| 0 <= j < all.len() implies {
                    let m = #[trigger] all[j];
                    &&& i <= m.0 < m.1 <= s.len()
                    &&& marker_at(s, m.0) == Some((m.1, m.2, m.3))
                } by {
                    if j > 0 {
                        assert(all[j] == rest[j - 1]);
                    }
                }
            },
            None => {
                lemma_markers_ordered(s, i + 1);
            },
        }
    }
}

/// The sections of `rendered` (`<!-- section:<key> required|droppable -->`
/// markers open sections; a section's text is trimmed; empty droppable
/// sections are left out).
pub fn parse_sections(rendered: &str) -> (r: Vec<ParsedSection>)
    ensures
        sections_view(r@) == prompt_sections(rendered@),
{
    let v = chars_of(rendered);
    let ms = find_markers(v.as_slice());
    let ghost gms = markers_from(v@, 0);
    proof {
        lemma_markers_ordered(v@, 0);
    }
    let mut out: Vec<ParsedSection> = Vec::new();
    let mut j: usize = 0;
    while j < ms.len()
        invariant
            v@ == rendered@,
            gms == markers_from(v@, 0),
            ms@.len() == gms.len(),
            forall|q: int| 0 <= q < ms@.len() ==> {
                let m = #[trigger] gms[q];
                &&& ms@[q].0 as int == m.0
                &&& ms@[q].1 as int == m.1
                &&& ms@[q].2 == m.3
            },
            forall|q: int| 0 <= q < gms.len() ==> {
                let m = #[trigger] gms[q];
                &&& 0 <= m.0 < m.1 <= v@.len()
                &&& marker_at(v@, m.0) == Some((m.1, m.2, m.3))
            },
            forall|q: int| 0 <= q < gms.len() - 1 ==> #[trigger] gms[q].1 <= gms[q + 1].0,
            j <= ms@.len(),
            sections_view(out@) == kept_sections(v@, gms, j as int),
        decreases ms@.len() - j,
    {
        let (start, key_start, req) = (ms[j].1, 0usize, ms[j].2);
        let end = if j + 1 < ms.len() { ms[j + 1].0 } else { v.len() };
        proof {
            if j + 1 < ms@.len() {
                assert(gms[j as int].1 <= gms[j + 1].0);
            }
        }
        let raw = slice_chars(v.as_slice(), start, end);
        let (lo, hi) = trim_bounds(raw.as_slice());
        let content = slice_chars(raw.as_slice(), lo, hi);
        let key = marker_key(v.as_slice(), ms[j].0, Ghost(gms[j as int]));
        let ghost sec = section_of(v@, gms, j as int);
        proof {
            assert(content@ == sec.2);
        }
        if content.len() > 0 || req {
            let ghost before = out@;
            out.push(ParsedSection { key, required: req, content: string_from_chars(content.as_slice()) });
            proof {
                assert(sections_view(out@) =~= sections_view(before).push(sec));
            }
        }
        j = j + 1;
    }
    out
}

fn marker_key(v: &[char], i: usize, Ghost(m): Ghost<(int, int, Seq<char>, bool)>) -> (r: String)
    requires
        i as int == m.0,
        0 <= m.0 < v@.len(),
        marker_at(v@, m.0) == Some((m.1, m.2, m.3)),
    ensures
        r@ == m.2,
{
    proof {
        assert(v@.len() == v.len());
        assert(lit_at(v@, m.0, open_comment()));
        assert(lit_at(v@, skip_ws_from(v@, m.0 + 4), section_tag()));
        lemma_word_end_ge(v@, skip_ws_from(v@, m.0 + 4) + 8);
    }
    let a = skip_ws_exec(v, i + 4);
    let k0 = a + 8;
    let k1 = word_end_exec(v, k0);
    string_from_chars(slice_chars(v, k0, k1).as_slice())
}

/// The bytes of the sections' texts, together.
pub open spec fn content_bytes(secs: Seq<SectionV>) -> nat
    decreases secs.len(),
{
    if secs.len() == 0 {
        0
    } else {
        content_bytes(secs.drop_last()) + byte_len(secs.last().2)
    }
}

/// The first droppable section from `j` on whose key is `key`.
pub open spec fn droppable_from(secs: Seq<SectionV>, key: Seq<char>, j: int) -> Option<int>
    decreases secs.len() - j,
{
    if j < 0 || j >= secs.len() {
        None
    } else if secs[j].0 == key && !secs[j].1 {
        Some(j)
    } else {
        droppable_from(secs, key, j + 1)
    }
}

/// `secs` without its first droppable section keyed `key`.
pub open spec fn drop_key(secs: Seq<SectionV>, key: Seq<char>) -> Seq<SectionV> {
    match droppable_from(secs, key, 0) {
        Some(j) => secs.remove(j),
        None => secs,
    }
}

/// The order in which droppable sections give way to the budget.
pub open spec fn drop_order() -> Seq<Seq<char>> {
    seq!["tree"@, "assumptions"@, "questions"@, "history"@, "failure"@, "planner"@]
}

/// Drops sections keyed by `keys`, in order, until the texts fit `budget`.
pub open spec fn drop_pass(secs: Seq<SectionV>, budget: nat, keys: Seq<Seq<char>>) -> Seq<SectionV>
    decreases keys.len(),
{
    if keys.len() == 0 || content_bytes(secs) <= budget {
        secs
    } else {
        drop_pass(drop_key(secs, keys[0]), budget, keys.drop_first())
    }
}

/// The bytes left for the last section once the others are counted.
pub open spec fn allowed_bytes(secs: Seq<SectionV>, budget: nat) -> nat {
    let other = content_bytes(secs.drop_last());
    if budget >= other { (budget - other) as nat } else { 0 }
}

/// The byte length the last section is cut to, when the texts still exceed
/// `budget`: what is left after the other sections, less room for the
/// `\n[truncated]` mark when there is room for it.
pub open spec fn cut_length(secs: Seq<SectionV>, budget: nat) -> Option<nat> {
    let allowed = allowed_bytes(secs, budget);
    if content_bytes(secs) > budget && secs.len() > 0 && byte_len(secs.last().2) > allowed {
        if allowed > 12 {
            Some((allowed - 12) as nat)
        } else {
            Some(allowed)
        }
    } else {
        None
    }
}

/// The last section cut as `cut_length` says, marked `\n[truncated]` when
/// there was room for the mark.
pub open spec fn cut_last(secs: Seq<SectionV>, budget: nat) -> Seq<SectionV> {
    match cut_length(secs, budget) {
        None => secs,
        Some(n) => {
            let last = secs.last();
            let kept = last.2.take(crate::io::git::char_index_at_byte(last.2, n as int).unwrap());
            let text = if allowed_bytes(secs, budget) > 12 { kept + "\n[truncated]"@ } else { kept };
            secs.update(secs.len() - 1, (last.0, last.1, text))
        },
    }
}

/// The sections that fit `budget`.
pub open spec fn budgeted(secs: Seq<SectionV>, budget: nat) -> Seq<SectionV> {
    cut_last(drop_pass(secs, budget, drop_order()), budget)
}

/// Whether cutting the last section to fit `budget` lands on a character boundary.
pub open spec fn cut_on_boundary(secs: Seq<SectionV>, budget: nat) -> bool {
    let d = drop_pass(secs, budget, drop_order());
    match cut_length(d, budget) {
        None => true,
        Some(n) => crate::io::git::char_index_at_byte(d.last().2, n as int) is Some,
    }
}

proof fn lemma_content_bytes_remove(secs: Seq<SectionV>, j: int)
    requires
        0 <= j < secs.len(),
    ensures
        content_bytes(secs.remove(j)) + byte_len(secs[j].2) == content_bytes(secs),
    decreases secs.len(),
{
    if j < secs.len() - 1 {
        lemma_content_bytes_remove(secs.drop_last(), j);
        assert(secs.remove(j).drop_last() =~= secs.drop_last().remove(j));
        assert(secs.remove(j).last() == secs.last());
    } else {
        assert(secs.remove(j) =~= secs.drop_last());
    }
}

pub proof fn lemma_drop_pass_le(secs: Seq<SectionV>, budget: nat, keys: Seq<Seq<char>>)
    ensures
        content_bytes(drop_pass(secs, budget, keys)) <= content_bytes(secs),
    decreases keys.len(),
{
    if !(keys.len() == 0 || content_bytes(secs) <= budget) {
        let d = drop_key(secs, keys[0]);
        match droppable_from(secs, keys[0], 0) {
            Some(j) => {
                lemma_droppable_from(secs, keys[0], 0);
                lemma_content_bytes_remove(secs, j);
            },
            None => {},
        }
        lemma_drop_pass_le(d, budget, keys.drop_first());
    }
}

proof fn lemma_droppable_from(secs: Seq<SectionV>, key: Seq<char>, j: int)
    requires
        0 <= j,
    ensures
        droppable_from(secs, key, j) matches Some(i) ==> j <= i < secs.len() && secs[i].0 == key && !secs[i].1,
        droppable_from(secs, key, j) is None ==> forall|i: int| j <= i < secs.len() ==> !(#[trigger] secs[i].0 == key && !secs[i].1),
    decreases secs.len() - j,
{
    if 0 <= j < secs.len() && !(secs[j].0 == key && !secs[j].1) {
        lemma_droppable_from(secs, key, j + 1);
    }
}

pub fn total_bytes(v: &Vec<ParsedSection>) -> (r: usize)
    requires
        content_bytes(sections_view(v@)) <= usize::MAX,
    ensures
        r == content_bytes(sections_view(v@)),
{
    let ghost sv = sections_view(v@);
    let mut acc: usize = 0;
    let mut i: usize = 0;
    while i < v.len()
        invariant
            sv == sections_view(v@),
            i <= v@.len(),
            content_bytes(sv) <= usize::MAX,
            acc == content_bytes(sv.take(i as int)),
        decreases v@.len() - i,
    {
        proof {
            assert(sv.take(i + 1).drop_last() =~= sv.take(i as int));
            assert(sv.take(i + 1).last() == sv[i as int]);
            lemma_content_bytes_take(sv, i + 1);
        }
        let c = chars_of(v[i].content.as_str());
        let n = byte_length(c.as_slice());
        acc = acc + n;
        i = i + 1;
    }
    proof {
        assert(sv.take(v@.len() as int) =~= sv);
    }
    acc
}

proof fn lemma_content_bytes_take(s: Seq<SectionV>, k: int)
    requires
        0 <= k <= s.len(),
    ensures
        content_bytes(s.take(k)) <= content_bytes(s),
    decreases s.len() - k,
{
    if k < s.len() {
        lemma_content_bytes_take(s.drop_last(), k);
        assert(s.drop_last().take(k) =~= s.take(k));
    } else {
        assert(s.take(k) =~= s);
    }
}

fn position_droppable(v: &Vec<ParsedSection>, key: &str) -> (r: Option<usize>)
    ensures
        match r {
            Some(j) => droppable_from(sections_view(v@), key@, 0) == Some(j as int),
            None => droppable_from(sections_view(v@), key@, 0) is None,
        },
{
    let ghost sv = sections_view(v@);
    let mut j: usize = 0;
    while j < v.len()
        invariant
            sv == sections_view(v@),
            j <= v@.len(),
            droppable_from(sv, key@, 0) == droppable_from(sv, key@, j as int),
        decreases v@.len() - j,
    {
        if crate::text::str_eq(v[j].key.as_str(), key) && !v[j].required {
            return Some(j);
        }
        j = j + 1;
    }
    None
}

/// Drops droppable sections keyed `tree`, `assumptions`, `questions`,
/// `history`, `failure`, `planner`, in that order, until the texts fit.
pub fn drop_sections(sections: &mut Vec<ParsedSection>, budget: usize)
    requires
        content_bytes(sections_view(old(sections)@)) <= usize::MAX,
    ensures
        sections_view(final(sections)@) == drop_pass(sections_view(old(sections)@), budget as nat, drop_order()),
{
    let ghost start = sections_view(sections@);
    let keys: Vec<&str> = vec!["tree", "assumptions", "questions", "history", "failure", "planner"];
    let ghost gkeys = drop_order();
    proof {
        assert(keys@.map_values(|k: &str| k@) =~= gkeys);
    }
    let mut i: usize = 0;
    proof {
        assert(gkeys.skip(0) =~= gkeys);
    }
    while i < keys.len()
        invariant
            i <= keys@.len(),
            keys@.len() == 6,
            keys@.map_values(|k: &str| k@) == gkeys,
            gkeys == drop_order(),
            content_bytes(sections_view(sections@)) <= usize::MAX,
            drop_pass(start, budget as nat, gkeys) == drop_pass(sections_view(sections@), budget as nat, gkeys.skip(i as int)),
        ensures
            drop_pass(start, budget as nat, gkeys) == sections_view(sections@),
        decreases keys@.len() - i,
    {
        let total = total_bytes(sections);
        if total <= budget {
            break;
        }
        let ghost cur = sections_view(sections@);
        proof {
            assert(gkeys.skip(i as int)[0] == keys@[i as int]@) by {
                assert(keys@.map_values(|k: &str| k@)[i as int] == keys@[i as int]@);
            }
            assert(gkeys.skip(i as int).drop_first() =~= gkeys.skip(i + 1));
        }
        match position_droppable(sections, keys[i]) {
            Some(j) => {
                proof {
                    lemma_droppable_from(cur, keys@[i as int]@, 0);
                    lemma_content_bytes_remove(cur, j as int);
                }
                sections.remove(j);
                proof {
                    assert(sections_view(sections@) =~= cur.remove(j as int));
                }
            },
            None => {},
        }
        i = i + 1;
        proof {
            if i == keys@.len() {
                assert(gkeys.skip(i as int).len() == 0);
            }
        }
    }
}

/// Drops droppable sections (`tree`, then `assumptions`, `questions`,
/// `history`, `failure`, `planner`) until the texts fit `budget`; if they
/// still do not fit, the last section is cut to what is left and marked
/// `[truncated]` when there is room for the mark.
pub fn apply_budget_to_sections(sections: &mut Vec<ParsedSection>, budget: usize)
    requires
        content_bytes(sections_view(old(sections)@)) <= usize::MAX,
        cut_on_boundary(sections_view(old(sections)@), budget as nat),
    ensures
        sections_view(final(sections)@) == budgeted(sections_view(old(sections)@), budget as nat),
{
    proof {
        lemma_drop_pass_le(sections_view(sections@), budget as nat, drop_order());
    }
    drop_sections(sections, budget);
    let ghost d = sections_view(sections@);
    let total = total_bytes(sections);
    if total > budget && sections.len() > 0 {
        let n = sections.len();
        let last_len = byte_length(chars_of(sections[n - 1].content.as_str()).as_slice());
        proof {
            assert(d.drop_last().push(d.last()) =~= d);
            assert(d.last() == sections_view(sections@)[n - 1]);
        }
        let other = total - last_len;
        let allowed = if budget >= other { budget - other } else { 0 };
        if last_len > allowed {
            let cut = if allowed > 12 { allowed - 12 } else { allowed };
            let mut last = sections.pop().unwrap();
            let c = chars_of(last.content.as_str());
            let k = char_index_at_bytes(c.as_slice(), cut).unwrap();
            let mut kept = string_from_chars(slice_chars(c.as_slice(), 0, k).as_slice());
            if allowed > 12 {
                kept.append("\n[truncated]");
            }
            proof {
                assert(c@.subrange(0, k as int) =~= c@.take(k as int));
            }
            last.content = kept;
            sections.push(last);
            proof {
                assert(sections_view(sections@) =~= d.update(d.len() - 1, (d.last().0, d.last().1, last.content@)));
            }
        }
    }
}

/// The section texts joined by blank lines.
pub open spec fn rendered_sections(secs: Seq<SectionV>) -> Seq<char> {
    join(secs.map_values(|s: SectionV| s.2), "\n\n"@)
}

/// The section texts joined by blank lines.
pub fn render_sections(sections: &Vec<ParsedSection>) -> (r: String)
    ensures
        r@ == rendered_sections(sections_view(sections@)),
{
    let mut texts: Vec<String> = Vec::new();
    let mut i: usize = 0;
    while i < sections.len()
        invariant
            i <= sections@.len(),
            strings_view(texts@) == sections_view(sections@).map_values(|s: SectionV| s.2).take(i as int),
        decreases sections@.len() - i,
    {
        let ghost before = texts@;
        texts.push(sections[i].content.clone());
        proof {
            assert(strings_view(texts@) =~= strings_view(before).push(sections@[i as int].content@));
            assert(sections_view(sections@).map_values(|s: SectionV| s.2).take(i + 1)
                =~= sections_view(sections@).map_values(|s: SectionV| s.2).take(i as int).push(sections@[i as int].content@));
        }
        i = i + 1;
    }
    proof {
        assert(sections_view(sections@).map_values(|s: SectionV| s.2).take(sections@.len() as int)
            =~= sections_view(sections@).map_values(|s: SectionV| s.2));
    }
    crate::text::join_strings(&texts, "\n\n")
}

} // verus!
