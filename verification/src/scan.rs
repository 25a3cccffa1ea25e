//! Whitespace, trimming and line splitting over character sequences, with the
//! meaning `char::is_whitespace`, `str::trim` and `str::lines` give them.

use vstd::prelude::*;

use crate::text::{chars_of, decimal, digit_char, string_from_chars};

verus! {

/// The Unicode `White_Space` property (what `char::is_whitespace` tests).
pub open spec fn is_ws(c: char) -> bool {
    let u = c as u32;
    (9 <= u && u <= 13) || u == 32 || u == 0x85 || u == 0xa0 || u == 0x1680
        || (0x2000 <= u && u <= 0x200a) || u == 0x2028 || u == 0x2029 || u == 0x202f
        || u == 0x205f || u == 0x3000
}

/// `s` without its leading whitespace.
pub open spec fn trim_start(s: Seq<char>) -> Seq<char>
    decreases s.len(),
{
    if s.len() > 0 && is_ws(s[0]) {
        trim_start(s.drop_first())
    } else {
        s
    }
}

/// `s` without its trailing whitespace.
pub open spec fn trim_end(s: Seq<char>) -> Seq<char>
    decreases s.len(),
{
    if s.len() > 0 && is_ws(s.last()) {
        trim_end(s.drop_last())
    } else {
        s
    }
}

/// `s` without leading and trailing whitespace.
pub open spec fn trim(s: Seq<char>) -> Seq<char> {
    trim_end(trim_start(s))
}

/// Whether `c` is whitespace.
pub fn is_whitespace(c: char) -> (r: bool)
    ensures
        r == is_ws(c),
{
    let u = c as u32;
    (9 <= u && u <= 13) || u == 32 || u == 0x85 || u == 0xa0 || u == 0x1680
        || (0x2000 <= u && u <= 0x200a) || u == 0x2028 || u == 0x2029 || u == 0x202f
        || u == 0x205f || u == 0x3000
}

proof fn lemma_trim_start_at(s: Seq<char>, i: int)
    requires
        0 <= i <= s.len(),
        forall|k: int| 0 <= k < i ==> is_ws(#[trigger] s[k]),
        i == s.len() || !is_ws(s[i]),
    ensures
        trim_start(s) == s.subrange(i, s.len() as int),
    decreases i,
{
    if i == 0 {
        assert(s.subrange(0, s.len() as int) =~= s);
    } else {
        assert(is_ws(s[0]));
        assert forall|k: int| 0 <= k < i - 1 implies is_ws(#[trigger] s.drop_first()[k]) by {
            assert(is_ws(s[k + 1]));
        }
        if i < s.len() {
            assert(s.drop_first()[i - 1] == s[i]);
        }
        lemma_trim_start_at(s.drop_first(), i - 1);
        assert(s.drop_first().subrange(i - 1, s.len() - 1) =~= s.subrange(i, s.len() as int));
    }
}

proof fn lemma_trim_end_at(s: Seq<char>, j: int)
    requires
        0 <= j <= s.len(),
        forall|k: int| j <= k < s.len() ==> is_ws(#[trigger] s[k]),
        j == 0 || !is_ws(s[j - 1]),
    ensures
        trim_end(s) == s.subrange(0, j),
    decreases s.len() - j,
{
    if j == s.len() {
        assert(s.subrange(0, j) =~= s);
    } else {
        assert(is_ws(s.last()));
        lemma_trim_end_at(s.drop_last(), j);
        assert(s.drop_last().subrange(0, j) =~= s.subrange(0, j));
    }
}

/// The bounds `(lo, hi)` of `v` without its leading and trailing whitespace.
pub fn trim_bounds(v: &[char]) -> (r: (usize, usize))
    ensures
        r.0 <= r.1 <= v@.len(),
        v@.subrange(r.0 as int, r.1 as int) == trim(v@),
{
    let mut lo: usize = 0;
    while lo < v.len() && is_whitespace(v[lo])
        invariant
            lo <= v@.len(),
            forall|k: int| 0 <= k < lo ==> is_ws(#[trigger] v@[k]),
        decreases v@.len() - lo,
    {
        lo = lo + 1;
    }
    proof {
        lemma_trim_start_at(v@, lo as int);
    }
    let ghost rest = v@.subrange(lo as int, v@.len() as int);
    let mut hi: usize = v.len();
    while hi > lo && is_whitespace(v[hi - 1])
        invariant
            lo <= hi <= v@.len(),
            rest == v@.subrange(lo as int, v@.len() as int),
            forall|k: int| hi <= k < v@.len() ==> is_ws(#[trigger] v@[k]),
        decreases hi,
    {
        hi = hi - 1;
    }
    proof {
        assert forall|k: int| hi - lo <= k < rest.len() implies is_ws(#[trigger] rest[k]) by {
            assert(rest[k] == v@[k + lo]);
        }
        if hi > lo {
            assert(rest[hi - lo - 1] == v@[hi - 1]);
        }
        lemma_trim_end_at(rest, hi - lo);
        assert(rest.subrange(0, hi - lo) =~= v@.subrange(lo as int, hi as int));
    }
    (lo, hi)
}

/// `s` with leading and trailing whitespace removed (as `s.trim()`).
pub fn trim_str(s: &str) -> (r: String)
    ensures
        r@ == trim(s@),
{
    let v = chars_of(s);
    let (lo, hi) = trim_bounds(v.as_slice());
    let mut part: Vec<char> = Vec::new();
    let mut i = lo;
    while i < hi
        invariant
            lo <= i <= hi <= v@.len(),
            part@ == v@.subrange(lo as int, i as int),
        decreases hi - i,
    {
        part.push(v[i]);
        proof {
            assert(part@ =~= v@.subrange(lo as int, i + 1));
        }
        i = i + 1;
    }
    string_from_chars(part.as_slice())
}

/// Whether `s` is empty or only whitespace (`s.trim().is_empty()`).
pub fn is_blank(s: &str) -> (r: bool)
    ensures
        r == (trim(s@).len() == 0),
{
    let v = chars_of(s);
    let (lo, hi) = trim_bounds(v.as_slice());
    lo == hi
}

/// The pieces of `s` between `'\n'` characters (as `s.split('\n')`).
pub open spec fn split_nl(s: Seq<char>) -> Seq<Seq<char>>
    decreases s.len(),
{
    if s.len() == 0 {
        seq![Seq::<char>::empty()]
    } else if s.last() == '\n' {
        split_nl(s.drop_last()).push(Seq::empty())
    } else {
        let p = split_nl(s.drop_last());
        p.update(p.len() - 1, p.last().push(s.last()))
    }
}

/// A line without one trailing `'\r'`.
pub open spec fn strip_cr(l: Seq<char>) -> Seq<char> {
    if l.len() > 0 && l.last() == '\r' {
        l.drop_last()
    } else {
        l
    }
}

/// The lines of `s` (as `s.lines()`): a final line ending is optional, and a
/// `'\r'` before a `'\n'` belongs to the line ending.
pub open spec fn lines_of(s: Seq<char>) -> Seq<Seq<char>> {
    let p = split_nl(s);
    let done = p.drop_last().map_values(|l: Seq<char>| strip_cr(l));
    if p.last().len() == 0 {
        done
    } else {
        done.push(p.last())
    }
}

proof fn lemma_split_nl_nonempty(s: Seq<char>)
    ensures
        split_nl(s).len() >= 1,
    decreases s.len(),
{
    if s.len() > 0 {
        lemma_split_nl_nonempty(s.drop_last());
    }
}

fn strip_cr_chars(l: Vec<char>) -> (r: Vec<char>)
    ensures
        r@ == strip_cr(l@),
{
    let mut l = l;
    if l.len() > 0 && l[l.len() - 1] == '\r' {
        l.pop();
    }
    l
}

/// The lines of `s`, as `s.lines()` yields them.
pub fn lines(s: &str) -> (r: Vec<String>)
    ensures
        crate::tree::strings_view(r@) == lines_of(s@),
{
    let v = chars_of(s);
    let mut done: Vec<String> = Vec::new();
    let mut cur: Vec<char> = Vec::new();
    let mut i: usize = 0;
    while i < v.len()
        invariant
            i <= v@.len(),
            split_nl(v@.take(i as int)).len() >= 1,
            crate::tree::strings_view(done@) == split_nl(v@.take(i as int)).drop_last().map_values(
                |l: Seq<char>| strip_cr(l),
            ),
            cur@ == split_nl(v@.take(i as int)).last(),
        decreases v@.len() - i,
    {
        let c = v[i];
        proof {
            assert(v@.take(i + 1).drop_last() =~= v@.take(i as int));
            assert(v@.take(i + 1).last() == c);
            lemma_split_nl_nonempty(v@.take(i + 1));
        }
        if c == '\n' {
            let ghost before = done@;
            let line = strip_cr_chars(cur);
            let text = string_from_chars(line.as_slice());
            done.push(text);
            cur = Vec::new();
            proof {
                let p = split_nl(v@.take(i as int));
                assert(split_nl(v@.take(i + 1)) == p.push(Seq::<char>::empty()));
                assert(p.push(Seq::<char>::empty()).drop_last() =~= p);
                assert(done@ == before.push(text));
                assert(crate::tree::strings_view(done@) =~= crate::tree::strings_view(before).push(text@));
                assert(p.map_values(|l: Seq<char>| strip_cr(l)) =~= p.drop_last().map_values(
                    |l: Seq<char>| strip_cr(l)).push(strip_cr(p.last())));
                assert(cur@ =~= Seq::<char>::empty());
            }
        } else {
            cur.push(c);
            proof {
                let p = split_nl(v@.take(i as int));
                let q = p.update(p.len() - 1, p.last().push(c));
                assert(split_nl(v@.take(i + 1)) == q);
                assert(q.drop_last() =~= p.drop_last());
            }
        }
        i = i + 1;
    }
    proof {
        assert(v@.take(v@.len() as int) =~= v@);
    }
    if cur.len() > 0 {
        let ghost before = done@;
        let last = string_from_chars(cur.as_slice());
        done.push(last);
        proof {
            let p = split_nl(v@);
            assert(done@ == before.push(last));
            assert(crate::tree::strings_view(done@) =~= p.drop_last().map_values(|l: Seq<char>| strip_cr(l)).push(p.last()));
        }
    }
    done
}

/// The first index at or after `i` where `pat` occurs in `s`.
pub open spec fn find_from(s: Seq<char>, pat: Seq<char>, i: int) -> Option<int>
    decreases s.len() + 1 - i,
{
    if i < 0 || i + pat.len() > s.len() {
        None
    } else if s.subrange(i, i + pat.len()) == pat {
        Some(i)
    } else {
        find_from(s, pat, i + 1)
    }
}

/// A found index is a place where `pat` occurs.
pub proof fn lemma_find_from_some(s: Seq<char>, pat: Seq<char>, i: int)
    ensures
        find_from(s, pat, i) matches Some(j) ==> i <= j && j + pat.len() <= s.len()
            && s.subrange(j, j + pat.len()) == pat,
    decreases s.len() + 1 - i,
{
    if !(i < 0 || i + pat.len() > s.len()) && s.subrange(i, i + pat.len()) != pat {
        lemma_find_from_some(s, pat, i + 1);
    }
}

/// The index of the first occurrence of `pat` in `s` (as `str::find`).
pub open spec fn find_seq(s: Seq<char>, pat: Seq<char>) -> Option<int> {
    find_from(s, pat, 0)
}

/// The first occurrence of `pat` in `v`.
pub fn find_chars(v: &[char], pat: &[char]) -> (r: Option<usize>)
    ensures
        match r {
            Some(i) => find_seq(v@, pat@) == Some(i as int),
            None => find_seq(v@, pat@) is None,
        },
{
    if pat.len() > v.len() {
        return None;
    }
    let mut i: usize = 0;
    let last = v.len() - pat.len();
    loop
        invariant
            pat@.len() <= v@.len(),
            last == v@.len() - pat@.len(),
            i <= last,
            find_seq(v@, pat@) == find_from(v@, pat@, i as int),
        decreases last - i,
    {
        let mut k: usize = 0;
        let mut same = true;
        proof {
            assert(v@.subrange(i as int, i as int) =~= pat@.take(0));
        }
        while k < pat.len()
            invariant
                pat@.len() <= v@.len(),
                v@.len() == v.len(),
                i <= last,
                last == v@.len() - pat@.len(),
                k <= pat@.len(),
                same == (v@.subrange(i as int, i + k) == pat@.take(k as int)),
            decreases pat@.len() - k,
        {
            assert(i + k < v@.len());
            if same && v[i + k] != pat[k] {
                same = false;
            }
            proof {
                if same {
                    assert(v@.subrange(i as int, i + k + 1) =~= v@.subrange(i as int, i + k).push(v@[i + k]));
                    assert(pat@.take(k + 1) =~= pat@.take(k as int).push(pat@[k as int]));
                } else {
                    if v@.subrange(i as int, i + k + 1) == pat@.take(k + 1) {
                        assert(v@.subrange(i as int, i + k + 1)[k as int] == pat@.take(k + 1)[k as int]);
                        assert(v@.subrange(i as int, i + k) =~= v@.subrange(i as int, i + k + 1).take(k as int));
                        assert(pat@.take(k as int) =~= pat@.take(k + 1).take(k as int));
                    }
                }
            }
            k = k + 1;
        }
        proof {
            assert(pat@.take(pat@.len() as int) =~= pat@);
        }
        if same {
            return Some(i);
        }
        if i == last {
            return None;
        }
        i = i + 1;
    }
}

/// The parts of `s` before and after its first `c` (as `str::split_once`).
pub open spec fn split_once(s: Seq<char>, c: char) -> Option<(Seq<char>, Seq<char>)> {
    match find_seq(s, seq![c]) {
        Some(i) => Some((s.take(i), s.skip(i + 1))),
        None => None,
    }
}

/// Splits `v` at its first `c`.
pub fn split_once_chars(v: &[char], c: char) -> (r: Option<(Vec<char>, Vec<char>)>)
    ensures
        match r {
            Some((a, b)) => split_once(v@, c) == Some((a@, b@)),
            None => split_once(v@, c) is None,
        },
{
    let pat = vec![c];
    proof {
        assert(pat@ =~= seq![c]);
    }
    match find_chars(v, pat.as_slice()) {
        None => None,
        Some(i) => {
            proof {
                assert(pat@ =~= seq![c]);
                lemma_find_from_some(v@, seq![c], 0);
                assert(v@.take(i as int) =~= v@.subrange(0, i as int));
                assert(v@.skip(i + 1) =~= v@.subrange(i + 1, v@.len() as int));
                assert(find_seq(v@, seq![c]) == Some(i as int));
                assert(i + 1 <= v@.len());
                assert(v@.len() == v.len());
            }
            let a = slice_chars(v, 0, i);
            let b = slice_chars(v, i + 1, v.len());
            proof {
                assert(split_once(v@, c) == Some((a@, b@)));
            }
            Some((a, b))
        },
    }
}

/// The characters of `v` from `lo` up to `hi`.
pub fn slice_chars(v: &[char], lo: usize, hi: usize) -> (r: Vec<char>)
    requires
        lo <= hi <= v@.len(),
    ensures
        r@ == v@.subrange(lo as int, hi as int),
{
    let mut r: Vec<char> = Vec::new();
    let mut i = lo;
    while i < hi
        invariant
            lo <= i <= hi <= v@.len(),
            r@ == v@.subrange(lo as int, i as int),
        decreases hi - i,
    {
        r.push(v[i]);
        proof {
            assert(r@ =~= v@.subrange(lo as int, i + 1));
        }
        i = i + 1;
    }
    r
}

/// Whether `s` begins with `pat`.
pub open spec fn starts_with(s: Seq<char>, pat: Seq<char>) -> bool {
    pat.len() <= s.len() && s.take(pat.len() as int) == pat
}

/// Whether `v` begins with `pat`.
pub fn starts_with_chars(v: &[char], pat: &[char]) -> (r: bool)
    ensures
        r == starts_with(v@, pat@),
{
    if pat.len() > v.len() {
        return false;
    }
    let mut k: usize = 0;
    while k < pat.len()
        invariant
            pat@.len() <= v@.len(),
            k <= pat@.len(),
            v@.take(k as int) == pat@.take(k as int),
        decreases pat@.len() - k,
    {
        if v[k] != pat[k] {
            proof {
                assert(v@.take(pat@.len() as int)[k as int] != pat@[k as int]);
            }
            return false;
        }
        proof {
            assert(v@.take(k + 1) =~= v@.take(k as int).push(v@[k as int]));
            assert(pat@.take(k + 1) =~= pat@.take(k as int).push(pat@[k as int]));
        }
        k = k + 1;
    }
    proof {
        assert(pat@.take(pat@.len() as int) =~= pat@);
    }
    true
}

/// The parts of `s` before and after its first `pat` (as `str::split_once`).
pub open spec fn split_once_seq(s: Seq<char>, pat: Seq<char>) -> Option<(Seq<char>, Seq<char>)> {
    match find_seq(s, pat) {
        Some(i) => Some((s.take(i), s.skip(i + pat.len()))),
        None => None,
    }
}

/// Splits `v` at its first `pat`.
pub fn split_once_pat(v: &[char], pat: &[char]) -> (r: Option<(Vec<char>, Vec<char>)>)
    ensures
        match r {
            Some((a, b)) => split_once_seq(v@, pat@) == Some((a@, b@)),
            None => split_once_seq(v@, pat@) is None,
        },
{
    match find_chars(v, pat) {
        None => None,
        Some(i) => {
            proof {
                lemma_find_from_some(v@, pat@, 0);
                assert(v@.take(i as int) =~= v@.subrange(0, i as int));
                assert(v@.skip(i + pat@.len()) =~= v@.subrange(i + pat@.len(), v@.len() as int));
                assert(v@.len() == v.len());
                assert(pat@.len() == pat.len());
            }
            let a = slice_chars(v, 0, i);
            let b = slice_chars(v, i + pat.len(), v.len());
            Some((a, b))
        },
    }
}

/// How many bytes `c` takes in UTF-8.
pub open spec fn utf8_width(c: char) -> nat {
    let u = c as u32;
    if u < 0x80 {
        1
    } else if u < 0x800 {
        2
    } else if u < 0x10000 {
        3
    } else {
        4
    }
}

/// How many bytes `s` takes in UTF-8 (what `str::len` returns).
pub open spec fn byte_len(s: Seq<char>) -> nat
    decreases s.len(),
{
    if s.len() == 0 {
        0
    } else {
        byte_len(s.drop_last()) + utf8_width(s.last())
    }
}

/// How many bytes `c` takes in UTF-8.
pub fn char_width(c: char) -> (r: usize)
    ensures
        r == utf8_width(c),
{
    let u = c as u32;
    if u < 0x80 {
        1
    } else if u < 0x800 {
        2
    } else if u < 0x10000 {
        3
    } else {
        4
    }
}

/// Every character takes at least one byte.
pub proof fn lemma_byte_len_at_least(s: Seq<char>)
    ensures
        byte_len(s) >= s.len(),
    decreases s.len(),
{
    if s.len() > 0 {
        lemma_byte_len_at_least(s.drop_last());
    }
}

/// A prefix takes no more bytes than the whole.
pub proof fn lemma_byte_len_take(s: Seq<char>, k: int)
    requires
        0 <= k <= s.len(),
    ensures
        byte_len(s.take(k)) <= byte_len(s),
    decreases s.len() - k,
{
    if k < s.len() {
        lemma_byte_len_take(s.drop_last(), k);
        assert(s.drop_last().take(k) =~= s.take(k));
    } else {
        assert(s.take(k) =~= s);
    }
}

/// How many bytes `v` takes in UTF-8.
pub fn byte_length(v: &[char]) -> (r: usize)
    requires
        byte_len(v@) <= usize::MAX,
    ensures
        r == byte_len(v@),
{
    let mut acc: usize = 0;
    let mut i: usize = 0;
    proof {
        assert(v@.take(0) =~= Seq::<char>::empty());
    }
    while i < v.len()
        invariant
            i <= v@.len(),
            v@.len() == v.len(),
            byte_len(v@) <= usize::MAX,
            acc == byte_len(v@.take(i as int)),
        decreases v@.len() - i,
    {
        proof {
            assert(v@.take(i + 1).drop_last() =~= v@.take(i as int));
            assert(v@.take(i + 1).last() == v@[i as int]);
            lemma_byte_len_take(v@, i + 1);
        }
        acc = acc + char_width(v[i]);
        i = i + 1;
    }
    proof {
        assert(v@.take(v@.len() as int) =~= v@);
    }
    acc
}

/// The number of characters in the first `b` bytes of `v`, when byte `b`
/// starts a character (or is the end).
pub fn char_index_at_bytes(v: &[char], b: usize) -> (r: Option<usize>)
    requires
        byte_len(v@) <= usize::MAX,
    ensures
        match r {
            Some(k) => crate::io::git::char_index_at_byte(v@, b as int) == Some(k as int) && k <= v@.len(),
            None => crate::io::git::char_index_at_byte(v@, b as int) is None,
        },
{
    let mut k: usize = 0;
    let mut used: usize = 0;
    proof {
        assert(v@.take(0) =~= Seq::<char>::empty());
    }
    loop
        invariant
            k <= v@.len(),
            v@.len() == v.len(),
            byte_len(v@) <= usize::MAX,
            used == byte_len(v@.take(k as int)),
            used <= b,
            crate::io::git::char_index_at_byte(v@, b as int) == crate::io::git::boundary_from(v@, b as int, k as int),
        decreases v@.len() - k,
    {
        if used == b {
            return Some(k);
        }
        if k == v.len() {
            proof {
                assert(crate::io::git::boundary_from(v@, b as int, (k + 1) as int) is None);
            }
            return None;
        }
        let w = char_width(v[k]);
        proof {
            assert(v@.take(k + 1).drop_last() =~= v@.take(k as int));
            assert(v@.take(k + 1).last() == v@[k as int]);
            lemma_byte_len_take(v@, k + 1);
        }
        k = k + 1;
        if used + w > b {
            return None;
        }
        used = used + w;
    }
}

/// The text of a positive child index: `"<parent>.<n>"`.
pub open spec fn child_id(parent: Seq<char>, n: nat) -> Seq<char> {
    parent + seq!['.'] + decimal(n)
}

proof fn lemma_digit_char_injective(a: nat, b: nat)
    requires
        a < 10,
        b < 10,
        digit_char(a) == digit_char(b),
    ensures
        a == b,
{
}

proof fn lemma_decimal_len(n: nat)
    ensures
        decimal(n).len() >= 1,
        n >= 10 ==> decimal(n).len() >= 2,
    decreases n,
{
    if n >= 10 {
        lemma_decimal_len(n / 10);
    }
}

/// Distinct numbers have distinct decimal renderings.
pub proof fn lemma_decimal_injective(a: nat, b: nat)
    requires
        decimal(a) == decimal(b),
    ensures
        a == b,
    decreases a,
{
    lemma_decimal_len(a);
    lemma_decimal_len(b);
    if a < 10 && b < 10 {
        assert(decimal(a) == seq![digit_char(a)]);
        assert(decimal(b) == seq![digit_char(b)]);
        assert(decimal(a)[0] == digit_char(a));
        assert(decimal(b)[0] == digit_char(b));
        lemma_digit_char_injective(a, b);
    } else if a >= 10 && b >= 10 {
        let da = decimal(a / 10);
        let db = decimal(b / 10);
        assert(decimal(a) == da.push(digit_char(a % 10)));
        assert(decimal(b) == db.push(digit_char(b % 10)));
        assert(da =~= decimal(a).drop_last());
        assert(db =~= decimal(b).drop_last());
        assert(decimal(a).last() == digit_char(a % 10));
        assert(decimal(b).last() == digit_char(b % 10));
        lemma_digit_char_injective(a % 10, b % 10);
        lemma_decimal_injective(a / 10, b / 10);
    } else {
        assert(decimal(a).len() != decimal(b).len());
    }
}

/// Distinct indices give distinct child ids.
pub proof fn lemma_child_id_injective(parent: Seq<char>, a: nat, b: nat)
    requires
        child_id(parent, a) == child_id(parent, b),
    ensures
        a == b,
{
    let k: int = parent.len() as int + 1;
    assert(decimal(a) =~= child_id(parent, a).skip(k));
    assert(decimal(b) =~= child_id(parent, b).skip(k));
    lemma_decimal_injective(a, b);
}

/// Among `used.len() + 1` consecutive indices from 1, one has an unused child id.
pub proof fn lemma_free_child_index(parent: Seq<char>, used: Seq<Seq<char>>)
    ensures
        exists|n: nat| 1 <= n <= used.len() + 1 && !used.contains(#[trigger] child_id(parent, n)),
{
    if forall|n: nat| 1 <= n <= used.len() + 1 ==> used.contains(#[trigger] child_id(parent, n)) {
        let x = vstd::set_lib::set_int_range(1, used.len() as int + 2);
        let f = |i: int| child_id(parent, i as nat);
        vstd::set_lib::lemma_int_range(1, used.len() as int + 2);
        assert(vstd::relations::injective_on(f, x)) by {
            assert forall|i: int, j: int| x.contains(i) && x.contains(j) && #[trigger] f(i) == #[trigger] f(j)
                implies i == j by {
                lemma_child_id_injective(parent, i as nat, j as nat);
            }
        }
        let y = x.map(f);
        vstd::set_lib::lemma_map_size(x, y, f);
        assert(y.subset_of(used.to_set())) by {
            assert forall|e: Seq<char>| y.contains(e) implies used.to_set().contains(e) by {
                let i = choose|i: int| x.contains(i) && f(i) == e;
                assert(used.contains(child_id(parent, i as nat)));
            }
        }
        used.lemma_cardinality_of_set();
        vstd::seq_lib::seq_to_set_is_finite(used);
        vstd::set_lib::lemma_len_subset(y, used.to_set());
        assert(false);
    }
}

} // verus!
