//! Sequences of strings treated as ordered sets: membership, de-duplication
//! and sorting in `String` order.

use vstd::prelude::*;

use crate::text::{seq_lt, string_lt};
use crate::tree::strings_view;

verus! {

/// `s` without repeated elements, keeping first occurrences in order.
pub open spec fn dedup(s: Seq<Seq<char>>) -> Seq<Seq<char>>
    decreases s.len(),
{
    if s.len() == 0 {
        s
    } else {
        let d = dedup(s.drop_last());
        if d.contains(s.last()) {
            d
        } else {
            d.push(s.last())
        }
    }
}

/// Inserts `x` before the first element greater than it.
pub open spec fn insert_str(s: Seq<Seq<char>>, x: Seq<char>) -> Seq<Seq<char>>
    decreases s.len(),
{
    if s.len() == 0 {
        seq![x]
    } else if seq_lt(x, s[0]) {
        seq![x] + s
    } else {
        seq![s[0]] + insert_str(s.drop_first(), x)
    }
}

/// `s` sorted in `String` order.
pub open spec fn sort_strs(s: Seq<Seq<char>>) -> Seq<Seq<char>>
    decreases s.len(),
{
    if s.len() == 0 {
        s
    } else {
        insert_str(sort_strs(s.drop_last()), s.last())
    }
}

/// The elements of `s`, each once, in `String` order (as a `BTreeSet` iterates).
pub open spec fn sorted_set(s: Seq<Seq<char>>) -> Seq<Seq<char>> {
    sort_strs(dedup(s))
}

pub proof fn lemma_dedup_members(s: Seq<Seq<char>>)
    ensures
        forall|y: Seq<char>| #[trigger] dedup(s).contains(y) <==> s.contains(y),
    decreases s.len(),
{
    if s.len() > 0 {
        let p = s.drop_last();
        let d = dedup(p);
        lemma_dedup_members(p);
        assert forall|y: Seq<char>| dedup(s).contains(y) <==> s.contains(y) by {
            lemma_contains_push(p, s.last(), y);
            assert(s =~= p.push(s.last()));
            if d.contains(s.last()) {
                assert(dedup(s) == d);
            } else {
                assert(dedup(s) == d.push(s.last()));
                lemma_contains_push(d, s.last(), y);
            }
        }
    }
}

proof fn lemma_contains_push(s: Seq<Seq<char>>, x: Seq<char>, y: Seq<char>)
    ensures
        s.push(x).contains(y) <==> (s.contains(y) || y == x),
{
    if s.push(x).contains(y) {
        let j = choose|j: int| 0 <= j < s.push(x).len() && s.push(x)[j] == y;
        if j < s.len() {
            assert(s[j] == y);
        }
    }
    if s.contains(y) {
        let j = choose|j: int| 0 <= j < s.len() && s[j] == y;
        assert(s.push(x)[j] == y);
    }
    if y == x {
        assert(s.push(x)[s.len() as int] == y);
    }
}

proof fn lemma_contains_prepend(x: Seq<char>, s: Seq<Seq<char>>, y: Seq<char>)
    ensures
        (seq![x] + s).contains(y) <==> (y == x || s.contains(y)),
{
    let r = seq![x] + s;
    if r.contains(y) {
        let j = choose|j: int| 0 <= j < r.len() && r[j] == y;
        if j > 0 {
            assert(s[j - 1] == y);
        }
    }
    if s.contains(y) {
        let j = choose|j: int| 0 <= j < s.len() && s[j] == y;
        assert(r[j + 1] == y);
    }
    if y == x {
        assert(r[0] == y);
    }
}

pub proof fn lemma_insert_members(s: Seq<Seq<char>>, x: Seq<char>)
    ensures
        forall|y: Seq<char>| #[trigger] insert_str(s, x).contains(y) <==> (s.contains(y) || y == x),
    decreases s.len(),
{
    if s.len() > 0 {
        lemma_insert_members(s.drop_first(), x);
        assert(s =~= seq![s[0]] + s.drop_first());
        assert forall|y: Seq<char>| #[trigger] insert_str(s, x).contains(y) <==> (s.contains(y) || y == x) by {
            lemma_contains_prepend(s[0], s.drop_first(), y);
            if seq_lt(x, s[0]) {
                lemma_contains_prepend(x, s, y);
            } else {
                lemma_contains_prepend(s[0], insert_str(s.drop_first(), x), y);
            }
        }
    } else {
        assert forall|y: Seq<char>| #[trigger] insert_str(s, x).contains(y) <==> (s.contains(y) || y == x) by {
            lemma_contains_prepend(x, s, y);
            assert(seq![x] + s =~= seq![x]);
        }
    }
}

pub proof fn lemma_sort_members(s: Seq<Seq<char>>)
    ensures
        forall|y: Seq<char>| #[trigger] sort_strs(s).contains(y) <==> s.contains(y),
    decreases s.len(),
{
    if s.len() > 0 {
        lemma_sort_members(s.drop_last());
        lemma_insert_members(sort_strs(s.drop_last()), s.last());
        assert forall|y: Seq<char>| sort_strs(s).contains(y) <==> s.contains(y) by {
            lemma_contains_push(s.drop_last(), s.last(), y);
            assert(s =~= s.drop_last().push(s.last()));
        }
    }
}

/// Every element of `sorted_set(s)` occurs in `s`, and conversely.
pub proof fn lemma_sorted_set_members(s: Seq<Seq<char>>)
    ensures
        forall|y: Seq<char>| sorted_set(s).contains(y) <==> s.contains(y),
        forall|i: int| 0 <= i < sorted_set(s).len() ==> exists|j: int| 0 <= j < s.len() && s[j] == #[trigger] sorted_set(s)[i],
{
    lemma_dedup_members(s);
    lemma_sort_members(dedup(s));
    assert forall|i: int| 0 <= i < sorted_set(s).len() implies exists|j: int| 0 <= j < s.len() && s[j] == #[trigger] sorted_set(s)[i] by {
        assert(sorted_set(s).contains(sorted_set(s)[i]));
        assert(s.contains(sorted_set(s)[i]));
        let j = choose|j: int| 0 <= j < s.len() && s[j] == sorted_set(s)[i];
        assert(s[j] == sorted_set(s)[i]);
    }
}

pub proof fn lemma_insert_str_at(s: Seq<Seq<char>>, x: Seq<char>, j: int)
    requires
        0 <= j <= s.len(),
        forall|k: int| 0 <= k < j ==> !seq_lt(x, #[trigger] s[k]),
        j == s.len() || seq_lt(x, s[j]),
    ensures
        insert_str(s, x) == s.insert(j, x),
    decreases j,
{
    if j == 0 {
        if s.len() == 0 {
            assert(s.insert(0, x) =~= seq![x]);
        } else {
            assert(s.insert(0, x) =~= seq![x] + s);
        }
    } else {
        assert forall|k: int| 0 <= k < j - 1 implies !seq_lt(x, #[trigger] s.drop_first()[k]) by {
            assert(s.drop_first()[k] == s[k + 1]);
        }
        lemma_insert_str_at(s.drop_first(), x, j - 1);
        assert(seq![s[0]] + s.drop_first().insert(j - 1, x) =~= s.insert(j, x));
    }
}

/// `s` occurs in `v`.
pub fn contains_str(v: &Vec<String>, s: &str) -> (r: bool)
    ensures
        r == strings_view(v@).contains(s@),
{
    let mut i: usize = 0;
    while i < v.len()
        invariant
            i <= v@.len(),
            forall|k: int| 0 <= k < i ==> v@[k]@ != s@,
        decreases v@.len() - i,
    {
        if crate::text::str_eq(v[i].as_str(), s) {
            proof {
                assert(strings_view(v@)[i as int] == s@);
            }
            return true;
        }
        i = i + 1;
    }
    proof {
        if strings_view(v@).contains(s@) {
            let k = choose|k: int| 0 <= k < strings_view(v@).len() && strings_view(v@)[k] == s@;
            assert(v@[k]@ == s@);
        }
    }
    false
}

/// Pushes `s` onto `v`.
pub fn push_str(v: &mut Vec<String>, s: String)
    ensures
        strings_view(final(v)@) == strings_view(old(v)@).push(s@),
{
    v.push(s);
    proof {
        assert(strings_view(v@) =~= strings_view(old(v)@).push(s@));
    }
}

/// The elements of `v`, each once, keeping first occurrences.
pub fn dedup_strings(v: &Vec<String>) -> (r: Vec<String>)
    ensures
        strings_view(r@) == dedup(strings_view(v@)),
{
    let ghost sv = strings_view(v@);
    let mut out: Vec<String> = Vec::new();
    let mut i: usize = 0;
    proof {
        assert(sv.take(0) =~= Seq::<Seq<char>>::empty());
        assert(strings_view(out@) =~= Seq::<Seq<char>>::empty());
    }
    while i < v.len()
        invariant
            i <= v@.len(),
            sv == strings_view(v@),
            strings_view(out@) == dedup(sv.take(i as int)),
        decreases v@.len() - i,
    {
        proof {
            assert(sv.take(i + 1).drop_last() =~= sv.take(i as int));
            assert(sv.take(i + 1).last() == v@[i as int]@);
        }
        if !contains_str(&out, v[i].as_str()) {
            push_str(&mut out, v[i].clone());
        }
        i = i + 1;
    }
    proof {
        assert(sv.take(v@.len() as int) =~= sv);
    }
    out
}

/// `v` sorted in `String` order.
pub fn sort_strings(v: Vec<String>) -> (r: Vec<String>)
    ensures
        strings_view(r@) == sort_strs(strings_view(v@)),
{
    let ghost sv = strings_view(v@);
    let n = v.len();
    let mut rest = v;
    let mut out: Vec<String> = Vec::new();
    let mut k: usize = 0;
    proof {
        assert(sv.take(0) =~= Seq::<Seq<char>>::empty());
        assert(strings_view(out@) =~= Seq::<Seq<char>>::empty());
        assert(rest@.subrange(0, n as int) =~= rest@);
    }
    let ghost orig = rest@;
    while rest.len() > 0
        invariant
            orig.len() == n,
            sv == strings_view(orig),
            k <= n,
            rest@ == orig.subrange(k as int, n as int),
            rest@.len() == n - k,
            strings_view(out@) == sort_strs(sv.take(k as int)),
        decreases n - k,
    {
        let x = rest.remove(0);
        proof {
            assert(x == orig[k as int]);
        }
        let mut j: usize = 0;
        while j < out.len() && !string_lt(&x, &out[j])
            invariant
                j <= out@.len(),
                forall|i: int| 0 <= i < j ==> !seq_lt(x@, #[trigger] strings_view(out@)[i]),
            decreases out@.len() - j,
        {
            j = j + 1;
        }
        proof {
            lemma_insert_str_at(strings_view(out@), x@, j as int);
        }
        let ghost before = out@;
        out.insert(j, x);
        proof {
            assert(strings_view(out@) =~= strings_view(before).insert(j as int, x@));
            assert(sv.take(k + 1).drop_last() =~= sv.take(k as int));
            assert(sv.take(k + 1).last() == orig[k as int]@);
            assert(rest@ =~= orig.subrange(k + 1, n as int));
        }
        k = k + 1;
    }
    proof {
        assert(sv.take(n as int) =~= sv);
    }
    out
}

/// The elements of `v`, each once, in `String` order.
pub fn sorted_set_of(v: &Vec<String>) -> (r: Vec<String>)
    ensures
        strings_view(r@) == sorted_set(strings_view(v@)),
{
    sort_strings(dedup_strings(v))
}

/// The strings of `keys` at the positions `idx`, in that order.
pub open spec fn keys_at(keys: Seq<String>, idx: Seq<usize>) -> Seq<Seq<char>> {
    idx.map_values(|i: usize| keys[i as int]@)
}

/// The positions of `keys` in the order that sorts them (`String` order,
/// equal keys in their original order): each position once, and the keys
/// read in this order are `keys` sorted.
pub fn sorted_order(keys: &Vec<String>) -> (r: Vec<usize>)
    ensures
        r@.len() == keys@.len(),
        forall|i: int| 0 <= i < r@.len() ==> #[trigger] r@[i] < keys@.len(),
        forall|i: int, j: int| 0 <= i < j < r@.len() ==> #[trigger] r@[i] != #[trigger] r@[j],
        keys_at(keys@, r@) == sort_strs(strings_view(keys@)),
{
    let ghost sv = strings_view(keys@);
    let n = keys.len();
    let mut out: Vec<usize> = Vec::new();
    let mut k: usize = 0;
    proof {
        assert(sv.take(0) =~= Seq::<Seq<char>>::empty());
        assert(keys_at(keys@, out@) =~= Seq::<Seq<char>>::empty());
    }
    while k < n
        invariant
            n == keys@.len(),
            sv == strings_view(keys@),
            k <= n,
            out@.len() == k,
            forall|i: int| 0 <= i < out@.len() ==> #[trigger] out@[i] < k,
            forall|i: int, j: int| 0 <= i < j < out@.len() ==> #[trigger] out@[i] != #[trigger] out@[j],
            keys_at(keys@, out@) == sort_strs(sv.take(k as int)),
        decreases n - k,
    {
        let mut j: usize = 0;
        while j < out.len() && !string_lt(&keys[k], &keys[out[j]])
            invariant
                n == keys@.len(),
                k < n,
                j <= out@.len(),
                forall|i: int| 0 <= i < out@.len() ==> #[trigger] out@[i] < k,
                forall|i: int| 0 <= i < j ==> !seq_lt(keys@[k as int]@, #[trigger] keys_at(keys@, out@)[i]),
            decreases out@.len() - j,
        {
            j = j + 1;
        }
        proof {
            lemma_insert_str_at(keys_at(keys@, out@), keys@[k as int]@, j as int);
        }
        let ghost before = out@;
        out.insert(j, k);
        proof {
            assert(keys_at(keys@, out@) =~= keys_at(keys@, before).insert(j as int, keys@[k as int]@));
            assert(sv.take(k + 1).drop_last() =~= sv.take(k as int));
            assert(sv.take(k + 1).last() == keys@[k as int]@);
            assert forall|i: int| 0 <= i < out@.len() implies #[trigger] out@[i] < k + 1 by {
                if i < j {
                    assert(out@[i] == before[i]);
                } else if i > j {
                    assert(out@[i] == before[i - 1]);
                }
            }
            assert forall|a: int, b: int| 0 <= a < b < out@.len() implies #[trigger] out@[a] != #[trigger] out@[b] by {
                let pa = if a < j { a } else { a - 1 };
                let pb = if b < j { b } else { b - 1 };
                if a != j as int && b != j as int {
                    assert(out@[a] == before[pa] && out@[b] == before[pb]);
                } else if a == j as int {
                    assert(out@[b] == before[pb]);
                } else {
                    assert(out@[a] == before[pa]);
                }
            }
        }
        k = k + 1;
    }
    proof {
        assert(sv.take(n as int) =~= sv);
    }
    out
}

} // verus!
