//! Paths held as strings, joined as `Path::join` joins a relative component.

use vstd::prelude::*;

verus! {

/// `base` joined with `part`: a `part` that starts with `/` replaces `base`;
/// otherwise one `/` separates them unless `base` is empty or already ends
/// with one.
pub open spec fn join_path(base: Seq<char>, part: Seq<char>) -> Seq<char> {
    if part.len() > 0 && part[0] == '/' {
        part
    } else if base.len() == 0 {
        part
    } else if base.last() == '/' {
        base + part
    } else {
        base + seq!['/'] + part
    }
}

/// `base` joined with `part` (as `Path::new(base).join(part)`).
pub fn join(base: &str, part: &str) -> (r: String)
    ensures
        r@ == join_path(base@, part@),
{
    let b = crate::text::chars_of(base);
    let p = crate::text::chars_of(part);
    if p.len() > 0 && p[0] == '/' {
        return part.to_string();
    }
    if b.len() == 0 {
        return part.to_string();
    }
    let mut r = base.to_string();
    if b[b.len() - 1] != '/' {
        crate::text::push_char(&mut r, '/');
    }
    r.append(part);
    r
}

} // verus!
