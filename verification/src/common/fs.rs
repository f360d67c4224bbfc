//! Windows-safe file names.
use vstd::prelude::*;
use crate::text::string_of;
use crate::text::chars_of;

verus! {

/// Characters replaced by `_` in file names.
pub open spec fn forbidden(c: char) -> bool {
    c == '<' || c == '>' || c == ':' || c == '"' || c == '/' || c == '\\' || c == '|' || c == '?'
        || c == '*' || c == '[' || c == ']' || c == '(' || c == ')' || c == ' ' || c == '-' || c
        == '\'' || c == '&' || c == '%'
}

pub open spec fn safe_char(c: char) -> char {
    if forbidden(c) {
        '_'
    } else {
        c
    }
}

/// Trailing dots and spaces removed.
pub open spec fn strip_trailing_dots(s: Seq<char>) -> Seq<char>
    decreases s.len(),
{
    if s.len() > 0 && (s.last() == '.' || s.last() == ' ') {
        strip_trailing_dots(s.drop_last())
    } else {
        s
    }
}

/// The sanitized name: forbidden characters as `_`, cut to at most 150
/// characters, then trailing dots and spaces removed (so the name never
/// ends in one, as Windows requires).
pub open spec fn sanitize_spec(name: Seq<char>) -> Seq<char> {
    let m = name.map_values(|c: char| safe_char(c));
    strip_trailing_dots(if m.len() > 150 {
        m.take(150)
    } else {
        m
    })
}

/// Sanitizes a file name to be Windows-safe: replaces
/// `<>:"/\|?*[]() '-&%` with `_`, truncates to 150 characters, and trims
/// trailing `. `.
pub fn sanitize_filename(name: &str) -> (r: String)
    ensures
        r@ == sanitize_spec(name@),
{
    let v = chars_of(name);
    let mut out: Vec<char> = Vec::new();
    let mut k: usize = 0;
    while k < v.len()
        invariant
            k <= v@.len(),
            out@ == v@.take(k as int).map_values(|c: char| safe_char(c)),
        decreases v@.len() - k,
    {
        let c = v[k];
        let m = if c == '<' || c == '>' || c == ':' || c == '"' || c == '/' || c == '\\' || c
            == '|' || c == '?' || c == '*' || c == '[' || c == ']' || c == '(' || c == ')' || c
            == ' ' || c == '-' || c == '\'' || c == '&' || c == '%' {
            '_'
        } else {
            c
        };
        out.push(m);
        assert(v@.take(k + 1).map_values(|c: char| safe_char(c)) =~= v@.take(k as int).map_values(
            |c: char| safe_char(c),
        ).push(safe_char(c)));
        k = k + 1;
    }
    assert(v@.take(v@.len() as int) =~= v@);
    if out.len() > 150 {
        out.truncate(150);
    }
    let ghost cut = out@;
    assert(cut == (if v@.map_values(|c: char| safe_char(c)).len() > 150 {
        v@.map_values(|c: char| safe_char(c)).take(150)
    } else {
        v@.map_values(|c: char| safe_char(c))
    }));
    while out.len() > 0 && (out[out.len() - 1] == '.' || out[out.len() - 1] == ' ')
        invariant
            strip_trailing_dots(cut) == strip_trailing_dots(out@),
        decreases out@.len(),
    {
        out.pop();
    }
    string_of(&out)
}

proof fn lemma_strip_trailing_dots(s: Seq<char>)
    ensures
        strip_trailing_dots(s).len() <= s.len(),
        strip_trailing_dots(s) == s.take(strip_trailing_dots(s).len() as int),
        strip_trailing_dots(s).len() > 0 ==> strip_trailing_dots(s).last() != '.'
            && strip_trailing_dots(s).last() != ' ',
    decreases s.len(),
{
    if s.len() > 0 && (s.last() == '.' || s.last() == ' ') {
        lemma_strip_trailing_dots(s.drop_last());
        let t = strip_trailing_dots(s.drop_last());
        assert(s.drop_last().take(t.len() as int) =~= s.take(t.len() as int));
    } else {
        assert(s.take(s.len() as int) =~= s);
    }
}

/// A sanitized name is safe on Windows: it holds none of the forbidden
/// characters, has at most 150 characters, and does not end in a dot or a
/// space.
pub proof fn law_sanitized_names_are_safe(name: Seq<char>)
    ensures
        forall|k: int| 0 <= k < sanitize_spec(name).len() ==> !forbidden(#[trigger] sanitize_spec(name)[k]),
        sanitize_spec(name).len() <= 150,
        sanitize_spec(name).len() > 0 ==> sanitize_spec(name).last() != '.'
            && sanitize_spec(name).last() != ' ',
{
    let m = name.map_values(|c: char| safe_char(c));
    let c = if m.len() > 150 {
        m.take(150)
    } else {
        m
    };
    lemma_strip_trailing_dots(c);
    let t = strip_trailing_dots(c);
    let r = sanitize_spec(name);
    assert forall|k: int| 0 <= k < r.len() implies !forbidden(#[trigger] r[k]) by {
        assert(r[k] == t[k]);
        assert(t[k] == c[k]);
        assert(c[k] == m[k]);
        assert(m[k] == safe_char(name[k]));
    }
}

} // verus!
