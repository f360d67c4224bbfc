//! Formatting tags hidden behind `⟦n⟧` placeholders while text goes
//! through a translation engine, and put back afterwards.
use vstd::prelude::*;
use crate::num::{decimal, padded, parse_i64, parse_i64_spec, push_padded};
use crate::pattern::{regex_compiles, regex_find_all, regex_split, rejoin, Pattern};
use crate::text::{chars_of, copy_range, push_all, push_str, string_of, str_to_string};
use crate::translate::prompt::strs;

verus! {

/// ASS override blocks and `\N`, `\n`, `\h` breaks.
pub const TAG: &'static str = "\\{[^}]*\\}|\\\\[Nnh]";

/// A placeholder `⟦n⟧`.
pub const RESTORE: &'static str = "⟦(\\d+)⟧";

/// The placeholder for the `i`-th protected tag.
pub open spec fn placeholder(i: nat) -> Seq<char> {
    "⟦"@ + decimal(i) + "⟧"@
}

/// The placeholders `⟦0⟧ .. ⟦n-1⟧`.
pub open spec fn placeholders(n: nat) -> Seq<Seq<char>> {
    Seq::new(n, |i: int| placeholder(i as nat))
}

/// `text` with its tags replaced by placeholders, and the tags in order.
pub open spec fn protect_spec(t: Seq<char>) -> (Seq<char>, Seq<Seq<char>>) {
    if regex_compiles(TAG@, false) {
        let ms = regex_find_all(TAG@, false, t);
        (rejoin(regex_split(TAG@, false, t), placeholders(ms.len())), ms)
    } else {
        (t, seq![])
    }
}

fn interleave_exec(ps: &Vec<String>, rs: &Vec<Vec<char>>) -> (r: Vec<char>)
    requires
        ps@.len() == rs@.len() + 1,
    ensures
        r@ == rejoin(strs(ps@), rs@.map_values(|x: Vec<char>| x@)),
{
    let ghost pv = strs(ps@);
    let ghost rv = rs@.map_values(|x: Vec<char>| x@);
    let mut out = chars_of(ps[0].as_str());
    let mut k: usize = 1;
    while k < ps.len()
        invariant
            1 <= k <= ps@.len(),
            ps@.len() == rs@.len() + 1,
            pv == strs(ps@),
            rv == rs@.map_values(|x: Vec<char>| x@),
            out@ == rejoin(pv.take(k as int), rv),
        decreases ps@.len() - k,
    {
        push_all(&mut out, &rs[k - 1]);
        push_str(&mut out, ps[k].as_str());
        assert(pv.take(k + 1).drop_last() =~= pv.take(k as int));
        k = k + 1;
    }
    assert(pv.take(ps@.len() as int) =~= pv);
    out
}

/// Protects formatting (`{...}` override blocks, `\N` / `\h` breaks) as
/// `⟦n⟧` placeholders so engines neither translate nor mangle them;
/// returns the protected text and the tags, in order.
pub fn protect(text: &str) -> (r: (String, Vec<String>))
    ensures
        r.0@ == protect_spec(text@).0,
        strs(r.1@) == protect_spec(text@).1,
{
    match Pattern::new(TAG, false) {
        Err(_) => (str_to_string(text), Vec::new()),
        Ok(p) => {
            let ps = p.split(text);
            let ms = p.find_all(text);
            let n = ps.len();
            assert(ms@.len() + 1 == n);
            let mut rs: Vec<Vec<char>> = Vec::new();
            let mut k: usize = 0;
            while k < ms.len()
                invariant
                    k <= ms@.len(),
                    ms@.len() < usize::MAX,
                    rs@.len() == k,
                    forall|j: int| 0 <= j < k ==> (#[trigger] rs@[j])@ == placeholder(j as nat),
                decreases ms@.len() - k,
            {
                let mut ph = chars_of("⟦");
                push_padded(&mut ph, k as u64, 0);
                push_str(&mut ph, "⟧");
                assert(padded(k as nat, 0) == decimal(k as nat));
                rs.push(ph);
                k = k + 1;
            }
            assert(rs@.map_values(|x: Vec<char>| x@) =~= placeholders(ms@.len()));
            let out = interleave_exec(&ps, &rs);
            (string_of(&out), ms)
        },
    }
}

/// The table index a placeholder match names: the text between its
/// first and last character read as `usize::from_str` would.
pub open spec fn placeholder_index(m: Seq<char>) -> Option<int> {
    if m.len() < 2 {
        None
    } else {
        let d = m.subrange(1, m.len() - 1);
        if d.len() > 0 && d[0] == '-' {
            None
        } else {
            parse_i64_spec(d)
        }
    }
}

/// What a placeholder match is put back as: the tag it names, or the
/// match itself when the table has no such entry.
pub open spec fn restored_piece(m: Seq<char>, table: Seq<Seq<char>>) -> Seq<char> {
    match placeholder_index(m) {
        Some(i) => if 0 <= i < table.len() {
            table[i]
        } else {
            m
        },
        None => m,
    }
}

/// `text` with every placeholder put back from `table`.
pub open spec fn restore_spec(t: Seq<char>, table: Seq<Seq<char>>) -> Seq<char> {
    if regex_compiles(RESTORE@, false) {
        rejoin(
            regex_split(RESTORE@, false, t),
            regex_find_all(RESTORE@, false, t).map_values(|m: Seq<char>| restored_piece(m, table)),
        )
    } else {
        t
    }
}

fn restore_one(m: &str, table: &[String]) -> (r: Vec<char>)
    ensures
        r@ == restored_piece(m@, strs(table@)),
{
    let v = chars_of(m);
    if v.len() < 2 {
        return v;
    }
    let d = copy_range(&v, 1, v.len() - 1);
    if d.len() > 0 && d[0] == '-' {
        return v;
    }
    match parse_i64(&d) {
        Some(i) => {
            if 0 <= i && (i as u64) < (table.len() as u64) {
                chars_of(table[i as usize].as_str())
            } else {
                v
            }
        },
        None => v,
    }
}

/// Restores placeholders. Unknown indices are left untouched so a mangled
/// reply degrades visibly instead of silently.
pub fn restore(text: &str, table: &[String]) -> (r: String)
    ensures
        r@ == restore_spec(text@, strs(table@)),
{
    match Pattern::new(RESTORE, false) {
        Err(_) => str_to_string(text),
        Ok(p) => {
            let ps = p.split(text);
            let ms = p.find_all(text);
            let ghost mv = strs(ms@);
            let mut rs: Vec<Vec<char>> = Vec::new();
            let mut k: usize = 0;
            while k < ms.len()
                invariant
                    k <= ms@.len(),
                    mv == strs(ms@),
                    rs@.len() == k,
                    forall|j: int|
                        0 <= j < k ==> (#[trigger] rs@[j])@ == restored_piece(mv[j], strs(table@)),
                decreases ms@.len() - k,
            {
                let piece = restore_one(ms[k].as_str(), table);
                rs.push(piece);
                k = k + 1;
            }
            assert(rs@.map_values(|x: Vec<char>| x@) =~= mv.map_values(
                |m: Seq<char>| restored_piece(m, strs(table@)),
            ));
            let out = interleave_exec(&ps, &rs);
            string_of(&out)
        },
    }
}

proof fn lemma_placeholder_index(i: nat)
    requires
        i <= i64::MAX,
    ensures
        placeholder_index(placeholder(i)) == Some(i as int),
{
    reveal_strlit("⟦");
    reveal_strlit("⟧");
    crate::num::lemma_padded(i, 0);
    let d = decimal(i);
    let m = placeholder(i);
    assert(padded(i, 0) == d);
    assert(m.subrange(1, m.len() - 1) =~= d);
    assert(crate::num::is_digit(d[0]));
}

/// Restoring puts back exactly what protecting took out: when the
/// placeholder pattern finds, in the protected text, just the placeholders
/// that were inserted (so the text around them is the text around the
/// tags), restoring gives the pieces and tags of the input text in order.
pub proof fn law_restore_undoes_protect(t: Seq<char>)
    requires
        regex_compiles(TAG@, false),
        regex_compiles(RESTORE@, false),
        regex_find_all(TAG@, false, t).len() <= i64::MAX,
        regex_find_all(RESTORE@, false, protect_spec(t).0) == placeholders(
            regex_find_all(TAG@, false, t).len(),
        ),
        regex_split(RESTORE@, false, protect_spec(t).0) == regex_split(TAG@, false, t),
    ensures
        restore_spec(protect_spec(t).0, protect_spec(t).1) == rejoin(
            regex_split(TAG@, false, t),
            regex_find_all(TAG@, false, t),
        ),
{
    let ms = regex_find_all(TAG@, false, t);
    let ph = placeholders(ms.len());
    let back = ph.map_values(|m: Seq<char>| restored_piece(m, ms));
    assert forall|i: int| 0 <= i < ms.len() implies #[trigger] back[i] == ms[i] by {
        lemma_placeholder_index(i as nat);
        assert(ph[i] == placeholder(i as nat));
    }
    assert(back =~= ms);
}

} // verus!
