//! Prompts for the AI engine, reply parsing and the glossary.
use vstd::prelude::*;
use crate::num::{decimal, padded, push_padded};
use crate::pattern::{
    escape, fixed_remove_first, fixed_strip_first, regex_compiles, regex_escape_spec,
    regex_replace_all, Pattern,
};
use crate::text::{
    chars_of, copy_range, find_char, find_char_from, lines, lines_of, push_all, push_str,
    string_of, str_to_string, trim, trim_bounds, vecs_view,
};

verus! {

/// Leading number of a reply line: `1.`, `2)`, ` 3 .` and the like.
pub const NUM_PREFIX: &'static str = "^\\s*\\d+\\s*[.)]\\s?";

pub const PROMPT_INTRO: &'static str = "You translate subtitles from ";

pub const PROMPT_TO: &'static str = " to ";

pub const PROMPT_RULES: &'static str = ". Rules:\n- Reply with the same numbered lines and nothing else.\n- Never alter timing, numbers, or ⟦n⟧ placeholders; keep them exactly.\n- Keep each translation on one line; do not merge or split lines.\n- Natural ";

pub const PROMPT_END: &'static str = ", matching spoken dialogue.";

pub const GLOSSARY_INTRO: &'static str = "\n- Always translate these terms exactly:";

/// The pairs of a glossary as character sequences.
pub open spec fn pairs_of(g: Seq<(String, String)>) -> Seq<(Seq<char>, Seq<char>)> {
    g.map_values(|p: (String, String)| (p.0@, p.1@))
}

/// One glossary rule line: `\n  - "a" -> "b"`.
pub open spec fn glossary_line(a: Seq<char>, b: Seq<char>) -> Seq<char> {
    "\n  - \""@ + a + "\" -> \""@ + b + "\""@
}

pub open spec fn glossary_lines(g: Seq<(Seq<char>, Seq<char>)>) -> Seq<char>
    decreases g.len(),
{
    if g.len() == 0 {
        seq![]
    } else {
        glossary_lines(g.drop_last()) + glossary_line(g.last().0, g.last().1)
    }
}

/// The system message for turning `from` text into `to` text, with glossary `g`.
pub open spec fn system_prompt_spec(
    from: Seq<char>,
    to: Seq<char>,
    g: Seq<(Seq<char>, Seq<char>)>,
) -> Seq<char> {
    PROMPT_INTRO@ + from + PROMPT_TO@ + to + PROMPT_RULES@ + to + PROMPT_END@ + if g.len() > 0 {
        GLOSSARY_INTRO@ + glossary_lines(g)
    } else {
        seq![]
    }
}

/// Builds the system prompt for subtitle translation, injecting glossary
/// rules.
pub fn system_prompt(from: &str, to: &str, glossary: &[(String, String)]) -> (r: String)
    ensures
        r@ == system_prompt_spec(from@, to@, pairs_of(glossary@)),
{
    let mut p = chars_of(PROMPT_INTRO);
    push_str(&mut p, from);
    push_str(&mut p, PROMPT_TO);
    push_str(&mut p, to);
    push_str(&mut p, PROMPT_RULES);
    push_str(&mut p, to);
    push_str(&mut p, PROMPT_END);
    let ghost head = p@;
    if glossary.len() > 0 {
        push_str(&mut p, GLOSSARY_INTRO);
        let ghost g = pairs_of(glossary@);
        let mut k: usize = 0;
        while k < glossary.len()
            invariant
                k <= glossary@.len(),
                g == pairs_of(glossary@),
                p@ == head + GLOSSARY_INTRO@ + glossary_lines(g.take(k as int)),
            decreases glossary@.len() - k,
        {
            let ghost before = p@;
            push_str(&mut p, "\n  - \"");
            push_str(&mut p, glossary[k].0.as_str());
            push_str(&mut p, "\" -> \"");
            push_str(&mut p, glossary[k].1.as_str());
            push_str(&mut p, "\"");
            assert(g.take(k + 1).drop_last() =~= g.take(k as int));
            assert(p@ =~= before + glossary_line(g[k as int].0, g[k as int].1));
            k = k + 1;
        }
        assert(g.take(glossary@.len() as int) =~= g);
    } else {
        assert(p@ =~= head + Seq::<char>::empty());
    }
    string_of(&p)
}

pub const USER_INTRO: &'static str = "Translate the numbered lines below. Reply with the same numbering and nothing else.\n";

pub const USER_BEFORE: &'static str = "\nPrevious context (reference only, do not translate):\n";

pub const USER_AFTER: &'static str = "\nFollowing context (reference only, do not translate):\n";

pub const USER_TARGETS: &'static str = "\nLines to translate:\n";

pub open spec fn strs(v: Seq<String>) -> Seq<Seq<char>> {
    v.map_values(|s: String| s@)
}

/// Context lines, each as `- line\n`.
pub open spec fn bullet_lines(v: Seq<Seq<char>>) -> Seq<char>
    decreases v.len(),
{
    if v.len() == 0 {
        seq![]
    } else {
        bullet_lines(v.drop_last()) + "- "@ + v.last() + "\n"@
    }
}

/// Target lines numbered from 1, each as `n. line\n`.
pub open spec fn numbered_lines(v: Seq<Seq<char>>) -> Seq<char>
    decreases v.len(),
{
    if v.len() == 0 {
        seq![]
    } else {
        numbered_lines(v.drop_last()) + decimal(v.len()) + ". "@ + v.last() + "\n"@
    }
}

/// A context section, or nothing when there is no context.
pub open spec fn context_section(title: Seq<char>, v: Seq<Seq<char>>) -> Seq<char> {
    if v.len() > 0 {
        title + bullet_lines(v)
    } else {
        seq![]
    }
}

/// The user message for one batch.
pub open spec fn user_block_spec(
    targets: Seq<Seq<char>>,
    before: Seq<Seq<char>>,
    after: Seq<Seq<char>>,
) -> Seq<char> {
    USER_INTRO@ + context_section(USER_BEFORE@, before) + context_section(USER_AFTER@, after)
        + USER_TARGETS@ + numbered_lines(targets)
}

fn push_context(out: &mut Vec<char>, title: &str, v: &[String])
    ensures
        final(out)@ == old(out)@ + context_section(title@, strs(v@)),
{
    if v.len() == 0 {
        assert(context_section(title@, strs(v@)) =~= Seq::<char>::empty());
        return ;
    }
    push_str(out, title);
    let ghost start = out@;
    let ghost s = strs(v@);
    let mut k: usize = 0;
    while k < v.len()
        invariant
            k <= v@.len(),
            s == strs(v@),
            out@ == start + bullet_lines(s.take(k as int)),
        decreases v@.len() - k,
    {
        let ghost before = out@;
        push_str(out, "- ");
        push_str(out, v[k].as_str());
        push_str(out, "\n");
        assert(s.take(k + 1).drop_last() =~= s.take(k as int));
        assert(out@ =~= before + "- "@ + s[k as int] + "\n"@);
        k = k + 1;
    }
    assert(s.take(v@.len() as int) =~= s);
    assert(start == old(out)@ + title@);
}

/// Formats one batch as numbered target lines with labeled context that
/// the model must read but not translate.
pub fn user_block(targets: &[String], before: &[String], after: &[String]) -> (r: String)
    requires
        targets@.len() < u64::MAX,
    ensures
        r@ == user_block_spec(strs(targets@), strs(before@), strs(after@)),
{
    let mut u = chars_of(USER_INTRO);
    push_context(&mut u, USER_BEFORE, before);
    push_context(&mut u, USER_AFTER, after);
    push_str(&mut u, USER_TARGETS);
    let ghost start = u@;
    let ghost s = strs(targets@);
    let mut k: usize = 0;
    while k < targets.len()
        invariant
            k <= targets@.len() < u64::MAX,
            s == strs(targets@),
            u@ == start + numbered_lines(s.take(k as int)),
        decreases targets@.len() - k,
    {
        let ghost before_u = u@;
        push_padded(&mut u, (k + 1) as u64, 0);
        push_str(&mut u, ". ");
        push_str(&mut u, targets[k].as_str());
        push_str(&mut u, "\n");
        assert(padded((k + 1) as nat, 0) == decimal((k + 1) as nat));
        assert(s.take(k + 1).drop_last() =~= s.take(k as int));
        assert(s.take(k + 1).len() == k + 1);
        assert(u@ =~= before_u + decimal((k + 1) as nat) + ". "@ + s[k as int] + "\n"@);
        k = k + 1;
    }
    assert(s.take(targets@.len() as int) =~= s);
    string_of(&u)
}

/// Why a reply or a glossary could not be used.
#[derive(Debug, Clone, PartialEq, Eq)]
pub enum PromptError {
    /// The reply held `got` numbered lines where `expected` were asked for.
    LineCount { got: usize, expected: usize },
    /// A glossary entry is not of the form `src=dst` with both sides non-empty.
    BadEntry(String),
    /// A glossary term could not be compiled into a regular expression.
    BadTerm(String),
}

/// The reply lines kept: trimmed, empty ones dropped, the leading number
/// removed.
pub open spec fn reply_items(ls: Seq<Seq<char>>) -> Seq<Seq<char>>
    decreases ls.len(),
{
    if ls.len() == 0 {
        seq![]
    } else {
        let rest = reply_items(ls.drop_last());
        let t = trim(ls.last());
        if t.len() == 0 {
            rest
        } else {
            rest.push(fixed_strip_first(NUM_PREFIX@, t))
        }
    }
}

/// Parses `1. text` reply lines; the count must equal `expected`.
pub fn parse_numbered(text: &str, expected: usize) -> (r: Result<Vec<String>, PromptError>)
    ensures
        reply_items(lines(text@)).len() == expected ==> (r matches Ok(v) && strs(v@) == reply_items(
            lines(text@),
        )),
        reply_items(lines(text@)).len() != expected ==> r == Err::<Vec<String>, PromptError>(
            PromptError::LineCount { got: reply_items(lines(text@)).len() as usize, expected },
        ),
{
    let v = chars_of(text);
    let ls = lines_of(&v);
    let ghost lv = vecs_view(ls@);
    let mut out: Vec<String> = Vec::new();
    let mut k: usize = 0;
    while k < ls.len()
        invariant
            k <= ls@.len(),
            lv == vecs_view(ls@),
            lv == lines(text@),
            strs(out@) == reply_items(lv.take(k as int)),
            out@.len() <= k,
        decreases ls@.len() - k,
    {
        let line = &ls[k];
        let (a, b) = trim_bounds(line);
        assert(lv.take(k + 1).drop_last() =~= lv.take(k as int));
        assert(lv[k as int] == line@);
        if a < b {
            let t = copy_range(line, a, b);
            let ts = string_of(&t);
            let item = fixed_remove_first(NUM_PREFIX, ts.as_str());
            out.push(item);
            assert(strs(out@) =~= reply_items(lv.take(k as int)).push(
                fixed_strip_first(NUM_PREFIX@, trim(line@)),
            ));
        }
        k = k + 1;
    }
    assert(lv.take(ls@.len() as int) =~= lv);
    if out.len() != expected {
        return Err(PromptError::LineCount { got: out.len(), expected });
    }
    Ok(out)
}

/// A glossary entry `src=dst`, split at the first `=` and trimmed.
pub open spec fn glossary_entry(s: Seq<char>) -> Option<(Seq<char>, Seq<char>)> {
    match find_char(s, '=') {
        None => None,
        Some(i) => {
            let a = trim(s.take(i));
            let b = trim(s.skip(i + 1));
            if a.len() == 0 || b.len() == 0 {
                None
            } else {
                Some((a, b))
            }
        },
    }
}

/// The parsed glossary, or the first bad entry.
pub open spec fn glossary_spec(raw: Seq<Seq<char>>) -> Result<
    Seq<(Seq<char>, Seq<char>)>,
    Seq<char>,
>
    decreases raw.len(),
{
    if raw.len() == 0 {
        Ok(seq![])
    } else {
        match glossary_spec(raw.drop_last()) {
            Err(e) => Err(e),
            Ok(v) => match glossary_entry(raw.last()) {
                Some(p) => Ok(v.push(p)),
                None => Err(raw.last()),
            },
        }
    }
}

/// A glossary parses exactly when every entry does, and then holds one
/// pair per entry, in order (each entry split at its first `=`, both sides
/// trimmed); otherwise the error is the first entry that does not parse.
pub proof fn law_glossary_entrywise(raw: Seq<Seq<char>>)
    ensures
        glossary_spec(raw) is Ok <==> forall|i: int|
            0 <= i < raw.len() ==> (#[trigger] glossary_entry(raw[i])) is Some,
        glossary_spec(raw) matches Ok(v) ==> v.len() == raw.len() && forall|i: int|
            0 <= i < raw.len() ==> glossary_entry(raw[i]) == Some(#[trigger] v[i]),
        glossary_spec(raw) matches Err(e) ==> exists|i: int|
            0 <= i < raw.len() && e == raw[i] && (#[trigger] glossary_entry(raw[i])) is None
                && forall|j: int| 0 <= j < i ==> (#[trigger] glossary_entry(raw[j])) is Some,
    decreases raw.len(),
{
    if raw.len() > 0 {
        let init = raw.drop_last();
        law_glossary_entrywise(init);
        let n = raw.len() - 1;
        assert forall|i: int| 0 <= i < n implies raw[i] == init[i] by {}
        match glossary_spec(init) {
            Err(e) => {
                let i = choose|i: int|
                    0 <= i < init.len() && e == init[i] && (#[trigger] glossary_entry(init[i])) is None
                        && forall|j: int| 0 <= j < i ==> (#[trigger] glossary_entry(init[j])) is Some;
                assert(raw[i] == init[i]);
                assert(glossary_entry(raw[i]) is None);
                assert forall|j: int| 0 <= j < i implies (#[trigger] glossary_entry(raw[j])) is Some by {
                    assert(raw[j] == init[j]);
                    assert(glossary_entry(init[j]) is Some);
                }
            },
            Ok(v) => {
                match glossary_entry(raw.last()) {
                    Some(p) => {
                        let w = v.push(p);
                        assert forall|i: int| 0 <= i < raw.len() implies glossary_entry(raw[i]) == Some(
                            #[trigger] w[i],
                        ) by {
                            if i < n {
                                assert(raw[i] == init[i]);
                                assert(glossary_entry(init[i]) == Some(v[i]));
                            }
                        }
                    },
                    None => {
                        assert(glossary_entry(raw[n]) is None);
                        assert forall|j: int| 0 <= j < n implies (#[trigger] glossary_entry(raw[j])) is Some by {
                            assert(raw[j] == init[j]);
                            assert(glossary_entry(init[j]) == Some(v[j]));
                        }
                    },
                }
            },
        }
    }
}

proof fn lemma_glossary_err_prefix(raw: Seq<Seq<char>>, k: int)
    requires
        0 <= k <= raw.len(),
        glossary_spec(raw.take(k)) is Err,
    ensures
        glossary_spec(raw) == glossary_spec(raw.take(k)),
    decreases raw.len() - k,
{
    if k < raw.len() {
        assert(raw.take(k + 1).drop_last() =~= raw.take(k));
        lemma_glossary_err_prefix(raw, k + 1);
    } else {
        assert(raw.take(k) =~= raw);
    }
}

fn trimmed(s: &[char], a: usize, b: usize) -> (r: Vec<char>)
    requires
        a <= b <= s@.len(),
    ensures
        r@ == trim(s@.subrange(a as int, b as int)),
{
    let piece = copy_range(s, a, b);
    let (x, y) = trim_bounds(&piece);
    copy_range(&piece, x, y)
}

/// Parses `--glossary ore=aku` entries; the first malformed entry is
/// reported.
pub fn parse_glossary(raw: &[String]) -> (r: Result<Vec<(String, String)>, PromptError>)
    ensures
        match glossary_spec(strs(raw@)) {
            Ok(g) => r matches Ok(v) && pairs_of(v@) == g,
            Err(e) => r matches Err(PromptError::BadEntry(s)) && s@ == e,
        },
{
    let ghost rs = strs(raw@);
    let mut out: Vec<(String, String)> = Vec::new();
    let mut k: usize = 0;
    assert(rs.take(0) =~= Seq::<Seq<char>>::empty());
    assert(pairs_of(out@) =~= Seq::<(Seq<char>, Seq<char>)>::empty());
    while k < raw.len()
        invariant
            k <= raw@.len(),
            rs == strs(raw@),
            glossary_spec(rs.take(k as int)) == Ok::<Seq<(Seq<char>, Seq<char>)>, Seq<char>>(
                pairs_of(out@),
            ),
        decreases raw@.len() - k,
    {
        let s = chars_of(raw[k].as_str());
        assert(rs.take(k + 1).drop_last() =~= rs.take(k as int));
        assert(rs[k as int] == s@);
        proof {
            crate::text::lemma_find_char(s@, '=');
        }
        match find_char_from(&s, '=', 0) {
            None => {
                assert(s@.skip(0) =~= s@);
                proof {
                    lemma_glossary_err_prefix(rs, k + 1);
                }
                return Err(PromptError::BadEntry(str_to_string(raw[k].as_str())));
            },
            Some(i) => {
                assert(s@.skip(0) =~= s@);
                let a = trimmed(&s, 0, i);
                let b = trimmed(&s, i + 1, s.len());
                assert(s@.subrange(0, i as int) =~= s@.take(i as int));
                assert(s@.subrange(i + 1, s@.len() as int) =~= s@.skip(i + 1));
                if a.len() == 0 || b.len() == 0 {
                    proof {
                        lemma_glossary_err_prefix(rs, k + 1);
                    }
                    return Err(PromptError::BadEntry(str_to_string(raw[k].as_str())));
                }
                assert(glossary_entry(s@) == Some((a@, b@)));
                let ghost prev = out@;
                out.push((string_of(&a), string_of(&b)));
                assert(pairs_of(out@) =~= pairs_of(prev).push((a@, b@)));
            },
        }
        k = k + 1;
    }
    assert(rs.take(raw@.len() as int) =~= rs);
    Ok(out)
}

/// The whole-word, case-insensitive pattern for a glossary term.
pub open spec fn term_pattern(a: Seq<char>) -> Seq<char> {
    "\\b"@ + regex_escape_spec(a) + "\\b"@
}

/// The compiled glossary as (pattern, case-insensitive) and replacement.
pub open spec fn compiled_view(c: Seq<(Pattern, String)>) -> Seq<((Seq<char>, bool), Seq<char>)> {
    c.map_values(|p: (Pattern, String)| (p.0@, p.1@))
}

/// Compiles word-boundary, case-insensitive post-replacements; fails on
/// the first term whose pattern the regex crate rejects.
pub fn compile_glossary(pairs: &[(String, String)]) -> (r: Result<
    Vec<(Pattern, String)>,
    PromptError,
>)
    ensures
        (forall|k: int|
            0 <= k < pairs@.len() ==> regex_compiles(#[trigger] term_pattern(pairs@[k].0@), true))
            ==> (r matches Ok(c) && compiled_view(c@) == pairs_of(pairs@).map_values(
            |p: (Seq<char>, Seq<char>)| ((term_pattern(p.0), true), p.1),
        )),
        r matches Err(e) ==> (e matches PromptError::BadTerm(t) && exists|k: int|
            0 <= k < pairs@.len() && t@ == pairs@[k].0@ && !regex_compiles(
                term_pattern(pairs@[k].0@),
                true,
            ) && forall|m: int|
                0 <= m < k ==> regex_compiles(#[trigger] term_pattern(pairs@[m].0@), true)),
{
    let mut out: Vec<(Pattern, String)> = Vec::new();
    let ghost want = pairs_of(pairs@).map_values(
        |p: (Seq<char>, Seq<char>)| ((term_pattern(p.0), true), p.1),
    );
    let mut k: usize = 0;
    while k < pairs.len()
        invariant
            k <= pairs@.len(),
            want == pairs_of(pairs@).map_values(
                |p: (Seq<char>, Seq<char>)| ((term_pattern(p.0), true), p.1),
            ),
            compiled_view(out@) == want.take(k as int),
            forall|m: int| 0 <= m < k ==> regex_compiles(#[trigger] term_pattern(pairs@[m].0@), true),
        decreases pairs@.len() - k,
    {
        let a = pairs[k].0.as_str();
        let mut src = chars_of("\\b");
        let esc = escape(a);
        push_str(&mut src, esc.as_str());
        push_str(&mut src, "\\b");
        assert(src@ =~= term_pattern(a@));
        let pat_text = string_of(&src);
        match Pattern::new(pat_text.as_str(), true) {
            Ok(p) => {
                let ghost prev = out@;
                let b = pairs[k].1.clone();
                assert(b@ == pairs@[k as int].1@);
                assert(p@ == (term_pattern(a@), true));
                out.push((p, b));
                assert(want[k as int] == ((term_pattern(pairs@[k as int].0@), true), pairs@[k as int].1@));
                assert(compiled_view(out@) =~= compiled_view(prev).push(want[k as int]));
                assert(compiled_view(out@) =~= want.take(k + 1));
            },
            Err(_) => {
                return Err(PromptError::BadTerm(str_to_string(a)));
            },
        }
        k = k + 1;
    }
    assert(want.take(pairs@.len() as int) =~= want);
    Ok(out)
}

/// `text` after every glossary replacement, in order.
pub open spec fn glossary_applied(t: Seq<char>, c: Seq<((Seq<char>, bool), Seq<char>)>) -> Seq<
    char,
>
    decreases c.len(),
{
    if c.len() == 0 {
        t
    } else {
        let prev = glossary_applied(t, c.drop_last());
        regex_replace_all(c.last().0.0, c.last().0.1, prev, c.last().1)
    }
}

/// Applies compiled glossary replacements in order.
pub fn apply_glossary(text: &str, compiled: &[(Pattern, String)]) -> (r: String)
    ensures
        r@ == glossary_applied(text@, compiled_view(compiled@)),
{
    let ghost cv = compiled_view(compiled@);
    let mut out = str_to_string(text);
    let mut k: usize = 0;
    while k < compiled.len()
        invariant
            k <= compiled@.len(),
            cv == compiled_view(compiled@),
            out@ == glossary_applied(text@, cv.take(k as int)),
        decreases compiled@.len() - k,
    {
        assert(cv.take(k + 1).drop_last() =~= cv.take(k as int));
        out = compiled[k].0.replace_all(out.as_str(), compiled[k].1.as_str());
        k = k + 1;
    }
    assert(cv.take(compiled@.len() as int) =~= cv);
    out
}

} // verus!
