//! Cleaning of ASS dialogue: keep vertical karaoke, scrub visual tags and
//! junk (drawings, bare domains, credits, symbol rows) from normal lines.
use vstd::prelude::*;
use crate::pattern::{fixed_is_match, fixed_match, fixed_remove_all, fixed_strip};
use crate::subs::shift::{shift_fits, shifted};
use crate::subs::{events_view, Event, EventView};
use crate::text::{
    chars_of, copy_range, is_blank, split_char, split_chars, str_to_string, string_of, trim,
    trim_bounds, utf8_len, utf8_len_capped, vecs_view, word_count, word_count_chars,
};

verus! {

/// ASS karaoke timing tags.
pub const KARAOKE_TAG: &'static str = "\\\\k[0-9]|\\\\K[0-9]|\\\\kf[0-9]|\\\\ko[0-9]";

/// `{...}` override blocks.
pub const OVERRIDE_BLOCK: &'static str = "\\{[^}]*\\}";

/// Vector drawing commands.
pub const DRAWING: &'static str = "(?i)^\\s*[mlbc]\\s+[-0-9.]";

/// A bare domain at the end of a line.
pub const DOMAIN_JUNK: &'static str = "[A-Za-z0-9_]+\\.[a-zA-Z]{2,}$";

/// Fansub-group credits.
pub const DEATH_JUNK: &'static str = "(?i)deaths?";

/// Sync/sign-title credits.
pub const SYNC_TITLE: &'static str = "(?i)sync.*title|sign.*title";

/// Lines made only of symbols.
pub const SYMBOLS_ONLY: &'static str = "^[^a-zA-Z0-9\\s]{3,}$";

/// Trimmed, non-empty pieces, in order.
pub open spec fn nonempty_trimmed(pieces: Seq<Seq<char>>) -> Seq<Seq<char>>
    decreases pieces.len(),
{
    if pieces.len() == 0 {
        seq![]
    } else if trim(pieces.last()).len() > 0 {
        nonempty_trimmed(pieces.drop_last()).push(trim(pieces.last()))
    } else {
        nonempty_trimmed(pieces.drop_last())
    }
}

/// Vertical karaoke: karaoke timing tags, or more than five non-empty
/// lines of at most four characters each.
pub open spec fn karaoke_spec(text: Seq<char>) -> bool {
    fixed_match(KARAOKE_TAG@, text) || {
        let ls = nonempty_trimmed(split_char(text, '\n'));
        ls.len() > 5 && all_short(ls)
    }
}

/// Every line has at most four characters.
pub open spec fn all_short(ls: Seq<Seq<char>>) -> bool
    decreases ls.len(),
{
    ls.len() == 0 || (all_short(ls.drop_last()) && ls.last().len() <= 4)
}

/// True for vertical karaoke: karaoke timing tags, or many tiny lines.
pub fn is_karaoke_vertical(text: &str) -> (b: bool)
    ensures
        b == karaoke_spec(text@),
{
    if fixed_is_match(KARAOKE_TAG, text) {
        return true;
    }
    let t = chars_of(text);
    let pieces = split_chars(&t, '\n');
    let mut count: usize = 0;
    let mut short = true;
    let mut k: usize = 0;
    let ghost mut ls: Seq<Seq<char>> = seq![];
    while k < pieces.len()
        invariant
            k <= pieces@.len(),
            ls == nonempty_trimmed(vecs_view(pieces@).take(k as int)),
            count == ls.len(),
            count <= k,
            short == all_short(ls),
        decreases pieces@.len() - k,
    {
        let ghost post = vecs_view(pieces@).take(k + 1);
        assert(post.drop_last() =~= vecs_view(pieces@).take(k as int));
        assert(post.last() == pieces@[k as int]@);
        let (a, b) = trim_bounds(&pieces[k]);
        if b > a {
            let ghost old_ls = ls;
            proof {
                ls = ls.push(trim(pieces@[k as int]@));
            }
            assert(ls.drop_last() =~= old_ls);
            count = count + 1;
            let ghost prev = ls.drop_last();
            assert(ls.drop_last() =~= prev);
            assert(ls.last().len() == b - a);
            assert(all_short(ls) == (all_short(prev) && ls.last().len() <= 4));
            if b - a > 4 {
                short = false;
            }
        }
        k = k + 1;
    }
    assert(vecs_view(pieces@).take(k as int) =~= vecs_view(pieces@));
    count > 5 && short
}

/// The cleaned text of a normal dialogue, or `None` when the line is junk:
/// override blocks removed and trimmed, then dropped when it is a drawing,
/// a bare domain (at most three words), a short credit, a sync/sign-title
/// credit, a row of symbols, or empty.
pub open spec fn clean_normal_spec(text: Seq<char>) -> Option<Seq<char>> {
    let t = trim(fixed_strip(OVERRIDE_BLOCK@, text));
    if fixed_match(DRAWING@, t) {
        None
    } else if word_count(t) <= 3 && fixed_match(DOMAIN_JUNK@, t) {
        None
    } else if utf8_len(t) < 30 && fixed_match(DEATH_JUNK@, t) {
        None
    } else if fixed_match(SYNC_TITLE@, t) {
        None
    } else if fixed_match(SYMBOLS_ONLY@, t) {
        None
    } else if t.len() == 0 {
        None
    } else {
        Some(t)
    }
}

/// The death-credit rule only touches short lines: a dialogue whose
/// visible text `t` (override blocks removed, trimmed) is 30 bytes or
/// longer, and is neither a drawing, a bare domain, a sync/sign-title
/// credit nor a symbol row, is kept as `t`, whatever words it holds; one
/// under 30 bytes that names a death, and is neither a drawing nor a bare
/// domain, is dropped.
pub proof fn law_death_rule_only_for_short_lines(text: Seq<char>, t: Seq<char>)
    requires
        t == trim(fixed_strip(OVERRIDE_BLOCK@, text)),
        !fixed_match(DRAWING@, t),
        !(word_count(t) <= 3 && fixed_match(DOMAIN_JUNK@, t)),
    ensures
        utf8_len(t) >= 30 && !fixed_match(SYNC_TITLE@, t) && !fixed_match(SYMBOLS_ONLY@, t)
            ==> clean_normal_spec(text) == Some(t),
        utf8_len(t) < 30 && fixed_match(DEATH_JUNK@, t) ==> clean_normal_spec(text) is None,
{
    if t.len() == 0 {
        assert(utf8_len(t) == 0);
    }
}

/// Cleans one normal dialogue: strips visual tags, drops junk (drawings,
/// bare domains, sync-title credits, symbol-only lines, empties).
/// Returns `None` when the line should be deleted.
pub fn clean_normal_text(text: &str) -> (r: Option<String>)
    ensures
        match clean_normal_spec(text@) {
            Some(t) => r matches Some(s) && s@ == t,
            None => r is None,
        },
{
    let stripped = fixed_remove_all(OVERRIDE_BLOCK, text);
    let sv = chars_of(stripped.as_str());
    let (a, b) = trim_bounds(&sv);
    let tv = copy_range(&sv, a, b);
    let t = string_of(&tv);
    let ts = t.as_str();
    if fixed_is_match(DRAWING, ts) {
        return None;
    }
    if word_count_chars(&tv) <= 3 && fixed_is_match(DOMAIN_JUNK, ts) {
        return None;
    }
    if utf8_len_capped(&tv, 30) < 30 && fixed_is_match(DEATH_JUNK, ts) {
        return None;
    }
    if fixed_is_match(SYNC_TITLE, ts) {
        return None;
    }
    if fixed_is_match(SYMBOLS_ONLY, ts) {
        return None;
    }
    if tv.len() == 0 {
        return None;
    }
    Some(t)
}

pub open spec fn default_style_line(font: Seq<char>) -> Seq<char> {
    "Style: Default,"@ + font
        + ",20,&H00FFFFFF,&H000000FF,&H00000000,&H00000000,0,0,0,0,100,100,0,0,1,2,2,2,10,10,10,1"@
}

pub open spec fn karaoke_style_line(font: Seq<char>) -> Seq<char> {
    "Style: Karaoke,"@ + font
        + ",24,&H00FFFFFF,&H0000FFFF,&H00000000,&H00000000,0,0,0,0,100,100,0,0,1,2,1,2,10,10,10,1"@
}

/// The header of cleaned files: every style in `font`, with separate
/// `Default` and `Karaoke` styles.
pub open spec fn default_header_spec(font: Seq<char>) -> Seq<Seq<char>> {
    seq![
        "[Script Info]"@,
        "Title: Cleaned Dialogs Keep Karaoke"@,
        "ScriptType: v4.00+"@,
        "WrapStyle: 0"@,
        "ScaledBorderAndShadow: yes"@,
        seq![],
        "[V4+ Styles]"@,
        "Format: Name, Fontname, Fontsize, PrimaryColour, SecondaryColour, OutlineColour, BackColour, Bold, Italic, Underline, StrikeOut, ScaleX, ScaleY, Spacing, Angle, BorderStyle, Outline, Shadow, Alignment, MarginL, MarginR, MarginV, Encoding"@,
        default_style_line(font),
        karaoke_style_line(font),
        seq![],
        "[Events]"@,
        "Format: Layer, Start, End, Style, Name, MarginL, MarginR, MarginV, Effect, Text"@,
        seq![],
    ]
}

fn concat3(a: &str, b: &str, c: &str) -> (r: String)
    ensures
        r@ == a@ + b@ + c@,
{
    let mut v: Vec<char> = Vec::new();
    crate::text::push_str(&mut v, a);
    crate::text::push_str(&mut v, b);
    crate::text::push_str(&mut v, c);
    string_of(&v)
}

/// Regenerated header for cleaned files: everything in one font, with
/// separate `Default` and `Karaoke` styles.
pub fn default_header(font: &str) -> (r: Vec<String>)
    ensures
        crate::subs::strings_view(r@) == default_header_spec(font@),
{
    let r = vec![
        str_to_string("[Script Info]"),
        str_to_string("Title: Cleaned Dialogs Keep Karaoke"),
        str_to_string("ScriptType: v4.00+"),
        str_to_string("WrapStyle: 0"),
        str_to_string("ScaledBorderAndShadow: yes"),
        String::new(),
        str_to_string("[V4+ Styles]"),
        str_to_string(
            "Format: Name, Fontname, Fontsize, PrimaryColour, SecondaryColour, OutlineColour, BackColour, Bold, Italic, Underline, StrikeOut, ScaleX, ScaleY, Spacing, Angle, BorderStyle, Outline, Shadow, Alignment, MarginL, MarginR, MarginV, Encoding",
        ),
        concat3(
            "Style: Default,",
            font,
            ",20,&H00FFFFFF,&H000000FF,&H00000000,&H00000000,0,0,0,0,100,100,0,0,1,2,2,2,10,10,10,1",
        ),
        concat3(
            "Style: Karaoke,",
            font,
            ",24,&H00FFFFFF,&H0000FFFF,&H00000000,&H00000000,0,0,0,0,100,100,0,0,1,2,1,2,10,10,10,1",
        ),
        String::new(),
        str_to_string("[Events]"),
        str_to_string("Format: Layer, Start, End, Style, Name, MarginL, MarginR, MarginV, Effect, Text"),
        String::new(),
    ];
    assert(crate::subs::strings_view(r@) =~= default_header_spec(font@));
    r
}

/// Counts of a cleaning run.
#[derive(Debug)]
pub struct CleanStats {
    pub dialogs: usize,
    pub karaoke: usize,
}

impl Default for CleanStats {
    fn default() -> (s: CleanStats)
        ensures
            s.dialogs == 0 && s.karaoke == 0,
    {
        CleanStats { dialogs: 0, karaoke: 0 }
    }
}

/// What cleaning does to one event (after the optional shift): karaoke is
/// kept with style `Karaoke`, normal text is scrubbed and styled `Default`,
/// junk is dropped; kept events lose their effect. The flag tells karaoke.
pub open spec fn clean_one(e: EventView, shift_ms: int) -> Option<(EventView, bool)> {
    let k = if shift_ms != 0 {
        shifted(e, shift_ms)
    } else {
        e
    };
    if karaoke_spec(k.text) {
        Some((EventView { style: "Karaoke"@, effect: seq![], ..k }, true))
    } else {
        match clean_normal_spec(k.text) {
            Some(t) => Some((EventView { text: t, style: "Default"@, effect: seq![], ..k }, false)),
            None => None,
        }
    }
}

/// The kept events of a cleaning run with their karaoke flags, in order.
pub open spec fn clean_all(evs: Seq<EventView>, shift_ms: int) -> Seq<(EventView, bool)>
    decreases evs.len(),
{
    if evs.len() == 0 {
        seq![]
    } else {
        match clean_one(evs.last(), shift_ms) {
            Some(p) => clean_all(evs.drop_last(), shift_ms).push(p),
            None => clean_all(evs.drop_last(), shift_ms),
        }
    }
}

pub open spec fn karaoke_count(ps: Seq<(EventView, bool)>) -> nat
    decreases ps.len(),
{
    if ps.len() == 0 {
        0
    } else {
        karaoke_count(ps.drop_last()) + if ps.last().1 {
            1nat
        } else {
            0nat
        }
    }
}

/// The event as the optional shift leaves it.
pub open spec fn retimed(e: EventView, shift_ms: int) -> EventView {
    if shift_ms != 0 {
        shifted(e, shift_ms)
    } else {
        e
    }
}

/// Cleaning keeps every vertical-karaoke event verbatim (text, timing
/// after the shift, and other fields), only styled `Karaoke` and without
/// effect, in input order; every event it keeps is styled `Karaoke` or
/// `Default` and has no effect.
pub proof fn law_clean_keeps_karaoke(evs: Seq<EventView>, shift_ms: int)
    ensures
        forall|i: int|
            0 <= i < evs.len() && karaoke_spec(#[trigger] evs[i].text) ==> exists|j: int|
                0 <= j < clean_all(evs, shift_ms).len() && clean_all(evs, shift_ms)[j] == (
                EventView { style: "Karaoke"@, effect: seq![], ..retimed(evs[i], shift_ms) },
                true,
            ),
        forall|j: int|
            0 <= j < clean_all(evs, shift_ms).len() ==> {
                let e = (#[trigger] clean_all(evs, shift_ms)[j]).0;
                &&& e.style == "Karaoke"@ || e.style == "Default"@
                &&& e.effect.len() == 0
            },
    decreases evs.len(),
{
    if evs.len() > 0 {
        let pre = evs.drop_last();
        law_clean_keeps_karaoke(pre, shift_ms);
        let r = clean_all(pre, shift_ms);
        let all = clean_all(evs, shift_ms);
        let last = evs.last();
        assert(retimed(last, shift_ms).text == last.text);
        assert forall|i: int|
            0 <= i < evs.len() && karaoke_spec(#[trigger] evs[i].text) implies exists|j: int|
                0 <= j < all.len() && all[j] == (
                EventView { style: "Karaoke"@, effect: seq![], ..retimed(evs[i], shift_ms) },
                true,
            ) by {
            if i < evs.len() - 1 {
                assert(pre[i] == evs[i]);
                assert(karaoke_spec(pre[i].text));
                let j = choose|j: int|
                    0 <= j < r.len() && r[j] == (
                    EventView { style: "Karaoke"@, effect: seq![], ..retimed(pre[i], shift_ms) },
                    true,
                );
                assert(all[j] == r[j]);
            } else {
                assert(all[r.len() as int] == all.last());
            }
        }
        assert forall|j: int| 0 <= j < all.len() implies {
            let e = (#[trigger] all[j]).0;
            &&& e.style == "Karaoke"@ || e.style == "Default"@
            &&& e.effect.len() == 0
        } by {
            if j < r.len() {
                assert(all[j] == r[j]);
            }
        }
    }
}

pub proof fn lemma_clean_all_len(evs: Seq<EventView>, shift_ms: int)
    ensures
        clean_all(evs, shift_ms).len() <= evs.len(),
        karaoke_count(clean_all(evs, shift_ms)) <= clean_all(evs, shift_ms).len(),
    decreases evs.len(),
{
    if evs.len() > 0 {
        lemma_clean_all_len(evs.drop_last(), shift_ms);
        let r = clean_all(evs.drop_last(), shift_ms);
        match clean_one(evs.last(), shift_ms) {
            Some(p) => {
                assert(r.push(p).drop_last() =~= r);
            },
            None => {},
        }
    }
}

/// Cleans ASS events: keeps vertical karaoke verbatim (style `Karaoke`),
/// scrubs normal dialogues (style `Default`), optionally shifts timings.
/// (`font` is unused here; the caller builds the header via `default_header`.)
pub fn clean_events(events: &[Event], _font: &str, shift_ms: i32) -> (r: (Vec<Event>, CleanStats))
    requires
        shift_ms != 0 ==> shift_fits(events_view(events@), shift_ms as int),
    ensures
        events_view(r.0@) == clean_all(events_view(events@), shift_ms as int).map_values(
            |p: (EventView, bool)| p.0,
        ),
        r.1.dialogs == r.0@.len(),
        r.1.karaoke == karaoke_count(clean_all(events_view(events@), shift_ms as int)),
{
    let ghost evs = events_view(events@);
    let mut out: Vec<Event> = Vec::new();
    let mut stats = CleanStats::default();
    let mut k: usize = 0;
    while k < events.len()
        invariant
            k <= events@.len() == evs.len(),
            evs == events_view(events@),
            shift_ms != 0 ==> shift_fits(evs, shift_ms as int),
            events_view(out@) == clean_all(evs.take(k as int), shift_ms as int).map_values(
                |p: (EventView, bool)| p.0,
            ),
            stats.dialogs == out@.len(),
            stats.karaoke == karaoke_count(clean_all(evs.take(k as int), shift_ms as int)),
            out@.len() <= k,
            stats.karaoke <= out@.len(),
        decreases events@.len() - k,
    {
        let ghost post = evs.take(k + 1);
        assert(post.drop_last() =~= evs.take(k as int));
        assert(post.last() == events@[k as int]@);
        let ghost prev = clean_all(evs.take(k as int), shift_ms as int);
        let mut kept = events[k].duplicate();
        if shift_ms != 0 {
            let mut one: Vec<Event> = Vec::new();
            one.push(kept);
            assert(events_view(one@) =~= seq![evs[k as int]]);
            assert(shift_fits(events_view(one@), shift_ms as int)) by {
                assert(crate::subs::shift::shift_fits_one(evs[k as int], shift_ms as int));
            }
            crate::subs::shift::shift_events(&mut one, shift_ms);
            assert(events_view(one@).len() == 1);
            assert(one@.len() == 1);
            assert(events_view(one@)[0] == one@[0]@);
            kept = one.pop().unwrap();
            assert(kept@ == shifted(evs[k as int], shift_ms as int));
        }
        if is_karaoke_vertical(kept.text.as_str()) {
            kept.style = str_to_string("Karaoke");
            stats.karaoke = stats.karaoke + 1;
        } else {
            match clean_normal_text(kept.text.as_str()) {
                Some(t) => {
                    kept.text = t;
                    kept.style = str_to_string("Default");
                },
                None => {
                    k = k + 1;
                    continue;
                },
            }
        }
        kept.effect = String::new();
        let ghost before = out@;
        out.push(kept);
        assert(events_view(out@) =~= events_view(before).push(kept@));
        proof {
            let p = clean_one(evs[k as int], shift_ms as int)->0;
            assert(clean_all(post, shift_ms as int) == prev.push(p));
            assert(prev.push(p).drop_last() =~= prev);
            assert(prev.push(p).map_values(|p: (EventView, bool)| p.0) =~= prev.map_values(
                |p: (EventView, bool)| p.0,
            ).push(p.0));
        }
        stats.dialogs = stats.dialogs + 1;
        k = k + 1;
    }
    assert(evs.take(k as int) =~= evs);
    (out, stats)
}

} // verus!
