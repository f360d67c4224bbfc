//! WebVTT (`.vtt`) parsing and serialization.
use vstd::prelude::*;
use crate::num::{all_digits, is_digit, lemma_padded, padded};
use crate::subs::srt::{
    body_end, lemma_blank_empty, lemma_body_end, lemma_body_end_at, lemma_body_end_shift,
    lemma_trim_pad_right, srt_text_ok,
};
use crate::subs::{
    events_view, is_blank_chars, normalize_newlines, normalize_newlines_chars,
    standard_columns_spec, strings_view, Event, EventView, ParseError, SubFile, SubFileView,
    SubFormat,
};
use crate::text::{
    chars_of, copy_range, find_pattern, find_seq, is_blank, is_ws, is_ws_char, join, join_range,
    lemma_find_char_none, lemma_find_seq, lemma_find_seq_at, find_char, lemma_join_split,
    lemma_lines_append, lemma_lines_line, lemma_lines_text, lemma_replace_noop,
    lemma_split_char_len, lines, lines_of, no_char, lemma_replace_char_gone, lemma_lines_clean,
    lemma_split_join, lemma_join_no_char, lemma_trim_facts, replace_seq, lemma_find_char, occurs_at, push_all, push_str, split_char,
    starts_with, string_of, trim, trim_bounds, trim_end, trim_start, vecs_view,
};
use crate::time::{
    fit, hms_ms_text, hours_of, millis_of, minutes_of, parse_vtt_time_chars, push_hms_ms,
    seconds_of, vtt_time_spec, vtt_time_text,
};

verus! {

/// Position of the first whitespace character.
pub open spec fn find_ws(s: Seq<char>) -> Option<int>
    decreases s.len(),
{
    if s.len() == 0 {
        None
    } else if is_ws(s[0]) {
        Some(0)
    } else {
        match find_ws(s.drop_first()) {
            Some(i) => Some(i + 1),
            None => None,
        }
    }
}

pub proof fn lemma_find_ws(s: Seq<char>)
    ensures
        find_ws(s) matches Some(i) ==> 0 <= i < s.len() && is_ws(s[i]) && forall|k: int|
            0 <= k < i ==> !is_ws(s[k]),
        find_ws(s) is None ==> forall|k: int| 0 <= k < s.len() ==> !is_ws(s[k]),
    decreases s.len(),
{
    if s.len() > 0 && !is_ws(s[0]) {
        lemma_find_ws(s.drop_first());
        assert forall|k: int| 1 <= k < s.len() implies s[k] == s.drop_first()[k - 1] by {}
    }
}

/// Start, end and cue settings of a `A --> B settings` timing line.
pub open spec fn vtt_timing_spec(line: Seq<char>) -> Option<(int, int, Seq<char>)> {
    match find_seq(line, "-->"@) {
        None => None,
        Some(i) => {
            let rest = trim(line.skip(i + 3));
            let (b, settings) = match find_ws(rest) {
                None => (rest, seq![]),
                Some(k) => (rest.take(k), trim(rest.skip(k + 1))),
            };
            match (fit(vtt_time_spec(line.take(i))), fit(vtt_time_spec(trim(b)))) {
                (Some(x), Some(y)) => Some((x, y, settings)),
                _ => None,
            }
        },
    }
}

pub open spec fn has_arrow(l: Seq<char>) -> bool {
    find_seq(l, "-->"@) is Some
}

/// A cue with its identifier, timing, settings and text.
pub open spec fn vtt_event(name: Seq<char>, a: int, b: int, settings: Seq<char>, text: Seq<char>) -> EventView {
    EventView {
        start_ms: a,
        end_ms: b,
        style: seq![],
        name,
        effect: seq![],
        text,
        layer: 0,
        margin_l: seq![],
        margin_r: seq![],
        margin_v: seq![],
        extra: settings,
    }
}

/// Cues of the VTT lines `ls` from line `i` on. A non-blank line without
/// `-->` before a timing line is the cue identifier.
pub open spec fn vtt_events(ls: Seq<Seq<char>>, i: int) -> Seq<EventView>
    decreases ls.len() - i,
{
    if i < 0 || i >= ls.len() {
        seq![]
    } else if is_blank(ls[i]) {
        vtt_events(ls, i + 1)
    } else {
        let name = if has_arrow(ls[i]) {
            seq![]
        } else {
            ls[i]
        };
        let j = if has_arrow(ls[i]) {
            i
        } else {
            i + 1
        };
        if j >= ls.len() {
            seq![]
        } else if !has_arrow(ls[j]) {
            vtt_events(ls, j + 1)
        } else {
            match vtt_timing_spec(ls[j]) {
                None => vtt_events(ls, j + 1),
                Some((a, b, st)) => {
                    let k = body_end(ls, j + 1);
                    proof {
                        lemma_body_end(ls, j + 1);
                    }
                    seq![vtt_event(name, a, b, st, join(ls.subrange(j + 1, k), "\n"@))]
                        + vtt_events(ls, k)
                },
            }
        }
    }
}

/// Index of the first line containing `-->` (or the number of lines).
pub open spec fn first_cue_line(ls: Seq<Seq<char>>, i: int) -> int
    decreases ls.len() - i,
{
    if i < 0 || i >= ls.len() || has_arrow(ls[i]) {
        i
    } else {
        first_cue_line(ls, i + 1)
    }
}

proof fn lemma_first_cue_line(ls: Seq<Seq<char>>, i: int)
    requires
        0 <= i <= ls.len(),
    ensures
        i <= first_cue_line(ls, i) <= ls.len(),
    decreases ls.len() - i,
{
    if i < ls.len() && !has_arrow(ls[i]) {
        lemma_first_cue_line(ls, i + 1);
    }
}

/// Trailing blank lines removed.
pub open spec fn drop_trailing_blank(h: Seq<Seq<char>>) -> Seq<Seq<char>>
    decreases h.len(),
{
    if h.len() > 0 && is_blank(h.last()) {
        drop_trailing_blank(h.drop_last())
    } else {
        h
    }
}

/// First non-blank line, trimmed (empty when there is none).
pub open spec fn first_nonblank(ls: Seq<Seq<char>>) -> Seq<char>
    decreases ls.len(),
{
    if ls.len() == 0 {
        seq![]
    } else if !is_blank(ls[0]) {
        trim(ls[0])
    } else {
        first_nonblank(ls.drop_first())
    }
}

pub open spec fn vtt_lines(text: Seq<char>) -> Seq<Seq<char>> {
    lines(normalize_newlines(text))
}

/// Whether VTT text starts (after blank lines) with `WEBVTT`.
pub open spec fn vtt_has_header(text: Seq<char>) -> bool {
    starts_with(first_nonblank(vtt_lines(text)), "WEBVTT"@)
}

/// Index of the first line of the first cue block: its identifier line
/// when the first timing line follows a non-blank line that itself follows
/// a blank line (cue blocks are separated by blank lines) and comes after
/// the first non-blank line (the `WEBVTT` line), else the timing line
/// itself.
pub open spec fn cue_start(ls: Seq<Seq<char>>) -> int {
    let f = first_cue_line(ls, 0);
    if 2 <= f < ls.len() && !is_blank(ls[f - 1]) && is_blank(ls[f - 2]) && first_nb(ls, 0) < f - 1 {
        f - 1
    } else {
        f
    }
}

/// Index of the first non-blank line from `i` on (or the number of lines).
pub open spec fn first_nb(ls: Seq<Seq<char>>, i: int) -> int
    decreases ls.len() - i,
{
    if i < 0 || i >= ls.len() || !is_blank(ls[i]) {
        i
    } else {
        first_nb(ls, i + 1)
    }
}

proof fn lemma_first_nb(ls: Seq<Seq<char>>, i: int)
    requires
        0 <= i <= ls.len(),
    ensures
        i <= first_nb(ls, i) <= ls.len(),
        first_nb(ls, i) < ls.len() ==> !is_blank(ls[first_nb(ls, i)]),
        forall|m: int| i <= m < first_nb(ls, i) ==> is_blank(#[trigger] ls[m]),
    decreases ls.len() - i,
{
    if i < ls.len() && is_blank(ls[i]) {
        lemma_first_nb(ls, i + 1);
    }
}

/// Header lines: everything before the first cue block, trailing blanks
/// dropped.
pub open spec fn vtt_header_spec(text: Seq<char>) -> Seq<Seq<char>> {
    let ls = vtt_lines(text);
    drop_trailing_blank(ls.take(cue_start(ls)))
}

/// The cues, from the first cue block on (the first cue keeps its
/// identifier).
pub open spec fn vtt_parse_spec(text: Seq<char>) -> Seq<EventView> {
    let ls = vtt_lines(text);
    vtt_events(ls, cue_start(ls))
}

fn has_arrow_chars(l: &[char]) -> (b: bool)
    ensures
        b == has_arrow(l@),
{
    let arrow = chars_of("-->");
    proof {
        reveal_strlit("-->");
    }
    find_pattern(l, &arrow).is_some()
}

/// The text up to the first whitespace, and the trimmed remainder after it.
fn split_first_ws(rest: &[char]) -> (r: (Vec<char>, Vec<char>))
    ensures
        match find_ws(rest@) {
            None => r.0@ == rest@ && r.1@ == Seq::<char>::empty(),
            Some(k) => r.0@ == rest@.take(k) && r.1@ == trim(rest@.skip(k + 1)),
        },
{
    let mut k: usize = 0;
    while k < rest.len() && !is_ws_char(rest[k])
        invariant
            k <= rest@.len(),
            forall|m: int| 0 <= m < k ==> !is_ws(#[trigger] rest@[m]),
        decreases rest@.len() - k,
    {
        k = k + 1;
    }
    if k < rest.len() {
        proof {
            lemma_find_ws_at(rest@, k as int);
        }
        let b = copy_range(rest, 0, k);
        let tail = copy_range(rest, k + 1, rest.len());
        assert(b@ =~= rest@.take(k as int));
        assert(tail@ =~= rest@.skip(k + 1));
        let (u, v) = trim_bounds(&tail);
        (b, copy_range(&tail, u, v))
    } else {
        proof {
            lemma_find_ws_none(rest@);
        }
        let e: Vec<char> = Vec::new();
        assert(e@ =~= Seq::<char>::empty());
        let b = copy_range(rest, 0, rest.len());
        assert(b@ =~= rest@);
        (b, e)
    }
}

fn parse_timing(line: &[char]) -> (r: Option<(i64, i64, Vec<char>)>)
    ensures
        match vtt_timing_spec(line@) {
            Some((a, b, st)) => r matches Some(x) && x.0 == a && x.1 == b && x.2@ == st,
            None => r is None,
        },
{
    let arrow = chars_of("-->");
    proof {
        reveal_strlit("-->");
    }
    assert(arrow@ == "-->"@);
    let i = match find_pattern(line, arrow.as_slice()) {
        None => return None,
        Some(i) => i,
    };
    assert(arrow@.len() == 3);
    let n = line.len();
    assert(i + 3 <= n);
    let a = copy_range(line, 0, i);
    assert(a@ =~= line@.take(i as int));
    let after = copy_range(line, i + 3, n);
    assert(after@ =~= line@.skip(i + 3));
    let (p, q) = trim_bounds(&after);
    let rest = copy_range(&after, p, q);
    let (b, settings) = split_first_ws(&rest);
    let (u, v) = trim_bounds(&b);
    let bt = copy_range(&b, u, v);
    assert(find_seq(line@, "-->"@) == Some(i as int));
    assert(rest@ == trim(line@.skip(i + 3)));
    assert(bt@ == trim(b@));
    let s = match parse_vtt_time_chars(&a) {
        None => return None,
        Some(s) => s,
    };
    let e = match parse_vtt_time_chars(&bt) {
        None => return None,
        Some(e) => e,
    };
    Some((s, e, settings))
}

proof fn lemma_find_ws_at(s: Seq<char>, i: int)
    requires
        0 <= i < s.len(),
        is_ws(s[i]),
        forall|k: int| 0 <= k < i ==> !is_ws(s[k]),
    ensures
        find_ws(s) == Some(i),
    decreases i,
{
    if i > 0 {
        lemma_find_ws_at(s.drop_first(), i - 1);
    }
}

proof fn lemma_find_ws_none(s: Seq<char>)
    requires
        forall|k: int| 0 <= k < s.len() ==> !is_ws(s[k]),
    ensures
        find_ws(s) is None,
    decreases s.len(),
{
    if s.len() > 0 {
        lemma_find_ws_none(s.drop_first());
    }
}

proof fn lemma_first_nonblank_step(ls: Seq<Seq<char>>, i: int)
    requires
        0 <= i < ls.len(),
        forall|k: int| 0 <= k < i ==> is_blank(#[trigger] ls[k]),
    ensures
        first_nonblank(ls) == first_nonblank(ls.skip(i)),
    decreases i,
{
    if i > 0 {
        assert(ls.drop_first().skip(i - 1) =~= ls.skip(i));
        assert forall|k: int| 0 <= k < i - 1 implies is_blank(#[trigger] ls.drop_first()[k]) by {
            assert(ls.drop_first()[k] == ls[k + 1]);
        }
        lemma_first_nonblank_step(ls.drop_first(), i - 1);
    } else {
        assert(ls.skip(0) =~= ls);
    }
}

proof fn lemma_first_nonblank_all_blank(ls: Seq<Seq<char>>)
    requires
        forall|k: int| 0 <= k < ls.len() ==> is_blank(#[trigger] ls[k]),
    ensures
        first_nonblank(ls) == Seq::<char>::empty(),
    decreases ls.len(),
{
    if ls.len() > 0 {
        assert forall|k: int| 0 <= k < ls.drop_first().len() implies is_blank(
            #[trigger] ls.drop_first()[k],
        ) by {
            assert(ls.drop_first()[k] == ls[k + 1]);
        }
        lemma_first_nonblank_all_blank(ls.drop_first());
    }
}

/// Whether the first non-blank line starts with `WEBVTT`.
fn has_webvtt_header(ls: &Vec<Vec<char>>) -> (b: bool)
    ensures
        b == starts_with(first_nonblank(vecs_view(ls@)), "WEBVTT"@),
{
    let ghost lsv = vecs_view(ls@);
    let tag = chars_of("WEBVTT");
    proof {
        reveal_strlit("WEBVTT");
    }
    let mut i: usize = 0;
    while i < ls.len() && is_blank_chars(&ls[i])
        invariant
            i <= ls@.len(),
            lsv == vecs_view(ls@),
            forall|k: int| 0 <= k < i ==> is_blank(#[trigger] lsv[k]),
        decreases ls@.len() - i,
    {
        assert(ls@[i as int]@ == lsv[i as int]);
        i = i + 1;
    }
    if i == ls.len() {
        proof {
            lemma_first_nonblank_all_blank(lsv);
        }
        assert(!starts_with(Seq::<char>::empty(), "WEBVTT"@));
        return false;
    }
    proof {
        lemma_first_nonblank_step(lsv, i as int);
        assert(lsv.skip(i as int)[0] == lsv[i as int]);
        assert(ls@[i as int]@ == lsv[i as int]);
    }
    let (a, b) = trim_bounds(&ls[i]);
    let t = copy_range(&ls[i], a, b);
    if t.len() < 6 {
        return false;
    }
    let head = copy_range(&t, 0, 6);
    assert(head@ =~= t@.take(6));
    crate::text::chars_eq(&head, &tag)
}

proof fn lemma_drop_trailing(h: Seq<Seq<char>>, k: int)
    requires
        0 <= k <= h.len(),
        forall|m: int| k <= m < h.len() ==> is_blank(#[trigger] h[m]),
        k > 0 ==> !is_blank(h[k - 1]),
    ensures
        drop_trailing_blank(h) == h.take(k),
    decreases h.len() - k,
{
    if h.len() > k {
        assert(h.drop_last().take(k) =~= h.take(k));
        lemma_drop_trailing(h.drop_last(), k);
    } else {
        assert(h.take(k) =~= h);
    }
}

/// Parses WebVTT. Everything before the first cue block (WEBVTT header,
/// NOTE/STYLE/REGION blocks) is preserved verbatim in `header`, trailing
/// blank lines dropped. Cue identifiers (the first cue's included) and cue
/// settings are kept per event.
pub fn parse(text: &str) -> (r: Result<SubFile, ParseError>)
    ensures
        !vtt_has_header(text@) ==> r == Err::<SubFile, ParseError>(ParseError::MissingVttHeader),
        vtt_has_header(text@) && vtt_parse_spec(text@).len() == 0 ==> r == Err::<SubFile, ParseError>(
            ParseError::NoVttCues,
        ),
        r is Ok <==> vtt_has_header(text@) && vtt_parse_spec(text@).len() > 0,
        r matches Ok(f) ==> {
            &&& f@.format == SubFormat::Vtt
            &&& f@.events == vtt_parse_spec(text@)
            &&& f@.header == vtt_header_spec(text@)
            &&& f@.ass_columns == standard_columns_spec()
        },
{
    let raw = chars_of(text);
    let norm = normalize_newlines_chars(&raw);
    let ls = lines_of(&norm);
    let ghost lsv = vecs_view(ls@);
    if !has_webvtt_header(&ls) {
        return Err(ParseError::MissingVttHeader);
    }
    let mut file = SubFile::new(SubFormat::Vtt);
    let n = ls.len();
    let mut i: usize = 0;
    proof {
        lemma_first_cue_line(lsv, 0);
    }
    while i < n && !has_arrow_chars(&ls[i])
        invariant
            i <= n == lsv.len(),
            lsv == vecs_view(ls@),
            first_cue_line(lsv, 0) == first_cue_line(lsv, i as int),
        decreases n - i,
    {
        assert(ls@[i as int]@ == lsv[i as int]);
        i = i + 1;
    }
    proof {
        if i < n {
            assert(ls@[i as int]@ == lsv[i as int]);
        }
    }
    let first_arrow = i;
    assert(first_cue_line(lsv, 0) == first_arrow as int);
    let mut i0: usize = 0;
    proof {
        lemma_first_nb(lsv, 0);
    }
    while i0 < n && is_blank_chars(&ls[i0])
        invariant
            i0 <= n == lsv.len(),
            lsv == vecs_view(ls@),
            first_nb(lsv, 0) == first_nb(lsv, i0 as int),
        decreases n - i0,
    {
        assert(ls@[i0 as int]@ == lsv[i0 as int]);
        i0 = i0 + 1;
    }
    proof {
        if i0 < n {
            assert(ls@[i0 as int]@ == lsv[i0 as int]);
        }
    }
    assert(first_nb(lsv, 0) == i0 as int);
    let mut first = first_arrow;
    if first_arrow >= 2 && first_arrow < n && !is_blank_chars(&ls[first_arrow - 1])
        && is_blank_chars(&ls[first_arrow - 2]) && i0 < first_arrow - 1 {
        first = first_arrow - 1;
    }
    proof {
        if first_arrow >= 2 && first_arrow < n {
            assert(ls@[first_arrow - 1]@ == lsv[first_arrow - 1]);
            assert(ls@[first_arrow - 2]@ == lsv[first_arrow - 2]);
        }
    }
    assert(cue_start(lsv) == first as int);
    i = first;
    let mut end = first;
    while end > 0 && is_blank_chars(&ls[end - 1])
        invariant
            end <= first <= n == lsv.len(),
            lsv == vecs_view(ls@),
            forall|m: int| end <= m < first ==> is_blank(#[trigger] lsv[m]),
        decreases end,
    {
        assert(ls@[end - 1]@ == lsv[end - 1]);
        end = end - 1;
    }
    proof {
        if end > 0 {
            assert(ls@[end - 1]@ == lsv[end - 1]);
        }
        let h = lsv.take(first as int);
        assert forall|m: int| end <= m < h.len() implies is_blank(#[trigger] h[m]) by {
            assert(h[m] == lsv[m]);
        }
        lemma_drop_trailing(h, end as int);
        assert(h.take(end as int) =~= lsv.take(end as int));
    }
    let mut k: usize = 0;
    while k < end
        invariant
            k <= end <= n == lsv.len(),
            lsv == vecs_view(ls@),
            strings_view(file.header@) == lsv.take(k as int),
            file@.format == SubFormat::Vtt,
            file@.events.len() == 0,
            file@.ass_columns == standard_columns_spec(),
        decreases end - k,
    {
        let ghost hb = file.header@;
        file.header.push(string_of(&ls[k]));
        assert(ls@[k as int]@ == lsv[k as int]);
        assert(strings_view(file.header@) =~= strings_view(hb).push(lsv[k as int]));
        assert(lsv.take(k + 1) =~= lsv.take(k as int).push(lsv[k as int]));
        k = k + 1;
    }
    let nl = chars_of("\n");
    assert(events_view(file.events@) =~= Seq::<EventView>::empty());
    let ghost header_done = strings_view(file.header@);
    while i < n
        invariant
            first <= i <= n == lsv.len(),
            lsv == vecs_view(ls@),
            nl@ == "\n"@,
            file@.format == SubFormat::Vtt,
            file@.ass_columns == standard_columns_spec(),
            strings_view(file.header@) == header_done,
            file@.events + vtt_events(lsv, i as int) == vtt_events(lsv, first as int),
        decreases n - i,
    {
        assert(ls@[i as int]@ == lsv[i as int]);
        if is_blank_chars(&ls[i]) {
            i = i + 1;
            continue;
        }
        let mut name: Vec<char> = Vec::new();
        let mut j = i;
        if !has_arrow_chars(&ls[i]) {
            name = copy_range(&ls[i], 0, ls[i].len());
            assert(name@ =~= lsv[i as int]);
            j = i + 1;
            if j >= n {
                assert(vtt_events(lsv, i as int) == Seq::<EventView>::empty());
                assert(file@.events + Seq::<EventView>::empty() =~= file@.events);
                i = n;
                continue;
            }
        } else {
            assert(name@ =~= Seq::<char>::empty());
        }
        assert(ls@[j as int]@ == lsv[j as int]);
        if !has_arrow_chars(&ls[j]) {
            i = j + 1;
            continue;
        }
        let (a, b, settings) = match parse_timing(&ls[j]) {
            Some(t) => t,
            None => {
                i = j + 1;
                continue;
            },
        };
        let start = j + 1;
        j = j + 1;
        proof {
            lemma_body_end(lsv, start as int);
        }
        while j < n && !is_blank_chars(&ls[j])
            invariant
                start <= j <= n == lsv.len(),
                lsv == vecs_view(ls@),
                body_end(lsv, start as int) == body_end(lsv, j as int),
            decreases n - j,
        {
            assert(ls@[j as int]@ == lsv[j as int]);
            j = j + 1;
        }
        proof {
            if j < n {
                assert(ls@[j as int]@ == lsv[j as int]);
            }
        }
        let body = join_range(&ls, start, j, &nl);
        let ev = Event {
            start_ms: a,
            end_ms: b,
            style: String::new(),
            name: string_of(&name),
            effect: String::new(),
            text: string_of(&body),
            layer: 0,
            margins: [String::new(), String::new(), String::new()],
            extra: string_of(&settings),
        };
        let ghost before = file@.events;
        file.events.push(ev);
        assert(file@.events =~= before + seq![ev@]);
        i = j;
    }
    assert(file@.events + vtt_events(lsv, i as int) =~= file@.events);
    if file.events.len() == 0 {
        return Err(ParseError::NoVttCues);
    }
    Ok(file)
}

/// One serialized cue: optional identifier line, timing line (with
/// settings when present), text, blank line.
pub open spec fn vtt_block(e: EventView) -> Seq<char> {
    (if e.name.len() > 0 {
        e.name + "\n"@
    } else {
        seq![]
    }) + vtt_time_text(e.start_ms) + " --> "@ + vtt_time_text(e.end_ms) + (if e.extra.len() > 0 {
        " "@ + e.extra
    } else {
        seq![]
    }) + "\n"@ + e.text + "\n\n"@
}

pub open spec fn vtt_blocks(evs: Seq<EventView>) -> Seq<char>
    decreases evs.len(),
{
    if evs.len() == 0 {
        seq![]
    } else {
        vtt_blocks(evs.drop_last()) + vtt_block(evs.last())
    }
}

pub open spec fn lines_text(h: Seq<Seq<char>>) -> Seq<char>
    decreases h.len(),
{
    if h.len() == 0 {
        seq![]
    } else {
        lines_text(h.drop_last()) + h.last() + "\n"@
    }
}

/// WebVTT text of a file: header lines, a blank line, then the cues.
pub open spec fn vtt_text(f: SubFileView) -> Seq<char> {
    lines_text(f.header) + "\n"@ + vtt_blocks(f.events)
}

fn push_vtt_block(out: &mut Vec<char>, e: &Event)
    ensures
        final(out)@ == old(out)@ + vtt_block(e@),
{
    let mut b: Vec<char> = Vec::new();
    if e.name.as_str().unicode_len() > 0 {
        push_str(&mut b, e.name.as_str());
        push_str(&mut b, "\n");
    }
    let ghost p1 = b@;
    push_hms_ms(&mut b, e.start_ms, '.');
    push_str(&mut b, " --> ");
    push_hms_ms(&mut b, e.end_ms, '.');
    let ghost p2 = b@;
    if e.extra.as_str().unicode_len() > 0 {
        push_str(&mut b, " ");
        push_str(&mut b, e.extra.as_str());
    }
    let ghost p3 = b@;
    push_str(&mut b, "\n");
    push_str(&mut b, e.text.as_str());
    push_str(&mut b, "\n\n");
    assert(b@ =~= vtt_block(e@));
    push_all(out, &b);
}

/// Serializes back to WebVTT.
pub fn serialize(file: &SubFile) -> (r: String)
    ensures
        r@ == vtt_text(file@),
{
    let mut out: Vec<char> = Vec::new();
    let mut k: usize = 0;
    while k < file.header.len()
        invariant
            k <= file.header@.len(),
            out@ == lines_text(strings_view(file.header@).take(k as int)),
        decreases file.header@.len() - k,
    {
        let ghost post = strings_view(file.header@).take(k + 1);
        assert(post.drop_last() =~= strings_view(file.header@).take(k as int));
        push_str(&mut out, file.header[k].as_str());
        push_str(&mut out, "\n");
        assert(out@ =~= lines_text(post));
        k = k + 1;
    }
    assert(strings_view(file.header@).take(k as int) =~= strings_view(file.header@));
    push_str(&mut out, "\n");
    let ghost head = out@;
    let mut j: usize = 0;
    while j < file.events.len()
        invariant
            j <= file.events@.len(),
            head == lines_text(file@.header) + "\n"@,
            out@ == head + vtt_blocks(events_view(file.events@).take(j as int)),
        decreases file.events@.len() - j,
    {
        let ghost post = events_view(file.events@).take(j + 1);
        assert(post.drop_last() =~= events_view(file.events@).take(j as int));
        assert(post.last() == file.events@[j as int]@);
        push_vtt_block(&mut out, &file.events[j]);
        assert(out@ =~= head + vtt_blocks(post));
        j = j + 1;
    }
    assert(events_view(file.events@).take(j as int) =~= events_view(file.events@));
    string_of(&out)
}

/* ---------- round trip: serialize then parse gives the cues back ---------- */

/// A header or identifier line WebVTT keeps as one line: no line breaks
/// and no `-->` (which would make it a timing line).
pub open spec fn vtt_line_ok(l: Seq<char>) -> bool {
    no_char(l, '\n') && no_char(l, '\r') && !has_arrow(l)
}

/// A cue WebVTT represents exactly: non-negative times, carriable text,
/// an identifier that is empty or a non-blank line, trimmed one-line
/// settings, and no ASS-only fields.
pub open spec fn vtt_event_ok(e: EventView) -> bool {
    &&& 0 <= e.start_ms <= i64::MAX
    &&& 0 <= e.end_ms <= i64::MAX
    &&& srt_text_ok(e.text)
    &&& (e.name.len() == 0 || (vtt_line_ok(e.name) && !is_blank(e.name)))
    &&& no_char(e.extra, '\n') && no_char(e.extra, '\r') && trim(e.extra) == e.extra
    &&& e == vtt_event(e.name, e.start_ms, e.end_ms, e.extra, e.text)
}

/// A file whose WebVTT text parses back to it: one-line header lines
/// without `-->`, not starting with a byte-order mark, cues WebVTT
/// represents, and a non-blank header line when the first cue has an
/// identifier (without one, the identifier would read as the header).
pub open spec fn vtt_file_ok(f: SubFileView) -> bool {
    &&& forall|k: int| 0 <= k < f.header.len() ==> vtt_line_ok(#[trigger] f.header[k])
    &&& (f.header.len() > 0 && f.header[0].len() > 0 ==> f.header[0][0] != '\u{FEFF}')
    &&& forall|k: int| 0 <= k < f.events.len() ==> vtt_event_ok(#[trigger] f.events[k])
    &&& (f.events.len() > 0 && f.events[0].name.len() > 0 ==> exists|k: int|
        0 <= k < f.header.len() && !is_blank(#[trigger] f.header[k]))
}

/// The first non-blank line of the text (the `WEBVTT` line) holds no `-->`.
pub open spec fn vtt_first_line_plain(text: Seq<char>) -> bool {
    let ls = vtt_lines(text);
    first_nb(ls, 0) < ls.len() && !has_arrow(ls[first_nb(ls, 0)])
}

pub open spec fn vtt_timing_line(e: EventView) -> Seq<char> {
    vtt_time_text(e.start_ms) + " --> "@ + vtt_time_text(e.end_ms) + if e.extra.len() > 0 {
        " "@ + e.extra
    } else {
        seq![]
    }
}

pub open spec fn vtt_block_lines(e: EventView) -> Seq<Seq<char>> {
    (if e.name.len() > 0 {
        seq![e.name]
    } else {
        seq![]
    }) + seq![vtt_timing_line(e)] + split_char(e.text, '\n') + seq![Seq::<char>::empty()]
}

pub open spec fn vtt_time_char(c: char) -> bool {
    is_digit(c) || c == ':' || c == '.'
}

#[verifier::spinoff_prover]
#[verifier::rlimit(40)]
proof fn lemma_vtt_time_chars(ms: int)
    requires
        0 <= ms <= i64::MAX,
    ensures
        vtt_time_text(ms).len() > 0,
        forall|k: int| 0 <= k < vtt_time_text(ms).len() ==> vtt_time_char(#[trigger] vtt_time_text(ms)[k]),
        is_digit(vtt_time_text(ms)[0]),
        is_digit(vtt_time_text(ms).last()),
{
    crate::time::law_vtt_time_roundtrip(ms);
    let hp = padded(hours_of(ms), 2);
    let mp = padded(minutes_of(ms), 2);
    let sp = padded(seconds_of(ms), 2);
    let fp = padded(millis_of(ms), 3);
    lemma_padded(hours_of(ms), 2);
    lemma_padded(minutes_of(ms), 2);
    lemma_padded(seconds_of(ms), 2);
    lemma_padded(millis_of(ms), 3);
    let t = vtt_time_text(ms);
    assert(t =~= hp + seq![':'] + mp + seq![':'] + sp + seq!['.'] + fp);
    assert forall|k: int| 0 <= k < t.len() implies vtt_time_char(#[trigger] t[k]) by {
        let a = hp.len() as int;
        let b = a + 1 + mp.len();
        let c = b + 1 + sp.len();
        if k < a {
            assert(t[k] == hp[k]);
        } else if k == a {
        } else if k < b {
            assert(t[k] == mp[k - a - 1]);
        } else if k == b {
        } else if k < c {
            assert(t[k] == sp[k - b - 1]);
        } else if k == c {
        } else {
            assert(t[k] == fp[k - c - 1]);
        }
    }
    assert(t[0] == hp[0]);
    assert(t.last() == fp.last());
}

proof fn lemma_find_ws_prefix(b: Seq<char>, rest: Seq<char>)
    requires
        forall|k: int| 0 <= k < b.len() ==> !is_ws(#[trigger] b[k]),
    ensures
        find_ws(b + seq![' '] + rest) == Some(b.len() as int),
        find_ws(b) is None,
{
    let s = b + seq![' '] + rest;
    assert forall|k: int| 0 <= k < b.len() implies !is_ws(s[k]) by {
        assert(s[k] == b[k]);
    }
    assert(s[b.len() as int] == ' ');
    lemma_find_ws_at(s, b.len() as int);
    lemma_find_ws_none(b);
}

#[verifier::spinoff_prover]
#[verifier::rlimit(60)]
proof fn lemma_vtt_timing_line(e: EventView)
    requires
        vtt_event_ok(e),
    ensures
        vtt_timing_spec(vtt_timing_line(e)) == Some((e.start_ms, e.end_ms, e.extra)),
        no_char(vtt_timing_line(e), '\n'),
        no_char(vtt_timing_line(e), '\r'),
        !is_blank(vtt_timing_line(e)),
        has_arrow(vtt_timing_line(e)),
{
    reveal_strlit(" --> ");
    reveal_strlit("-->");
    reveal_strlit(" ");
    let x = vtt_time_text(e.start_ms);
    let y = vtt_time_text(e.end_ms);
    lemma_vtt_time_chars(e.start_ms);
    lemma_vtt_time_chars(e.end_ms);
    let tail: Seq<char> = if e.extra.len() > 0 {
        seq![' '] + e.extra
    } else {
        seq![]
    };
    let t = vtt_timing_line(e);
    let arrow = "-->"@;
    let l = x.len() as int;
    assert(t =~= x + seq![' ', '-', '-', '>', ' '] + y + tail);
    assert forall|k: int| 0 <= k < t.len() implies t[k] != '\n' && t[k] != '\r' by {
        if k < l {
            assert(t[k] == x[k]);
            assert(vtt_time_char(x[k]));
        } else if l + 5 <= k < l + 5 + y.len() {
            assert(t[k] == y[k - l - 5]);
            assert(vtt_time_char(y[k - l - 5]));
        } else if k >= l + 5 + y.len() + 1 {
            assert(t[k] == e.extra[k - l - 5 - y.len() - 1]);
        }
    }
    assert(occurs_at(t, arrow, l + 1)) by {
        assert(t.subrange(l + 1, l + 4) =~= arrow);
    }
    assert forall|k: int| 0 <= k < l + 1 implies !occurs_at(t, arrow, k) by {
        if occurs_at(t, arrow, k) {
            assert(t.subrange(k, k + 3)[0] == '-');
            assert(t[k] == '-');
            if k < l {
                assert(t[k] == x[k]);
                assert(vtt_time_char(x[k]));
            }
        }
    }
    lemma_find_seq_at(t, arrow, l + 1);
    assert(find_seq(t, "-->"@) == Some(l + 1));
    assert(t.take(l + 1) =~= x + seq![' ']);
    lemma_trim_pad_right(x);
    lemma_trim_pad_right(y);
    crate::time::law_vtt_time_roundtrip(e.start_ms);
    crate::time::law_vtt_time_roundtrip(e.end_ms);
    assert(vtt_time_spec(x + seq![' ']) == vtt_time_spec(x));
    let after = t.skip(l + 1 + 3);
    assert(after =~= seq![' '] + y + tail);
    assert forall|k: int| 0 <= k < y.len() implies !is_ws(#[trigger] y[k]) by {
        assert(vtt_time_char(y[k]));
    }
    if e.extra.len() > 0 {
        let st = e.extra;
        assert(!is_ws(st[0]) && !is_ws(st.last())) by {
            assert(trim(st) == st);
            if is_ws(st[0]) {
                assert(trim_start(st) == trim_start(st.drop_first()));
                assert(trim_start(st).len() <= st.drop_first().len()) by {
                    lemma_trim_start_len(st.drop_first());
                }
                lemma_trim_end_len(trim_start(st));
            }
            if is_ws(st.last()) {
                lemma_trim_start_keeps_last(st);
                let u = trim_start(st);
                assert(u.len() > 0);
                assert(trim_end(u) == trim_end(u.drop_last()));
                lemma_trim_end_len(u.drop_last());
            }
        }
        let body = y + seq![' '] + st;
        assert(after =~= seq![' '] + body);
        assert(body[0] == y[0]);
        assert(body.last() == st.last());
        lemma_trim_pad_right(body);
        assert(trim(after) == body);
        lemma_find_ws_prefix(y, st);
        assert(body.take(y.len() as int) =~= y);
        assert(body.skip(y.len() as int + 1) =~= st);
    } else {
        assert(after =~= seq![' '] + y);
        assert(trim(after) == y);
        lemma_find_ws_prefix(y, seq![]);
        assert(trim(y) == y);
    }
    assert(t[0] == x[0]);
    assert(trim_start(t) == t);
    assert(!is_blank(t)) by {
        assert(t.len() > 0 && !is_ws(t[0]));
        lemma_trim_end_nonempty(t);
    }
    lemma_find_seq(t, "-->"@);
}

proof fn lemma_trim_start_len(s: Seq<char>)
    ensures
        trim_start(s).len() <= s.len(),
    decreases s.len(),
{
    if s.len() > 0 && is_ws(s[0]) {
        lemma_trim_start_len(s.drop_first());
    }
}

proof fn lemma_trim_end_len(s: Seq<char>)
    ensures
        trim_end(s).len() <= s.len(),
    decreases s.len(),
{
    if s.len() > 0 && is_ws(s.last()) {
        lemma_trim_end_len(s.drop_last());
    }
}

proof fn lemma_trim_start_keeps_last(s: Seq<char>)
    requires
        s.len() > 0,
        !is_ws(s[0]) || exists|k: int| 0 <= k < s.len() && !is_ws(s[k]),
    ensures
        trim_start(s).len() > 0,
        trim_start(s).last() == s.last(),
    decreases s.len(),
{
    if is_ws(s[0]) {
        let k = choose|k: int| 0 <= k < s.len() && !is_ws(s[k]);
        assert(k > 0);
        assert(s.drop_first()[k - 1] == s[k]);
        lemma_trim_start_keeps_last(s.drop_first());
    }
}

proof fn lemma_trim_end_nonempty(t: Seq<char>)
    requires
        t.len() > 0,
        !is_ws(t[0]),
    ensures
        trim_end(t).len() > 0,
    decreases t.len(),
{
    if is_ws(t.last()) {
        assert(t.len() > 1);
        assert(t.drop_last()[0] == t[0]);
        lemma_trim_end_nonempty(t.drop_last());
    }
}

#[verifier::rlimit(40)]
#[verifier::spinoff_prover]
proof fn lemma_vtt_block_text(e: EventView, rest: Seq<char>)
    requires
        vtt_event_ok(e),
    ensures
        lines(vtt_block(e) + rest) == vtt_block_lines(e) + lines(rest),
{
    reveal_strlit("\n");
    reveal_strlit("\n\n");
    reveal_strlit(" --> ");
    reveal_strlit(" ");
    lemma_vtt_timing_line(e);
    let t = vtt_timing_line(e);
    let x = e.text;
    let tail = x + seq!['\n'] + (Seq::<char>::empty() + seq!['\n'] + rest);
    let body = t + seq!['\n'] + tail;
    assert(vtt_block(e) =~= (if e.name.len() > 0 {
        e.name + seq!['\n']
    } else {
        seq![]
    }) + t + seq!['\n'] + x + seq!['\n', '\n']);
    lemma_lines_line(t, tail);
    lemma_lines_text(x, Seq::<char>::empty() + seq!['\n'] + rest);
    lemma_lines_line(Seq::<char>::empty(), rest);
    if e.name.len() > 0 {
        assert(vtt_block(e) + rest =~= e.name + seq!['\n'] + body);
        lemma_lines_line(e.name, body);
    } else {
        assert(vtt_block(e) + rest =~= body);
    }
    assert(lines(vtt_block(e) + rest) =~= vtt_block_lines(e) + lines(rest));
}

#[verifier::spinoff_prover]
#[verifier::rlimit(40)]
proof fn lemma_vtt_events_shift(p: Seq<Seq<char>>, r: Seq<Seq<char>>, i: int)
    requires
        0 <= i,
    ensures
        vtt_events(p + r, p.len() + i) == vtt_events(r, i),
    decreases r.len() - i,
{
    let ls = p + r;
    let o = p.len() as int;
    if i < r.len() {
        assert(ls[o + i] == r[i]);
        if is_blank(r[i]) {
            lemma_vtt_events_shift(p, r, i + 1);
        } else {
            let j = if has_arrow(r[i]) {
                i
            } else {
                i + 1
            };
            if j < r.len() {
                assert(ls[o + j] == r[j]);
                if !has_arrow(r[j]) {
                    lemma_vtt_events_shift(p, r, j + 1);
                } else {
                    match vtt_timing_spec(r[j]) {
                        None => {
                            lemma_vtt_events_shift(p, r, j + 1);
                        },
                        Some((a, b, st)) => {
                            lemma_body_end_shift(p, r, j + 1);
                            lemma_body_end(r, j + 1);
                            let k = body_end(r, j + 1);
                            assert(ls.subrange(o + j + 1, o + k) =~= r.subrange(j + 1, k));
                            lemma_vtt_events_shift(p, r, k);
                        },
                    }
                }
            }
        }
    }
}

proof fn lemma_vtt_skip_blank(ls: Seq<Seq<char>>, i: int)
    requires
        0 <= i < ls.len(),
        is_blank(ls[i]),
    ensures
        vtt_events(ls, i) == vtt_events(ls, i + 1),
{
}

proof fn lemma_vtt_event_at(ls: Seq<Seq<char>>, i: int, j: int, e: EventView)
    requires
        0 <= i <= j < ls.len(),
        !is_blank(ls[i]),
        j == i ==> has_arrow(ls[i]) && e.name.len() == 0,
        j == i + 1 ==> !has_arrow(ls[i]) && ls[i] == e.name,
        j == i || j == i + 1,
        vtt_timing_spec(ls[j]) == Some((e.start_ms, e.end_ms, e.extra)),
        has_arrow(ls[j]),
        e == vtt_event(e.name, e.start_ms, e.end_ms, e.extra, join(ls.subrange(j + 1, body_end(ls, j + 1)), "\n"@)),
    ensures
        vtt_events(ls, i) == seq![e] + vtt_events(ls, body_end(ls, j + 1)),
{
    if j == i {
        assert(e.name =~= Seq::<char>::empty());
    }
}

#[verifier::rlimit(60)]
#[verifier::spinoff_prover]
proof fn lemma_vtt_events_block(e: EventView, r: Seq<Seq<char>>)
    requires
        vtt_event_ok(e),
    ensures
        vtt_events(vtt_block_lines(e) + r, 0) == seq![e] + vtt_events(r, 0),
{
    lemma_vtt_timing_line(e);
    lemma_blank_empty();
    let pieces = split_char(e.text, '\n');
    lemma_split_char_len(e.text, '\n');
    let b = vtt_block_lines(e);
    let ls = b + r;
    let p = pieces.len() as int;
    let j: int = if e.name.len() > 0 {
        1
    } else {
        0
    };
    assert(ls[j] == vtt_timing_line(e));
    assert(b.len() == j + p + 2);
    if e.name.len() > 0 {
        assert(ls[0] == e.name);
    }
    lemma_vtt_events_shift(b, r, 0);
    assert(vtt_events(ls, b.len() as int) == vtt_events(r, 0));
    if e.text.len() == 0 {
        lemma_find_char_none(e.text, '\n');
        assert(pieces == seq![e.text]);
        assert(ls[j + 1] == Seq::<char>::empty());
        assert(ls[j + 2] == Seq::<char>::empty());
        lemma_body_end_at(ls, j + 1, j + 1);
        assert(ls.subrange(j + 1, j + 1) =~= Seq::<Seq<char>>::empty());
        assert(join(ls.subrange(j + 1, j + 1), "\n"@) == e.text);
        lemma_vtt_event_at(ls, 0, j, e);
        lemma_vtt_skip_blank(ls, j + 1);
        lemma_vtt_skip_blank(ls, j + 2);
        assert(b.len() == j + 3);
    } else {
        assert forall|m: int| j + 1 <= m < j + 1 + p implies !is_blank(#[trigger] ls[m]) by {
            assert(ls[m] == pieces[m - j - 1]);
        }
        assert(ls[j + 1 + p] == Seq::<char>::empty());
        lemma_body_end_at(ls, j + 1, j + 1 + p);
        assert(ls.subrange(j + 1, j + 1 + p) =~= pieces);
        reveal_strlit("\n");
        lemma_join_split(e.text, '\n');
        assert("\n"@ == seq!['\n']);
        assert(join(ls.subrange(j + 1, j + 1 + p), "\n"@) == e.text);
        lemma_vtt_event_at(ls, 0, j, e);
        lemma_vtt_skip_blank(ls, j + 1 + p);
        assert(vtt_events(ls, j + 1 + p) == vtt_events(ls, b.len() as int));
    }
}

#[verifier::spinoff_prover]
#[verifier::rlimit(40)]
proof fn lemma_vtt_blocks_shape(evs: Seq<EventView>)
    requires
        forall|k: int| 0 <= k < evs.len() ==> vtt_event_ok(#[trigger] evs[k]),
    ensures
        no_char(vtt_blocks(evs), '\r'),
        vtt_blocks(evs).len() == 0 || vtt_blocks(evs).last() == '\n',
    decreases evs.len(),
{
    if evs.len() > 0 {
        reveal_strlit("\n");
        reveal_strlit("\n\n");
        let pre = evs.drop_last();
        assert forall|k: int| 0 <= k < pre.len() implies vtt_event_ok(#[trigger] pre[k]) by {
            assert(pre[k] == evs[k]);
        }
        lemma_vtt_blocks_shape(pre);
        let e = evs.last();
        assert(vtt_event_ok(evs[evs.len() - 1]));
        lemma_vtt_timing_line(e);
        let blk = vtt_block(e);
        let nm: Seq<char> = if e.name.len() > 0 {
            e.name + seq!['\n']
        } else {
            seq![]
        };
        let t = vtt_timing_line(e);
        assert(blk =~= nm + t + seq!['\n'] + e.text + seq!['\n', '\n']);
        assert forall|k: int| 0 <= k < blk.len() implies blk[k] != '\r' by {
            let a = nm.len() as int;
            let b = a + t.len();
            let c = b + 1 + e.text.len();
            if k < a {
                if k < e.name.len() {
                    assert(blk[k] == e.name[k]);
                }
            } else if k < b {
                assert(blk[k] == t[k - a]);
            } else if k == b {
            } else if k < c {
                assert(blk[k] == e.text[k - b - 1]);
            }
        }
        let all = vtt_blocks(evs);
        assert(all == vtt_blocks(pre) + blk);
        assert forall|k: int| 0 <= k < all.len() implies all[k] != '\r' by {
            if k < vtt_blocks(pre).len() {
                assert(all[k] == vtt_blocks(pre)[k]);
            } else {
                assert(all[k] == blk[k - vtt_blocks(pre).len()]);
            }
        }
    }
}

#[verifier::rlimit(60)]
#[verifier::spinoff_prover]
proof fn lemma_vtt_events_all(evs: Seq<EventView>, r: Seq<Seq<char>>)
    requires
        forall|k: int| 0 <= k < evs.len() ==> vtt_event_ok(#[trigger] evs[k]),
    ensures
        vtt_events(lines(vtt_blocks(evs)) + r, 0) == evs + vtt_events(r, 0),
    decreases evs.len(),
{
    if evs.len() == 0 {
        assert(vtt_blocks(evs) =~= Seq::<char>::empty());
        assert(lines(vtt_blocks(evs)) + r =~= r);
    } else {
        let pre = evs.drop_last();
        let e = evs.last();
        assert forall|k: int| 0 <= k < pre.len() implies vtt_event_ok(#[trigger] pre[k]) by {
            assert(pre[k] == evs[k]);
        }
        assert(vtt_event_ok(evs[evs.len() - 1]));
        lemma_vtt_blocks_shape(pre);
        lemma_lines_append(vtt_blocks(pre), vtt_block(e));
        lemma_vtt_block_text(e, Seq::<char>::empty());
        assert(vtt_block(e) + Seq::<char>::empty() =~= vtt_block(e));
        assert(lines(Seq::<char>::empty()) =~= Seq::<Seq<char>>::empty());
        let bl = vtt_block_lines(e);
        assert(lines(vtt_blocks(evs)) =~= lines(vtt_blocks(pre)) + bl);
        assert(lines(vtt_blocks(evs)) + r =~= lines(vtt_blocks(pre)) + (bl + r));
        lemma_vtt_events_all(pre, bl + r);
        lemma_vtt_events_block(e, r);
        assert(evs =~= pre + seq![e]);
    }
}

proof fn lemma_header_lines(h: Seq<Seq<char>>, rest: Seq<char>)
    requires
        forall|k: int| 0 <= k < h.len() ==> vtt_line_ok(#[trigger] h[k]),
    ensures
        lines(lines_text(h) + rest) == h + lines(rest),
        no_char(lines_text(h), '\r'),
        lines_text(h).len() == 0 || lines_text(h).last() == '\n',
    decreases h.len(),
{
    reveal_strlit("\n");
    if h.len() == 0 {
        assert(lines_text(h) + rest =~= rest);
        assert(h + lines(rest) =~= lines(rest));
    } else {
        let pre = h.drop_last();
        let x = h.last();
        assert forall|k: int| 0 <= k < pre.len() implies vtt_line_ok(#[trigger] pre[k]) by {
            assert(pre[k] == h[k]);
        }
        assert(vtt_line_ok(h[h.len() - 1]));
        lemma_header_lines(pre, x + seq!['\n'] + rest);
        lemma_lines_line(x, rest);
        assert(lines_text(h) + rest =~= lines_text(pre) + (x + seq!['\n'] + rest));
        assert(h + lines(rest) =~= pre + (seq![x] + lines(rest)));
        let lt = lines_text(h);
        assert(lt =~= lines_text(pre) + x + seq!['\n']);
        assert forall|k: int| 0 <= k < lt.len() implies lt[k] != '\r' by {
            if k < lines_text(pre).len() {
                assert(lt[k] == lines_text(pre)[k]);
            } else if k < lines_text(pre).len() + x.len() {
                assert(lt[k] == x[k - lines_text(pre).len()]);
            }
        }
    }
}

proof fn lemma_first_cue_after(ls: Seq<Seq<char>>, i: int, n: int)
    requires
        0 <= i <= n <= ls.len(),
        forall|k: int| i <= k < n ==> !has_arrow(#[trigger] ls[k]),
        n < ls.len() ==> has_arrow(ls[n]),
    ensures
        first_cue_line(ls, i) == n,
    decreases n - i,
{
    if i < n {
        lemma_first_cue_after(ls, i + 1, n);
    }
}

/// The lines of a written file: its header, a blank line, then the lines
/// of the cues.
proof fn lemma_vtt_text_lines(f: SubFileView)
    requires
        vtt_file_ok(f),
    ensures
        vtt_lines(vtt_text(f)) == f.header + seq![Seq::<char>::empty()] + lines(vtt_blocks(f.events)),
{
    reveal_strlit("\n");
    reveal_strlit("\r\n");
    reveal_strlit("\r");
    let h = f.header;
    let evs = f.events;
    let blocks = vtt_blocks(evs);
    let t = vtt_text(f);
    assert(t =~= lines_text(h) + (seq!['\n'] + blocks));
    lemma_header_lines(h, seq!['\n'] + blocks);
    lemma_vtt_blocks_shape(evs);
    assert(no_char(t, '\r')) by {
        let lt = lines_text(h);
        assert forall|k: int| 0 <= k < t.len() implies t[k] != '\r' by {
            if k < lt.len() {
                assert(t[k] == lt[k]);
            } else if k > lt.len() {
                assert(t[k] == blocks[k - lt.len() - 1]);
            }
        }
    }
    assert(t.len() == 0 || t[0] != '\u{FEFF}') by {
        if h.len() > 0 {
            if h[0].len() > 0 {
                assert(lines_text(h) =~= lines_text(h.drop_last()) + h.last() + seq!['\n']);
                lemma_lines_text_first(h);
            } else {
                lemma_lines_text_first(h);
            }
        }
    }
    assert(crate::subs::strip_bom(t) == t);
    lemma_replace_noop(t, "\r\n"@, "\n"@);
    lemma_replace_noop(t, "\r"@, "\n"@);
    assert(normalize_newlines(t) == t);
    let ls = vtt_lines(t);
    assert(ls == lines(t));
    lemma_lines_line(Seq::<char>::empty(), blocks);
    assert(seq!['\n'] + blocks =~= Seq::<char>::empty() + seq!['\n'] + blocks);
    let bl = lines(blocks);
    let p = h + seq![Seq::<char>::empty()];
    assert(ls =~= p + bl);
}

/// Serializing a file WebVTT can represent and parsing the text back gives
/// the same cues, and the header without its trailing blank lines.
#[verifier::rlimit(60)]
#[verifier::spinoff_prover]
pub proof fn law_vtt_roundtrip(f: SubFileView)
    requires
        vtt_file_ok(f),
    ensures
        vtt_parse_spec(vtt_text(f)) == f.events,
        vtt_header_spec(vtt_text(f)) == drop_trailing_blank(f.header),
{
    reveal_strlit("-->");
    let h = f.header;
    let evs = f.events;
    let blocks = vtt_blocks(evs);
    let t = vtt_text(f);
    lemma_vtt_text_lines(f);
    lemma_vtt_blocks_shape(evs);
    let ls = vtt_lines(t);
    let bl = lines(blocks);
    let p = h + seq![Seq::<char>::empty()];
    assert(ls =~= p + bl);
    lemma_vtt_events_all(evs, Seq::<Seq<char>>::empty());
    assert(bl + Seq::<Seq<char>>::empty() =~= bl);
    assert(evs + Seq::<EventView>::empty() =~= evs);
    assert(vtt_events(bl, 0) == evs);
    // The first cue line is the first line after the header and its blank.
    assert forall|k: int| 0 <= k < p.len() implies !has_arrow(#[trigger] ls[k]) by {
        if k < h.len() {
            assert(ls[k] == h[k]);
            assert(vtt_line_ok(h[k]));
        } else {
            assert(ls[k] == Seq::<char>::empty());
        }
    }
    if evs.len() > 0 {
        let e = evs[0];
        assert(vtt_event_ok(e));
        lemma_vtt_timing_line(e);
        lemma_vtt_blocks_first(evs);
        assert(ls[p.len() as int] == bl[0]);
        assert(ls[p.len() - 1] == Seq::<char>::empty());
        lemma_blank_empty();
        if e.name.len() > 0 {
            assert(ls[p.len() as int + 1] == bl[1]);
            assert(!has_arrow(e.name));
            lemma_first_cue_after(ls, 0, p.len() as int + 1);
            assert(!is_blank(ls[p.len() as int]));
            assert(p.len() >= 1);
            let k = choose|k: int| 0 <= k < h.len() && !is_blank(#[trigger] h[k]);
            assert(ls[k] == h[k]);
            lemma_first_nb(ls, 0);
            assert(first_nb(ls, 0) <= k);
            assert(cue_start(ls) == p.len());
        } else {
            lemma_first_cue_after(ls, 0, p.len() as int);
            assert(cue_start(ls) == p.len());
        }
    } else {
        assert(blocks =~= Seq::<char>::empty());
        assert(bl =~= Seq::<Seq<char>>::empty());
        lemma_first_cue_after(ls, 0, p.len() as int);
        assert(cue_start(ls) == p.len());
    }
    lemma_vtt_events_shift(p, bl, 0);
    assert(ls.take(p.len() as int) =~= p);
    lemma_blank_empty();
    assert(p.drop_last() =~= h);
}

proof fn lemma_lines_text_first(h: Seq<Seq<char>>)
    requires
        h.len() > 0,
    ensures
        lines_text(h).len() > 0,
        h[0].len() > 0 ==> lines_text(h)[0] == h[0][0],
        h[0].len() == 0 ==> lines_text(h)[0] == '\n',
    decreases h.len(),
{
    reveal_strlit("\n");
    if h.len() == 1 {
        assert(lines_text(h.drop_last()) =~= Seq::<char>::empty());
        assert(lines_text(h) =~= h[0] + seq!['\n']);
    } else {
        lemma_lines_text_first(h.drop_last());
        assert(h.drop_last()[0] == h[0]);
        assert(lines_text(h) == lines_text(h.drop_last()) + h.last() + "\n"@);
    }
}

proof fn lemma_vtt_blocks_first(evs: Seq<EventView>)
    requires
        evs.len() > 0,
        forall|k: int| 0 <= k < evs.len() ==> vtt_event_ok(#[trigger] evs[k]),
    ensures
        lines(vtt_blocks(evs)).len() > 1,
        evs[0].name.len() == 0 ==> lines(vtt_blocks(evs))[0] == vtt_timing_line(evs[0]),
        evs[0].name.len() > 0 ==> lines(vtt_blocks(evs))[0] == evs[0].name && lines(
            vtt_blocks(evs),
        )[1] == vtt_timing_line(evs[0]),
    decreases evs.len(),
{
    assert(vtt_event_ok(evs[0]));
    if evs.len() == 1 {
        assert(vtt_blocks(evs.drop_last()) =~= Seq::<char>::empty());
        assert(vtt_blocks(evs) =~= vtt_block(evs[0]));
        lemma_vtt_block_text(evs[0], Seq::<char>::empty());
        assert(vtt_block(evs[0]) + Seq::<char>::empty() =~= vtt_block(evs[0]));
    } else {
        let pre = evs.drop_last();
        assert forall|k: int| 0 <= k < pre.len() implies vtt_event_ok(#[trigger] pre[k]) by {
            assert(pre[k] == evs[k]);
        }
        assert(pre[0] == evs[0]);
        lemma_vtt_blocks_first(pre);
        lemma_vtt_blocks_shape(pre);
        lemma_lines_append(vtt_blocks(pre), vtt_block(evs.last()));
    }
}

/* ---------- parsed files meet the round-trip conditions ---------- */

proof fn lemma_vtt_time_nonneg(s: Seq<char>)
    ensures
        vtt_time_spec(s) matches Some(v) ==> v >= 0,
{
    let t = trim(s);
    match find_char(t, '.') {
        None => {},
        Some(i) => {
            let ms = trim(t.skip(i + 1));
            if ms.len() == 3 && all_digits(ms) {
                crate::num::lemma_digits_value_nonneg(ms);
            }
        },
    }
}

proof fn lemma_vtt_timing_ok(line: Seq<char>)
    requires
        no_char(line, '\n'),
        no_char(line, '\r'),
    ensures
        vtt_timing_spec(line) matches Some((a, b, st)) ==> {
            &&& 0 <= a <= i64::MAX
            &&& 0 <= b <= i64::MAX
            &&& no_char(st, '\n') && no_char(st, '\r') && trim(st) == st
        },
{
    match find_seq(line, "-->"@) {
        None => {},
        Some(i) => {
            lemma_find_seq(line, "-->"@);
            reveal_strlit("-->");
            let tail = line.skip(i + 3);
            assert forall|k: int| 0 <= k < tail.len() implies tail[k] != '\n' && tail[k] != '\r' by {
                assert(tail[k] == line[k + i + 3]);
            }
            lemma_trim_facts(tail, '\n');
            lemma_trim_facts(tail, '\r');
            let rest = trim(tail);
            lemma_find_ws(rest);
            match find_ws(rest) {
                None => {
                    assert(trim(Seq::<char>::empty()) =~= Seq::<char>::empty());
                },
                Some(k) => {
                    let u = rest.skip(k + 1);
                    assert forall|m: int| 0 <= m < u.len() implies u[m] != '\n' && u[m] != '\r' by {
                        assert(u[m] == rest[m + k + 1]);
                    }
                    lemma_trim_facts(u, '\n');
                    lemma_trim_facts(u, '\r');
                },
            }
            let (b0, st) = match find_ws(rest) {
                None => (rest, Seq::<char>::empty()),
                Some(k) => (rest.take(k), trim(rest.skip(k + 1))),
            };
            lemma_vtt_time_nonneg(line.take(i));
            lemma_vtt_time_nonneg(trim(b0));
        },
    }
}

/// Every cue read from lines without line breaks is one WebVTT carries.
proof fn lemma_vtt_events_ok(ls: Seq<Seq<char>>, i: int)
    requires
        forall|k: int| 0 <= k < ls.len() ==> no_char(#[trigger] ls[k], '\n') && no_char(ls[k], '\r'),
    ensures
        forall|k: int| 0 <= k < vtt_events(ls, i).len() ==> vtt_event_ok(#[trigger] vtt_events(ls, i)[k]),
    decreases ls.len() - i,
{
    reveal_strlit("\n");
    if 0 <= i < ls.len() {
        if is_blank(ls[i]) {
            lemma_vtt_events_ok(ls, i + 1);
            assert(vtt_events(ls, i) == vtt_events(ls, i + 1));
        } else {
            let j = if has_arrow(ls[i]) {
                i
            } else {
                i + 1
            };
            let name = if has_arrow(ls[i]) {
                Seq::<char>::empty()
            } else {
                ls[i]
            };
            if j >= ls.len() {
                assert(vtt_events(ls, i).len() == 0);
            } else {
                if !has_arrow(ls[j]) {
                    lemma_vtt_events_ok(ls, j + 1);
                    assert(vtt_events(ls, i) == vtt_events(ls, j + 1));
                } else {
                    match vtt_timing_spec(ls[j]) {
                        None => {
                            lemma_vtt_events_ok(ls, j + 1);
                            assert(vtt_events(ls, i) == vtt_events(ls, j + 1));
                        },
                        Some((a, b, st)) => {
                            let k = body_end(ls, j + 1);
                            lemma_body_end(ls, j + 1);
                            lemma_vtt_events_ok(ls, k);
                            lemma_vtt_timing_ok(ls[j]);
                            let body = ls.subrange(j + 1, k);
                            let text = join(body, "\n"@);
                            assert("\n"@ =~= seq!['\n']);
                            assert forall|m: int| 0 <= m < body.len() implies no_char(#[trigger] body[m], '\n')
                                && no_char(body[m], '\r') && !is_blank(body[m]) by {
                                assert(body[m] == ls[j + 1 + m]);
                            }
                            assert forall|m: int| 0 <= m < body.len() implies no_char(#[trigger] body[m], '\n') by {}
                            assert forall|m: int| 0 <= m < body.len() implies no_char(#[trigger] body[m], '\r') by {}
                            assert(no_char(seq!['\n'], '\r'));
                            lemma_join_no_char(body, seq!['\n'], '\r');
                            if body.len() > 0 {
                                lemma_split_join(body, '\n');
                            } else {
                                assert(text.len() == 0);
                            }
                            assert(srt_text_ok(text));
                            if name.len() > 0 {
                                assert(vtt_line_ok(name));
                            }
                            let e = vtt_event(name, a, b, st, text);
                            assert(vtt_event_ok(e));
                            let out = vtt_events(ls, i);
                            assert(out == seq![e] + vtt_events(ls, k));
                            assert forall|m: int| 0 <= m < out.len() implies vtt_event_ok(#[trigger] out[m]) by {
                                if m > 0 {
                                    assert(out[m] == vtt_events(ls, k)[m - 1]);
                                }
                            }
                        },
                    }
                }
            }
        }
    }
}

proof fn lemma_drop_trailing_facts(h: Seq<Seq<char>>)
    ensures
        drop_trailing_blank(h).len() <= h.len(),
        drop_trailing_blank(h) == h.take(drop_trailing_blank(h).len() as int),
        drop_trailing_blank(h).len() > 0 ==> !is_blank(drop_trailing_blank(h).last()),
    decreases h.len(),
{
    if h.len() > 0 && is_blank(h.last()) {
        lemma_drop_trailing_facts(h.drop_last());
        let d = drop_trailing_blank(h);
        assert(h.drop_last().take(d.len() as int) =~= h.take(d.len() as int));
    } else {
        assert(h.take(h.len() as int) =~= h);
    }
}

/// The file a successful parse gives.
pub open spec fn vtt_parsed(text: Seq<char>) -> SubFileView {
    SubFileView {
        format: SubFormat::Vtt,
        events: vtt_parse_spec(text),
        header: vtt_header_spec(text),
        ass_columns: standard_columns_spec(),
    }
}

/// What a successful parse gives meets the round-trip conditions, and its
/// header has no trailing blank lines.
pub proof fn lemma_vtt_parsed_ok(text: Seq<char>)
    requires
        vtt_has_header(text),
        vtt_first_line_plain(text),
    ensures
        vtt_file_ok(vtt_parsed(text)),
        drop_trailing_blank(vtt_header_spec(text)) == vtt_header_spec(text),
        first_nb(vtt_lines(text), 0) < vtt_header_spec(text).len(),
{
    reveal_strlit("\r");
    reveal_strlit("\r\n");
    reveal_strlit("\n");
    reveal_strlit("WEBVTT");
    let x = replace_seq(crate::subs::strip_bom(text), "\r\n"@, "\n"@);
    assert("\r"@ =~= seq!['\r']);
    assert(no_char("\n"@, '\r'));
    lemma_replace_char_gone(x, '\r', "\n"@);
    let nt = normalize_newlines(text);
    assert(no_char(nt, '\r'));
    let ls = vtt_lines(text);
    lemma_lines_clean(nt);
    lemma_vtt_events_ok(ls, cue_start(ls));
    lemma_first_cue_line(ls, 0);
    let c = cue_start(ls);
    let h0 = ls.take(c);
    lemma_drop_trailing_facts(h0);
    let h = drop_trailing_blank(h0);
    assert(h == vtt_header_spec(text));
    assert forall|k: int| 0 <= k < h.len() implies vtt_line_ok(#[trigger] h[k]) by {
        assert(h[k] == ls[k]);
        assert(k < first_cue_line(ls, 0));
        lemma_no_arrow_before(ls, 0, k);
    }
    if h.len() > 0 && h[0].len() > 0 {
        assert(h[0] == ls[0]);
        lemma_header_no_bom(ls);
    }
    if h.len() > 0 {
        assert(!is_blank(h.last()));
    }
    assert(drop_trailing_blank(h) == h);
    // The `WEBVTT` line stays in the header.
    let i0 = first_nb(ls, 0);
    lemma_first_nb(ls, 0);
    assert(i0 < first_cue_line(ls, 0)) by {
        if i0 >= first_cue_line(ls, 0) {
            lemma_first_cue_is_arrow(ls, 0);
            lemma_first_nb_blank_before(ls, first_cue_line(ls, 0));
        }
    }
    assert(i0 < c);
    assert(h0[i0] == ls[i0]);
    lemma_drop_trailing_keeps(h0, i0);
    assert(h[i0] == ls[i0]);
    assert(!is_blank(h[i0]));
    assert(vtt_parsed(text).header == h);
    assert(exists|k: int| 0 <= k < h.len() && !is_blank(#[trigger] h[k]));
}

proof fn lemma_first_cue_is_arrow(ls: Seq<Seq<char>>, i: int)
    requires
        0 <= i <= ls.len(),
    ensures
        first_cue_line(ls, i) < ls.len() ==> has_arrow(ls[first_cue_line(ls, i)]),
        forall|m: int| i <= m < first_cue_line(ls, i) ==> !has_arrow(#[trigger] ls[m]),
    decreases ls.len() - i,
{
    if i < ls.len() && !has_arrow(ls[i]) {
        lemma_first_cue_is_arrow(ls, i + 1);
    }
}

/// The first non-blank line, when it holds no `-->`, comes before the
/// first cue line; stated as: any arrow line at or before it is that line.
proof fn lemma_first_nb_blank_before(ls: Seq<Seq<char>>, f: int)
    requires
        0 <= f < ls.len(),
        has_arrow(ls[f]),
    ensures
        !is_blank(ls[f]),
{
    reveal_strlit("-->");
    lemma_find_seq(ls[f], "-->"@);
    let i = find_seq(ls[f], "-->"@)->0;
    assert(ls[f].subrange(i, i + 3) == "-->"@);
    assert(ls[f].subrange(i, i + 3)[0] == ls[f][i]);
    assert("-->"@[0] == '-');
    assert(ls[f][i] == '-');
    assert(!is_ws('-'));
    lemma_not_blank(ls[f], i);
}

proof fn lemma_not_blank(s: Seq<char>, i: int)
    requires
        0 <= i < s.len(),
        !is_ws(s[i]),
    ensures
        !is_blank(s),
    decreases s.len(),
{
    if is_ws(s[0]) {
        assert(i > 0);
        lemma_not_blank(s.drop_first(), i - 1);
        assert(trim_start(s) == trim_start(s.drop_first()));
    } else {
        assert(trim_start(s) == s);
        lemma_trim_end_keeps_first(s);
    }
}

proof fn lemma_drop_trailing_keeps(h: Seq<Seq<char>>, k: int)
    requires
        0 <= k < h.len(),
        !is_blank(h[k]),
    ensures
        k < drop_trailing_blank(h).len(),
        drop_trailing_blank(h)[k] == h[k],
    decreases h.len(),
{
    lemma_drop_trailing_facts(h);
    if is_blank(h.last()) {
        assert(k < h.len() - 1);
        assert(h.drop_last()[k] == h[k]);
        lemma_drop_trailing_keeps(h.drop_last(), k);
    }
}

proof fn lemma_no_arrow_before(ls: Seq<Seq<char>>, i: int, k: int)
    requires
        0 <= i <= k < first_cue_line(ls, i),
        first_cue_line(ls, i) <= ls.len(),
    ensures
        !has_arrow(ls[k]),
    decreases k - i,
{
    if i < k {
        lemma_no_arrow_before(ls, i + 1, k);
    }
}

proof fn lemma_header_no_bom(ls: Seq<Seq<char>>)
    requires
        ls.len() > 0,
        ls[0].len() > 0,
        starts_with(first_nonblank(ls), "WEBVTT"@),
    ensures
        ls[0][0] != '\u{FEFF}',
{
    reveal_strlit("WEBVTT");
    assert(!is_ws('\u{FEFF}'));
    if is_blank(ls[0]) {
        if ls[0][0] == '\u{FEFF}' {
            lemma_trim_start_first(ls[0]);
        }
    } else {
        let t = trim(ls[0]);
        assert(first_nonblank(ls) == t);
        if ls[0][0] == '\u{FEFF}' {
            lemma_trim_start_first(ls[0]);
            assert(t.take(6) == "WEBVTT"@);
            assert(t.take(6)[0] == t[0]);
            assert("WEBVTT"@[0] == 'W');
        }
    }
}

proof fn lemma_trim_start_first(s: Seq<char>)
    requires
        s.len() > 0,
        !is_ws(s[0]),
    ensures
        trim(s).len() > 0,
        trim(s)[0] == s[0],
{
    assert(trim_start(s) == s);
    lemma_trim_end_keeps_first(s);
}

proof fn lemma_trim_end_keeps_first(t: Seq<char>)
    requires
        t.len() > 0,
        !is_ws(t[0]),
    ensures
        trim_end(t).len() > 0,
        trim_end(t)[0] == t[0],
    decreases t.len(),
{
    if is_ws(t.last()) {
        assert(t.len() > 1);
        assert(t.drop_last()[0] == t[0]);
        lemma_trim_end_keeps_first(t.drop_last());
    }
}

/// Writing a parsed WebVTT file and parsing it again succeeds and gives the
/// same cues and the same header, `parse(serialize(parse(t))) == parse(t)`,
/// when the `WEBVTT` line holds no `-->` (such a line reads as a cue).
pub proof fn law_vtt_parsed_roundtrip(text: Seq<char>)
    requires
        vtt_has_header(text),
        vtt_first_line_plain(text),
    ensures
        vtt_has_header(vtt_text(vtt_parsed(text))),
        vtt_parse_spec(vtt_text(vtt_parsed(text))) == vtt_parse_spec(text),
        vtt_header_spec(vtt_text(vtt_parsed(text))) == vtt_header_spec(text),
{
    lemma_vtt_parsed_ok(text);
    law_vtt_roundtrip(vtt_parsed(text));
    // The written text starts, after blank lines, with the same `WEBVTT` line.
    let f = vtt_parsed(text);
    let ls = vtt_lines(text);
    let h = f.header;
    lemma_vtt_text_lines(f);
    let ls2 = vtt_lines(vtt_text(f));
    let i0 = first_nb(ls, 0);
    lemma_first_nb(ls, 0);
    let h0 = ls.take(cue_start(ls));
    lemma_drop_trailing_facts(h0);
    lemma_first_cue_line(ls, 0);
    assert(h == drop_trailing_blank(h0));
    assert(h == h0.take(h.len() as int));
    assert(i0 < h.len());
    assert(h.len() <= h0.len());
    assert forall|k: int| 0 <= k <= i0 implies #[trigger] h[k] == ls[k] by {
        assert(h[k] == h0[k]);
    }
    assert forall|k: int| 0 <= k < i0 implies is_blank(#[trigger] ls2[k]) by {
        assert(ls2[k] == h[k]);
        assert(h[k] == ls[k]);
    }
    assert(ls2[i0] == h[i0]);
    assert(h[i0] == ls[i0]);
    lemma_first_nonblank_at(ls, i0);
    lemma_first_nonblank_at(ls2, i0);
}

proof fn lemma_first_nonblank_at(ls: Seq<Seq<char>>, i: int)
    requires
        0 <= i < ls.len(),
        forall|k: int| 0 <= k < i ==> is_blank(#[trigger] ls[k]),
        !is_blank(ls[i]),
    ensures
        first_nonblank(ls) == trim(ls[i]),
    decreases i,
{
    if i > 0 {
        assert forall|k: int| 0 <= k < i - 1 implies is_blank(#[trigger] ls.drop_first()[k]) by {
            assert(ls.drop_first()[k] == ls[k + 1]);
        }
        assert(is_blank(ls[0]));
        lemma_first_nonblank_at(ls.drop_first(), i - 1);
    }
}

} // verus!
