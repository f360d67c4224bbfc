//! Advanced SubStation Alpha (`.ass`/`.ssa`) parsing and serialization.
use vstd::prelude::*;
use crate::num::{
    all_digits, decimal, digits_value, int_text, is_digit, lemma_decimal_digits, padded,
    parse_i64, parse_i64_spec, push_padded,
};
use crate::subs::{
    events_view, standard_columns, standard_columns_spec, strings_view, strip_bom, Event,
    EventView, ParseError, SubFile, SubFileView, SubFormat,
};
use crate::text::{
    lemma_lines_clean, lemma_lines_crlf, crlf_only, lemma_trim_facts,
    ascii_lower, chars_eq, chars_of, copy_range, eq_ignore_ascii_case, eq_ignore_ascii_case_chars,
    find_char, find_char_from, is_ws, join, lemma_find_char, lemma_find_char_at, lemma_join_cons,
    lemma_lines_append, lemma_lines_line, lines, lines_of, lowercase_spec, no_char, push_all,
    push_str, split_char, split_chars, string_of, strip_cr, to_lowercase, trim, trim_bounds,
    trim_end, trim_start, vecs_view,
};
use crate::subs::srt::lemma_trim_pad_right;
use crate::time::{
    as_i64, ass_time_spec, ass_time_text, clamp_spec, fit, hours_of, millis_of, minutes_of,
    parse_ass_time_chars, push_ass_time, seconds_of,
};

verus! {

/// `str::splitn(n, c)`: at most `n` pieces, the last one holding the rest.
pub open spec fn splitn_spec(s: Seq<char>, n: nat, c: char) -> Seq<Seq<char>>
    decreases n,
{
    if n == 0 {
        seq![]
    } else if n == 1 {
        seq![s]
    } else {
        match find_char(s, c) {
            None => seq![s],
            Some(i) => seq![s.take(i)] + splitn_spec(s.skip(i + 1), (n - 1) as nat, c),
        }
    }
}

/// Index of the first column named `name`.
pub open spec fn col_index(cols: Seq<Seq<char>>, name: Seq<char>) -> Option<int>
    decreases cols.len(),
{
    if cols.len() == 0 {
        None
    } else if cols[0] == name {
        Some(0)
    } else {
        match col_index(cols.drop_first(), name) {
            Some(i) => Some(i + 1),
            None => None,
        }
    }
}

pub proof fn lemma_col_index(cols: Seq<Seq<char>>, name: Seq<char>)
    ensures
        col_index(cols, name) matches Some(i) ==> 0 <= i < cols.len() && cols[i] == name,
        col_index(cols, name) is None ==> forall|k: int| 0 <= k < cols.len() ==> cols[k] != name,
    decreases cols.len(),
{
    if cols.len() > 0 && cols[0] != name {
        lemma_col_index(cols.drop_first(), name);
        assert forall|k: int| 1 <= k < cols.len() implies cols[k] == cols.drop_first()[k - 1] by {}
    }
}

/// The columns named by a `Format:` line: the lower-cased, trimmed names
/// after the first `:`, or the standard order unless both `start` and
/// `text` are among them.
pub open spec fn format_columns_spec(line: Seq<char>) -> Seq<Seq<char>> {
    match find_char(line, ':') {
        None => standard_columns_spec(),
        Some(i) => {
            let cols = split_char(line.skip(i + 1), ',').map_values(
                |c: Seq<char>| lowercase_spec(trim(c)),
            );
            if cols.contains("start"@) && cols.contains("text"@) {
                cols
            } else {
                standard_columns_spec()
            }
        },
    }
}

/// Trimmed field `name` of a split dialogue (empty when no such column).
pub open spec fn dlg_get(cols: Seq<Seq<char>>, parts: Seq<Seq<char>>, name: Seq<char>) -> Seq<char> {
    match col_index(cols, name) {
        Some(i) => trim(parts[i]),
        None => seq![],
    }
}

/// `i32::from_str`.
pub open spec fn parse_i32_spec(s: Seq<char>) -> Option<int> {
    match parse_i64_spec(s) {
        Some(v) => if i32::MIN <= v <= i32::MAX {
            Some(v)
        } else {
            None
        },
        None => None,
    }
}

/// The event a `Dialogue:` line holds under the column order `cols`.
pub open spec fn dialogue_spec(line: Seq<char>, cols: Seq<Seq<char>>) -> Option<EventView> {
    match find_char(line, ':') {
        None => None,
        Some(c) => {
            let parts = splitn_spec(line.skip(c + 1), cols.len(), ',');
            if parts.len() < cols.len() {
                None
            } else {
                let text = match col_index(cols, "text"@) {
                    Some(i) => parts[i],
                    None => seq![],
                };
                match (
                    fit(ass_time_spec(dlg_get(cols, parts, "start"@))),
                    fit(ass_time_spec(dlg_get(cols, parts, "end"@))),
                ) {
                    (Some(a), Some(b)) => Some(
                        EventView {
                            start_ms: a,
                            end_ms: b,
                            style: dlg_get(cols, parts, "style"@),
                            name: dlg_get(cols, parts, "name"@),
                            effect: dlg_get(cols, parts, "effect"@),
                            text,
                            layer: match parse_i32_spec(dlg_get(cols, parts, "layer"@)) {
                                Some(v) => v,
                                None => 0,
                            },
                            margin_l: dlg_get(cols, parts, "marginl"@),
                            margin_r: dlg_get(cols, parts, "marginr"@),
                            margin_v: dlg_get(cols, parts, "marginv"@),
                            extra: seq![],
                        },
                    ),
                    _ => None,
                }
            }
        },
    }
}

/// Parser state while walking the lines of an ASS file.
pub struct AssState {
    pub in_events: bool,
    pub columns: Seq<Seq<char>>,
    pub header: Seq<Seq<char>>,
    pub ass_columns: Seq<Seq<char>>,
    pub events: Seq<EventView>,
}

pub open spec fn is_section(t: Seq<char>) -> bool {
    t.len() > 0 && t[0] == '[' && t.last() == ']'
}

/// The key before the first `:` of a line, trimmed.
pub open spec fn line_key(line: Seq<char>) -> Option<Seq<char>> {
    match find_char(line, ':') {
        None => None,
        Some(i) => Some(trim(line.take(i))),
    }
}

/// One line of an ASS file: section headers toggle the `[Events]` state,
/// `Format:` sets the columns, `Dialogue:` adds an event (or is dropped
/// when malformed); every other line is kept in the header.
pub open spec fn ass_step(st: AssState, raw: Seq<char>) -> AssState {
    let line = strip_cr(raw);
    let t = trim(line);
    if is_section(t) {
        AssState {
            in_events: eq_ignore_ascii_case(t, "[events]"@),
            header: st.header.push(line),
            ..st
        }
    } else if st.in_events && line_key(line) is Some && eq_ignore_ascii_case(
        line_key(line)->0,
        "format"@,
    ) {
        AssState {
            columns: format_columns_spec(line),
            ass_columns: format_columns_spec(line),
            header: st.header.push(line),
            ..st
        }
    } else if st.in_events && line_key(line) is Some && eq_ignore_ascii_case(
        line_key(line)->0,
        "dialogue"@,
    ) {
        match dialogue_spec(line, st.columns) {
            Some(e) => AssState { events: st.events.push(e), ..st },
            None => st,
        }
    } else {
        AssState { header: st.header.push(line), ..st }
    }
}

pub open spec fn ass_run(ls: Seq<Seq<char>>, i: int, st: AssState) -> AssState
    decreases ls.len() - i,
{
    if i < 0 || i >= ls.len() {
        st
    } else {
        ass_run(ls, i + 1, ass_step(st, ls[i]))
    }
}

pub open spec fn ass_initial() -> AssState {
    AssState {
        in_events: false,
        columns: standard_columns_spec(),
        header: seq![],
        ass_columns: standard_columns_spec(),
        events: seq![],
    }
}

/// Final parser state for ASS text.
pub open spec fn ass_parse_spec(text: Seq<char>) -> AssState {
    ass_run(lines(strip_bom(text)), 0, ass_initial())
}

fn splitn_chars(s: &[char], n: usize, c: char) -> (r: Vec<Vec<char>>)
    ensures
        vecs_view(r@) == splitn_spec(s@, n as nat, c),
    decreases n,
{
    if n == 0 {
        let r: Vec<Vec<char>> = Vec::new();
        assert(vecs_view(r@) =~= Seq::<Seq<char>>::empty());
        return r;
    }
    if n == 1 {
        let mut r: Vec<Vec<char>> = Vec::new();
        r.push(copy_range(s, 0, s.len()));
        assert(s@.subrange(0, s@.len() as int) =~= s@);
        assert(vecs_view(r@) =~= seq![s@]);
        return r;
    }
    proof {
        assert(s@.skip(0) =~= s@);
        lemma_find_char(s@, c);
    }
    match find_char_from(s, c, 0) {
        None => {
            let mut r: Vec<Vec<char>> = Vec::new();
            r.push(copy_range(s, 0, s.len()));
            assert(s@.subrange(0, s@.len() as int) =~= s@);
            assert(vecs_view(r@) =~= seq![s@]);
            r
        },
        Some(i) => {
            let head = copy_range(s, 0, i);
            let rest = copy_range(s, i + 1, s.len());
            assert(rest@ =~= s@.skip(i + 1));
            let tail = splitn_chars(&rest, n - 1, c);
            let mut r: Vec<Vec<char>> = Vec::new();
            r.push(head);
            let mut k: usize = 0;
            while k < tail.len()
                invariant
                    k <= tail@.len(),
                    vecs_view(r@) == seq![s@.take(i as int)] + vecs_view(tail@).take(k as int),
                decreases tail@.len() - k,
            {
                let ghost before = r@;
                let piece = copy_range(&tail[k], 0, tail[k].len());
                assert(piece@ =~= tail@[k as int]@);
                r.push(piece);
                assert(vecs_view(r@) =~= vecs_view(before).push(tail@[k as int]@));
                assert(vecs_view(tail@).take(k + 1) =~= vecs_view(tail@).take(k as int).push(
                    tail@[k as int]@,
                ));
                assert(vecs_view(r@) =~= seq![s@.take(i as int)] + vecs_view(tail@).take(k + 1));
                k = k + 1;
            }
            assert(vecs_view(tail@).take(tail@.len() as int) =~= vecs_view(tail@));
            r
        },
    }
}

fn col_index_exec(cols: &Vec<Vec<char>>, name: &[char]) -> (r: Option<usize>)
    ensures
        r matches Some(i) ==> col_index(vecs_view(cols@), name@) == Some(i as int) && i < cols@.len(),
        r is None ==> col_index(vecs_view(cols@), name@) is None,
{
    proof {
        lemma_col_index(vecs_view(cols@), name@);
    }
    let mut i: usize = 0;
    while i < cols.len()
        invariant
            i <= cols@.len(),
            forall|k: int| 0 <= k < i ==> vecs_view(cols@)[k] != name@,
        decreases cols@.len() - i,
    {
        if chars_eq(&cols[i], name) {
            proof {
                lemma_col_index_first(vecs_view(cols@), name@, i as int);
            }
            return Some(i);
        }
        i = i + 1;
    }
    proof {
        lemma_col_index_first_none(vecs_view(cols@), name@);
    }
    None
}

proof fn lemma_col_index_first(cols: Seq<Seq<char>>, name: Seq<char>, i: int)
    requires
        0 <= i < cols.len(),
        cols[i] == name,
        forall|k: int| 0 <= k < i ==> cols[k] != name,
    ensures
        col_index(cols, name) == Some(i),
    decreases i,
{
    if i > 0 {
        lemma_col_index_first(cols.drop_first(), name, i - 1);
    }
}

proof fn lemma_col_index_first_none(cols: Seq<Seq<char>>, name: Seq<char>)
    requires
        forall|k: int| 0 <= k < cols.len() ==> cols[k] != name,
    ensures
        col_index(cols, name) is None,
    decreases cols.len(),
{
    if cols.len() > 0 {
        lemma_col_index_first_none(cols.drop_first(), name);
    }
}

/// Trimmed field `name`, or empty.
fn field_get(cols: &Vec<Vec<char>>, parts: &Vec<Vec<char>>, name: &str) -> (r: Vec<char>)
    requires
        parts@.len() >= cols@.len(),
    ensures
        r@ == dlg_get(vecs_view(cols@), vecs_view(parts@), name@),
{
    let nm = chars_of(name);
    proof {
        lemma_col_index(vecs_view(cols@), nm@);
    }
    assert(nm@ == name@);
    match col_index_exec(cols, &nm) {
        Some(i) => {
            assert(vecs_view(parts@)[i as int] == parts@[i as int]@);
            let (a, b) = trim_bounds(&parts[i]);
            let r = copy_range(&parts[i], a, b);
            assert(r@ == trim(vecs_view(parts@)[i as int]));
            assert(col_index(vecs_view(cols@), name@) == Some(i as int));
            r
        },
        None => {
            let r: Vec<char> = Vec::new();
            assert(r@ =~= Seq::<char>::empty());
            r
        },
    }
}

fn parse_dialogue(line: &[char], cols: &Vec<Vec<char>>) -> (r: Option<Event>)
    ensures
        match dialogue_spec(line@, vecs_view(cols@)) {
            Some(e) => r matches Some(x) && x@ == e,
            None => r is None,
        },
{
    proof {
        assert(line@.skip(0) =~= line@);
        lemma_find_char(line@, ':');
    }
    let c = match find_char_from(line, ':', 0) {
        None => return None,
        Some(c) => c,
    };
    let body = copy_range(line, c + 1, line.len());
    assert(body@ =~= line@.skip(c + 1));
    let parts = splitn_chars(&body, cols.len(), ',');
    if parts.len() < cols.len() {
        return None;
    }
    let text_name = chars_of("text");
    proof {
        lemma_col_index(vecs_view(cols@), text_name@);
    }
    let text = match col_index_exec(cols, &text_name) {
        Some(i) => copy_range(&parts[i], 0, parts[i].len()),
        None => Vec::new(),
    };
    proof {
        match col_index(vecs_view(cols@), "text"@) {
            Some(i) => {
                assert(parts@[i]@.subrange(0, parts@[i]@.len() as int) =~= parts@[i]@);
            },
            None => {},
        }
    }
    let start_t = field_get(cols, &parts, "start");
    let end_t = field_get(cols, &parts, "end");
    let start = match parse_ass_time_chars(&start_t) {
        None => return None,
        Some(x) => x,
    };
    let end = match parse_ass_time_chars(&end_t) {
        None => return None,
        Some(x) => x,
    };
    let layer_t = field_get(cols, &parts, "layer");
    let layer: i32 = match parse_i64(&layer_t) {
        Some(v) => if -2147483648 <= v && v <= 2147483647 {
            v as i32
        } else {
            0
        },
        None => 0,
    };
    let style = string_of(&field_get(cols, &parts, "style"));
    let name = string_of(&field_get(cols, &parts, "name"));
    let effect = string_of(&field_get(cols, &parts, "effect"));
    let ml = string_of(&field_get(cols, &parts, "marginl"));
    let mr = string_of(&field_get(cols, &parts, "marginr"));
    let mv = string_of(&field_get(cols, &parts, "marginv"));
    Some(
        Event {
            start_ms: start,
            end_ms: end,
            style,
            name,
            effect,
            text: string_of(&text),
            layer,
            margins: [ml, mr, mv],
            extra: String::new(),
        },
    )
}

fn standard_column_chars() -> (r: Vec<Vec<char>>)
    ensures
        vecs_view(r@) == standard_columns_spec(),
{
    let r = vec![
        chars_of("layer"),
        chars_of("start"),
        chars_of("end"),
        chars_of("style"),
        chars_of("name"),
        chars_of("marginl"),
        chars_of("marginr"),
        chars_of("marginv"),
        chars_of("effect"),
        chars_of("text"),
    ];
    assert(vecs_view(r@) =~= standard_columns_spec());
    r
}

fn contains_col(cols: &Vec<Vec<char>>, name: &str) -> (b: bool)
    ensures
        b == vecs_view(cols@).contains(name@),
{
    let nm = chars_of(name);
    let mut i: usize = 0;
    while i < cols.len()
        invariant
            i <= cols@.len(),
            nm@ == name@,
            forall|k: int| 0 <= k < i ==> vecs_view(cols@)[k] != name@,
        decreases cols@.len() - i,
    {
        if chars_eq(&cols[i], &nm) {
            assert(vecs_view(cols@)[i as int] == name@);
            return true;
        }
        i = i + 1;
    }
    false
}

fn parse_format_columns(line: &[char]) -> (r: Vec<Vec<char>>)
    ensures
        vecs_view(r@) == format_columns_spec(line@),
{
    proof {
        assert(line@.skip(0) =~= line@);
        lemma_find_char(line@, ':');
    }
    match find_char_from(line, ':', 0) {
        None => standard_column_chars(),
        Some(i) => {
            let rest = copy_range(line, i + 1, line.len());
            assert(rest@ =~= line@.skip(i + 1));
            let pieces = split_chars(&rest, ',');
            let mut cols: Vec<Vec<char>> = Vec::new();
            let mut k: usize = 0;
            while k < pieces.len()
                invariant
                    k <= pieces@.len(),
                    vecs_view(cols@) == vecs_view(pieces@).take(k as int).map_values(
                        |c: Seq<char>| lowercase_spec(trim(c)),
                    ),
                decreases pieces@.len() - k,
            {
                let (a, b) = trim_bounds(&pieces[k]);
                let t = copy_range(&pieces[k], a, b);
                let low = to_lowercase(&t);
                let ghost before = cols@;
                cols.push(low);
                assert(vecs_view(pieces@).take(k + 1) =~= vecs_view(pieces@).take(k as int).push(
                    pieces@[k as int]@,
                ));
                assert(vecs_view(cols@) =~= vecs_view(before).push(low@));
                assert(vecs_view(cols@) =~= vecs_view(pieces@).take(k + 1).map_values(
                    |c: Seq<char>| lowercase_spec(trim(c)),
                ));
                k = k + 1;
            }
            assert(vecs_view(pieces@).take(pieces@.len() as int) =~= vecs_view(pieces@));
            if contains_col(&cols, "start") && contains_col(&cols, "text") {
                cols
            } else {
                standard_column_chars()
            }
        },
    }
}

fn strip_cr_chars(l: &[char]) -> (r: Vec<char>)
    ensures
        r@ == strip_cr(l@),
{
    if l.len() > 0 && l[l.len() - 1] == '\r' {
        copy_range(l, 0, l.len() - 1)
    } else {
        copy_range(l, 0, l.len())
    }
}

fn strings_of(v: &Vec<Vec<char>>) -> (r: Vec<String>)
    ensures
        strings_view(r@) == vecs_view(v@),
{
    let mut r: Vec<String> = Vec::new();
    let mut k: usize = 0;
    while k < v.len()
        invariant
            k <= v@.len(),
            strings_view(r@) == vecs_view(v@).take(k as int),
        decreases v@.len() - k,
    {
        let ghost before = r@;
        r.push(string_of(&v[k]));
        assert(strings_view(r@) =~= strings_view(before).push(v@[k as int]@));
        assert(vecs_view(v@).take(k + 1) =~= vecs_view(v@).take(k as int).push(v@[k as int]@));
        k = k + 1;
    }
    assert(vecs_view(v@).take(v@.len() as int) =~= vecs_view(v@));
    r
}

pub open spec fn state_of(in_events: bool, columns: Seq<Seq<char>>, f: SubFile) -> AssState {
    AssState {
        in_events,
        columns,
        header: strings_view(f.header@),
        ass_columns: strings_view(f.ass_columns@),
        events: events_view(f.events@),
    }
}

fn key_is(line: &[char], word: &str) -> (b: bool)
    ensures
        b == (line_key(line@) is Some && eq_ignore_ascii_case(line_key(line@)->0, word@)),
{
    proof {
        assert(line@.skip(0) =~= line@);
        lemma_find_char(line@, ':');
    }
    match find_char_from(line, ':', 0) {
        None => false,
        Some(i) => {
            let head = copy_range(line, 0, i);
            assert(head@ =~= line@.take(i as int));
            let (a, b) = trim_bounds(&head);
            let key = copy_range(&head, a, b);
            let w = chars_of(word);
            eq_ignore_ascii_case_chars(&key, &w)
        },
    }
}

/// Parses ASS/SSA. The `Format:` column order is honored, so files with
/// reordered columns still parse. Every non-Dialogue line (including the
/// `Format:` line and `Comment:` lines) is preserved verbatim in `header`.
pub fn parse(text: &str) -> (r: Result<SubFile, ParseError>)
    ensures
        r is Ok <==> ass_parse_spec(text@).events.len() > 0,
        r matches Ok(f) ==> {
            &&& f@.format == SubFormat::Ass
            &&& f@.events == ass_parse_spec(text@).events
            &&& f@.header == ass_parse_spec(text@).header
            &&& f@.ass_columns == ass_parse_spec(text@).ass_columns
        },
        r matches Err(e) ==> e == ParseError::NoAssDialogues,
{
    let raw = chars_of(text);
    let start: usize = if raw.len() > 0 && raw[0] == '\u{FEFF}' {
        1
    } else {
        0
    };
    let body = copy_range(&raw, start, raw.len());
    assert(body@ =~= strip_bom(text@));
    let ls = lines_of(&body);
    let ghost lsv = vecs_view(ls@);
    let mut file = SubFile::new(SubFormat::Ass);
    let mut columns = standard_column_chars();
    let mut in_events = false;
    let events_tag = chars_of("[events]");
    let n = ls.len();
    assert(strings_view(file.header@) =~= Seq::<Seq<char>>::empty());
    assert(events_view(file.events@) =~= Seq::<EventView>::empty());
    assert(state_of(in_events, vecs_view(columns@), file) == ass_initial());
    let mut i: usize = 0;
    while i < n
        invariant
            i <= n == lsv.len(),
            lsv == vecs_view(ls@),
            events_tag@ == "[events]"@,
            file@.format == SubFormat::Ass,
            ass_run(lsv, i as int, state_of(in_events, vecs_view(columns@), file)) == ass_run(
                lsv,
                0,
                ass_initial(),
            ),
        decreases n - i,
    {
        let ghost st = state_of(in_events, vecs_view(columns@), file);
        assert(ls@[i as int]@ == lsv[i as int]);
        let line = strip_cr_chars(&ls[i]);
        let (a, b) = trim_bounds(&line);
        let t = copy_range(&line, a, b);
        let is_sec = t.len() > 0 && t[0] == '[' && t[t.len() - 1] == ']';
        assert(is_sec == is_section(t@));
        if is_sec {
            in_events = eq_ignore_ascii_case_chars(&t, &events_tag);
            let ghost hb = file.header@;
            file.header.push(string_of(&line));
            assert(strings_view(file.header@) =~= strings_view(hb).push(line@));
        } else if in_events && key_is(&line, "format") {
            columns = parse_format_columns(&line);
            file.ass_columns = strings_of(&columns);
            let ghost hb = file.header@;
            file.header.push(string_of(&line));
            assert(strings_view(file.header@) =~= strings_view(hb).push(line@));
        } else if in_events && key_is(&line, "dialogue") {
            match parse_dialogue(&line, &columns) {
                Some(ev) => {
                    let ghost eb = file.events@;
                    file.events.push(ev);
                    assert(events_view(file.events@) =~= events_view(eb).push(ev@));
                },
                None => {},
            }
        } else {
            let ghost hb = file.header@;
            file.header.push(string_of(&line));
            assert(strings_view(file.header@) =~= strings_view(hb).push(line@));
        }
        assert(state_of(in_events, vecs_view(columns@), file) == ass_step(st, lsv[i as int]));
        i = i + 1;
    }
    if file.events.len() == 0 {
        return Err(ParseError::NoAssDialogues);
    }
    Ok(file)
}

/// The text of column `col` for event `e` (empty for an unknown column).
pub open spec fn field_spec(e: EventView, col: Seq<char>) -> Seq<char> {
    if col == "layer"@ {
        int_text(e.layer)
    } else if col == "start"@ {
        ass_time_text(e.start_ms)
    } else if col == "end"@ {
        ass_time_text(e.end_ms)
    } else if col == "style"@ {
        e.style
    } else if col == "name"@ {
        e.name
    } else if col == "marginl"@ {
        e.margin_l
    } else if col == "marginr"@ {
        e.margin_r
    } else if col == "marginv"@ {
        e.margin_v
    } else if col == "effect"@ {
        e.effect
    } else if col == "text"@ {
        e.text
    } else {
        seq![]
    }
}

/// `Dialogue: ` line of `e` in the column order `cols`.
pub open spec fn dialogue_line(e: EventView, cols: Seq<Seq<char>>) -> Seq<char> {
    "Dialogue: "@ + join(cols.map_values(|c: Seq<char>| field_spec(e, c)), ","@) + "\n"@
}

/// Each line followed by a newline.
pub open spec fn header_text(h: Seq<Seq<char>>) -> Seq<char>
    decreases h.len(),
{
    if h.len() == 0 {
        seq![]
    } else {
        header_text(h.drop_last()) + h.last() + "\n"@
    }
}

pub open spec fn dialogues_text(evs: Seq<EventView>, cols: Seq<Seq<char>>) -> Seq<char>
    decreases evs.len(),
{
    if evs.len() == 0 {
        seq![]
    } else {
        dialogues_text(evs.drop_last(), cols) + dialogue_line(evs.last(), cols)
    }
}

/// ASS text of a file: the preserved header, then one `Dialogue:` line
/// per event in the file's own column order.
pub open spec fn ass_text(f: SubFileView) -> Seq<char> {
    header_text(f.header) + dialogues_text(f.events, f.ass_columns)
}

fn push_field(out: &mut Vec<char>, e: &Event, col: &String)
    ensures
        final(out)@ == old(out)@ + field_spec(e@, col@),
{
    let c = col.as_str();
    let cv = chars_of(c);
    if chars_eq(&cv, &chars_of("layer")) {
        if e.layer < 0 {
            out.push('-');
            push_padded(out, (-(e.layer as i64)) as u64, 0);
        } else {
            push_padded(out, e.layer as u64, 0);
        }
        proof {
            crate::num::lemma_padded((if e.layer < 0 { -e.layer } else { e.layer as int }) as nat, 0);
        }
        assert(out@ =~= old(out)@ + int_text(e.layer as int));
    } else if chars_eq(&cv, &chars_of("start")) {
        push_ass_time(out, e.start_ms);
    } else if chars_eq(&cv, &chars_of("end")) {
        push_ass_time(out, e.end_ms);
    } else if chars_eq(&cv, &chars_of("style")) {
        push_str(out, e.style.as_str());
    } else if chars_eq(&cv, &chars_of("name")) {
        push_str(out, e.name.as_str());
    } else if chars_eq(&cv, &chars_of("marginl")) {
        push_str(out, e.margins[0].as_str());
    } else if chars_eq(&cv, &chars_of("marginr")) {
        push_str(out, e.margins[1].as_str());
    } else if chars_eq(&cv, &chars_of("marginv")) {
        push_str(out, e.margins[2].as_str());
    } else if chars_eq(&cv, &chars_of("effect")) {
        push_str(out, e.effect.as_str());
    } else if chars_eq(&cv, &chars_of("text")) {
        push_str(out, e.text.as_str());
    } else {
        assert(out@ =~= old(out)@ + Seq::<char>::empty());
    }
}

fn push_dialogue(out: &mut Vec<char>, e: &Event, cols: &Vec<String>)
    ensures
        final(out)@ == old(out)@ + dialogue_line(e@, strings_view(cols@)),
{
    let ghost fields = strings_view(cols@).map_values(|c: Seq<char>| field_spec(e@, c));
    let mut line: Vec<char> = Vec::new();
    push_str(&mut line, "Dialogue: ");
    let ghost prefix = line@;
    let mut k: usize = 0;
    while k < cols.len()
        invariant
            k <= cols@.len(),
            prefix == "Dialogue: "@,
            fields == strings_view(cols@).map_values(|c: Seq<char>| field_spec(e@, c)),
            line@ == prefix + join(fields.take(k as int), ","@),
        decreases cols@.len() - k,
    {
        let ghost pre = fields.take(k as int);
        let ghost post = fields.take(k + 1);
        assert(post.drop_last() =~= pre);
        assert(post.last() == field_spec(e@, cols@[k as int]@));
        if k > 0 {
            push_str(&mut line, ",");
        } else {
            assert(pre.len() == 0);
        }
        push_field(&mut line, e, &cols[k]);
        assert(line@ =~= prefix + join(post, ","@));
        k = k + 1;
    }
    assert(fields.take(cols@.len() as int) =~= fields);
    push_str(&mut line, "\n");
    push_all(out, &line);
}

/// Serializes back to ASS: preserved header lines plus rebuilt Dialogue
/// lines emitted in the file's own column order.
pub fn serialize(file: &SubFile) -> (r: String)
    ensures
        r@ == ass_text(file@),
{
    let mut out: Vec<char> = Vec::new();
    let mut k: usize = 0;
    while k < file.header.len()
        invariant
            k <= file.header@.len(),
            out@ == header_text(strings_view(file.header@).take(k as int)),
        decreases file.header@.len() - k,
    {
        let ghost post = strings_view(file.header@).take(k + 1);
        assert(post.drop_last() =~= strings_view(file.header@).take(k as int));
        push_str(&mut out, file.header[k].as_str());
        push_str(&mut out, "\n");
        assert(out@ =~= header_text(post));
        k = k + 1;
    }
    assert(strings_view(file.header@).take(k as int) =~= strings_view(file.header@));
    let ghost head = out@;
    let mut j: usize = 0;
    while j < file.events.len()
        invariant
            j <= file.events@.len(),
            head == header_text(file@.header),
            out@ == head + dialogues_text(events_view(file.events@).take(j as int), file@.ass_columns),
        decreases file.events@.len() - j,
    {
        let ghost post = events_view(file.events@).take(j + 1);
        assert(post.drop_last() =~= events_view(file.events@).take(j as int));
        assert(post.last() == file.events@[j as int]@);
        push_dialogue(&mut out, &file.events[j], &file.ass_columns);
        assert(out@ =~= head + dialogues_text(post, file@.ass_columns));
        j = j + 1;
    }
    assert(events_view(file.events@).take(j as int) =~= events_view(file.events@));
    string_of(&out)
}

/* ---------- round trip: serialize then parse gives the file back ---------- */

/// A line kept as one line: no line breaks.
pub open spec fn ass_line_ok(l: Seq<char>) -> bool {
    no_char(l, '\n') && no_char(l, '\r')
}

/// The header, read on its own, gives itself back, no events, and leaves
/// the `[Events]` section open with the columns `cols`.
pub open spec fn ass_header_reads_back(h: Seq<Seq<char>>, cols: Seq<Seq<char>>) -> bool {
    let st = ass_run(h, 0, ass_initial());
    &&& st.in_events
    &&& st.columns == cols
    &&& st.ass_columns == cols
    &&& st.header == h
    &&& st.events.len() == 0
}

/// A trimmed field whose column is present unless the field is empty.
pub open spec fn field_kept(cols: Seq<Seq<char>>, name: Seq<char>, v: Seq<char>) -> bool {
    trim(v) == v && (col_index(cols, name) is None ==> v.len() == 0)
}

/// The fields of `e` in the column order `cols`.
pub open spec fn fields_of(e: EventView, cols: Seq<Seq<char>>) -> Seq<Seq<char>> {
    cols.map_values(|c: Seq<char>| field_spec(e, c))
}

/// An event a `Dialogue:` line in the order `cols` carries exactly:
/// start and end columns present, times non-negative whole centiseconds,
/// trimmed fields whose columns exist, text not in the first column, no
/// line breaks, and commas only in the last field.
pub open spec fn ass_event_ok(e: EventView, cols: Seq<Seq<char>>) -> bool {
    &&& col_index(cols, "start"@) is Some
    &&& col_index(cols, "end"@) is Some
    &&& 0 <= e.start_ms <= i64::MAX && e.start_ms % 10 == 0
    &&& 0 <= e.end_ms <= i64::MAX && e.end_ms % 10 == 0
    &&& i32::MIN <= e.layer <= i32::MAX
    &&& (col_index(cols, "layer"@) is None ==> e.layer == 0)
    &&& field_kept(cols, "style"@, e.style)
    &&& field_kept(cols, "name"@, e.name)
    &&& field_kept(cols, "effect"@, e.effect)
    &&& field_kept(cols, "marginl"@, e.margin_l)
    &&& field_kept(cols, "marginr"@, e.margin_r)
    &&& field_kept(cols, "marginv"@, e.margin_v)
    &&& (col_index(cols, "text"@) is None ==> e.text.len() == 0)
    &&& col_index(cols, "text"@) != Some(0int)
    &&& e.extra.len() == 0
    &&& forall|k: int|
        0 <= k < cols.len() ==> ass_line_ok(#[trigger] fields_of(e, cols)[k])
    &&& forall|k: int|
        0 <= k < cols.len() - 1 ==> no_char(#[trigger] fields_of(e, cols)[k], ',')
}

/// A file whose ASS text parses back to it.
pub open spec fn ass_file_ok(f: SubFileView) -> bool {
    &&& forall|k: int| 0 <= k < f.header.len() ==> ass_line_ok(#[trigger] f.header[k])
    &&& (f.header.len() > 0 && f.header[0].len() > 0 ==> f.header[0][0] != '\u{FEFF}')
    &&& ass_header_reads_back(f.header, f.ass_columns)
    &&& forall|k: int| 0 <= k < f.events.len() ==> ass_event_ok(#[trigger] f.events[k], f.ass_columns)
}

proof fn lemma_ass_run_concat(p: Seq<Seq<char>>, r: Seq<Seq<char>>, i: int, st: AssState)
    requires
        0 <= i <= p.len(),
    ensures
        ass_run(p + r, i, st) == ass_run(r, 0, ass_run(p, i, st)),
    decreases p.len() - i,
{
    if i < p.len() {
        assert((p + r)[i] == p[i]);
        lemma_ass_run_concat(p, r, i + 1, ass_step(st, p[i]));
    } else {
        lemma_ass_run_shift(p, r, 0, st);
    }
}

proof fn lemma_ass_run_shift(p: Seq<Seq<char>>, r: Seq<Seq<char>>, i: int, st: AssState)
    requires
        0 <= i,
    ensures
        ass_run(p + r, p.len() + i, st) == ass_run(r, i, st),
    decreases r.len() - i,
{
    if i < r.len() {
        assert((p + r)[p.len() + i] == r[i]);
        lemma_ass_run_shift(p, r, i + 1, ass_step(st, r[i]));
    }
}

pub open spec fn ass_time_char(c: char) -> bool {
    is_digit(c) || c == ':' || c == '.'
}

#[verifier::spinoff_prover]
#[verifier::rlimit(40)]
proof fn lemma_ass_time_text(ms: int)
    requires
        0 <= ms <= i64::MAX,
        ms % 10 == 0,
    ensures
        fit(ass_time_spec(trim(ass_time_text(ms)))) == Some(ms),
        fit(ass_time_spec(trim(seq![' '] + ass_time_text(ms)))) == Some(ms),
        ass_line_ok(ass_time_text(ms)),
        no_char(ass_time_text(ms), ','),
{
    crate::time::law_ass_time_roundtrip(ms);
    let hp = padded(hours_of(ms), 0);
    let mp = padded(minutes_of(ms), 2);
    let sp = padded(seconds_of(ms), 2);
    let cp = padded(millis_of(ms) / 10, 2);
    crate::num::lemma_padded(hours_of(ms), 0);
    crate::num::lemma_padded(minutes_of(ms), 2);
    crate::num::lemma_padded(seconds_of(ms), 2);
    crate::num::lemma_padded(millis_of(ms) / 10, 2);
    let t = ass_time_text(ms);
    assert(t =~= hp + seq![':'] + mp + seq![':'] + sp + seq!['.'] + cp);
    assert forall|k: int| 0 <= k < t.len() implies ass_time_char(#[trigger] t[k]) by {
        let a = hp.len() as int;
        let b = a + 1 + mp.len();
        let c = b + 1 + sp.len();
        if k < a {
            assert(t[k] == hp[k]);
        } else if k == a {
        } else if k < b {
            assert(t[k] == mp[k - a - 1]);
        } else if k == b {
        } else if k < c {
            assert(t[k] == sp[k - b - 1]);
        } else if k == c {
        } else {
            assert(t[k] == cp[k - c - 1]);
        }
    }
    assert(t[0] == hp[0]);
    assert(t.last() == cp.last());
    assert(is_digit(t[0]) && is_digit(t.last()));
    lemma_trim_pad_right(t);
    assert(trim(seq![' '] + t) == t);
    assert(clamp_spec(ms) / 10 * 10 == ms);
}

#[verifier::spinoff_prover]
proof fn lemma_int_text(v: int)
    requires
        i32::MIN <= v <= i32::MAX,
    ensures
        parse_i32_spec(trim(int_text(v))) == Some(v),
        parse_i32_spec(trim(seq![' '] + int_text(v))) == Some(v),
        ass_line_ok(int_text(v)),
        no_char(int_text(v), ','),
{
    let n: nat = if v < 0 {
        (-v) as nat
    } else {
        v as nat
    };
    lemma_decimal_digits(n);
    let d = decimal(n);
    let t = int_text(v);
    assert(is_digit(d[0]) && is_digit(d.last()));
    if v < 0 {
        assert(t =~= seq!['-'] + d);
        assert(t.drop_first() =~= d);
        assert forall|k: int| 0 <= k < t.len() implies t[k] != '\n' && t[k] != '\r' && t[k] != ',' by {
            if k > 0 {
                assert(t[k] == d[k - 1]);
                assert(is_digit(d[k - 1]));
            }
        }
        assert(t.last() == d.last());
    } else {
        assert(t == d);
        assert forall|k: int| 0 <= k < t.len() implies t[k] != '\n' && t[k] != '\r' && t[k] != ',' by {
            assert(is_digit(d[k]));
        }
    }
    assert(!is_ws(t[0]));
    assert(!is_ws(t.last()));
    lemma_trim_pad_right(t);
    assert(trim(seq![' '] + t) == t);
}

/// Splitting a joined list at the separator gives the list back when only
/// its last item may hold the separator.
proof fn lemma_splitn_join(fs: Seq<Seq<char>>, c: char)
    requires
        fs.len() >= 1,
        forall|k: int| 0 <= k < fs.len() - 1 ==> no_char(#[trigger] fs[k], c),
    ensures
        splitn_spec(join(fs, seq![c]), fs.len(), c) == fs,
    decreases fs.len(),
{
    if fs.len() == 1 {
        assert(join(fs, seq![c]) == fs[0]);
        assert(seq![fs[0]] =~= fs);
    } else {
        let x = fs[0];
        let rest = fs.drop_first();
        assert(fs =~= seq![x] + rest);
        lemma_join_cons(x, rest, seq![c]);
        let s = join(fs, seq![c]);
        assert(s == x + seq![c] + join(rest, seq![c]));
        assert(no_char(fs[0], c));
        assert forall|k: int| 0 <= k < x.len() implies s[k] != c by {
            assert(s[k] == x[k]);
        }
        assert(s[x.len() as int] == c);
        lemma_find_char_at(s, c, x.len() as int);
        assert(s.take(x.len() as int) =~= x);
        assert(s.skip(x.len() as int + 1) =~= join(rest, seq![c]));
        assert forall|k: int| 0 <= k < rest.len() - 1 implies no_char(#[trigger] rest[k], c) by {
            assert(rest[k] == fs[k + 1]);
        }
        lemma_splitn_join(rest, c);
        assert(splitn_spec(s, fs.len(), c) =~= seq![x] + rest);
    }
}

proof fn lemma_join_prepend(fs: Seq<Seq<char>>, x: Seq<char>, sep: Seq<char>)
    requires
        fs.len() >= 1,
    ensures
        join(fs.update(0, x + fs[0]), sep) == x + join(fs, sep),
    decreases fs.len(),
{
    let g = fs.update(0, x + fs[0]);
    if fs.len() == 1 {
        assert(join(g, sep) == g[0]);
        assert(join(fs, sep) == fs[0]);
    } else {
        assert(g.drop_last() =~= fs.drop_last().update(0, x + fs.drop_last()[0]));
        lemma_join_prepend(fs.drop_last(), x, sep);
        assert(join(g, sep) == join(g.drop_last(), sep) + sep + g.last());
        assert(join(fs, sep) == join(fs.drop_last(), sep) + sep + fs.last());
        assert(join(g, sep) =~= x + join(fs, sep));
    }
}

/// A `Dialogue:` line without its line break.
pub open spec fn dialogue_body(e: EventView, cols: Seq<Seq<char>>) -> Seq<char> {
    "Dialogue: "@ + join(fields_of(e, cols), ","@)
}

proof fn lemma_dlg_get(e: EventView, cols: Seq<Seq<char>>, parts: Seq<Seq<char>>, name: Seq<char>)
    requires
        parts.len() == cols.len(),
        cols.len() >= 1,
        parts[0] == seq![' '] + fields_of(e, cols)[0],
        forall|k: int| 1 <= k < cols.len() ==> parts[k] == fields_of(e, cols)[k],
    ensures
        col_index(cols, name) matches Some(i) ==> (dlg_get(cols, parts, name) == trim(field_spec(e, name))
            || (i == 0 && dlg_get(cols, parts, name) == trim(seq![' '] + field_spec(e, name)))),
        col_index(cols, name) matches Some(i) ==> i > 0 ==> dlg_get(cols, parts, name) == trim(field_spec(e, name)),
        col_index(cols, name) matches Some(i) ==> i == 0 ==> dlg_get(cols, parts, name) == trim(seq![' '] + field_spec(e, name)),
        col_index(cols, name) is None ==> dlg_get(cols, parts, name) == Seq::<char>::empty(),
{
    lemma_col_index(cols, name);
    match col_index(cols, name) {
        Some(i) => {
            assert(cols[i] == name);
            assert(fields_of(e, cols)[i] == field_spec(e, name));
        },
        None => {},
    }
}

proof fn lemma_trim_space_prefix(x: Seq<char>)
    requires
        trim(x) == x,
    ensures
        trim(seq![' '] + x) == x,
{
    let s = seq![' '] + x;
    assert(s.drop_first() =~= x);
    assert(trim_start(s) == trim_start(x));
}

/// The pieces a `Dialogue:` line splits into: the fields, the first one
/// behind the space that follows the colon.
pub open spec fn parts_of(e: EventView, cols: Seq<Seq<char>>) -> Seq<Seq<char>> {
    fields_of(e, cols).update(0, seq![' '] + fields_of(e, cols)[0])
}

proof fn lemma_field_specs(e: EventView)
    ensures
        field_spec(e, "layer"@) == int_text(e.layer),
        field_spec(e, "start"@) == ass_time_text(e.start_ms),
        field_spec(e, "end"@) == ass_time_text(e.end_ms),
        field_spec(e, "style"@) == e.style,
        field_spec(e, "name"@) == e.name,
        field_spec(e, "marginl"@) == e.margin_l,
        field_spec(e, "marginr"@) == e.margin_r,
        field_spec(e, "marginv"@) == e.margin_v,
        field_spec(e, "effect"@) == e.effect,
        field_spec(e, "text"@) == e.text,
{
    reveal_strlit("start");
    reveal_strlit("end");
    reveal_strlit("style");
    reveal_strlit("name");
    reveal_strlit("effect");
    reveal_strlit("layer");
    reveal_strlit("marginl");
    reveal_strlit("marginr");
    reveal_strlit("marginv");
    reveal_strlit("text");
    assert("start"@[0] != "layer"@[0]);
    assert("end"@[0] != "layer"@[0] && "end"@[0] != "start"@[0]);
    assert("style"@[0] != "layer"@[0] && "style"@[2] != "start"@[2] && "style"@[0] != "end"@[0]);
    assert("name"@[0] != "layer"@[0] && "name"@[0] != "start"@[0] && "name"@[0] != "end"@[0]
        && "name"@[0] != "style"@[0]);
    assert("marginl"@[0] != "layer"@[0] && "marginl"@[0] != "start"@[0] && "marginl"@[0] != "end"@[0]
        && "marginl"@[0] != "style"@[0] && "marginl"@[0] != "name"@[0]);
    assert("marginr"@[0] != "layer"@[0] && "marginr"@[0] != "start"@[0] && "marginr"@[0] != "end"@[0]
        && "marginr"@[0] != "style"@[0] && "marginr"@[0] != "name"@[0] && "marginr"@[6] != "marginl"@[6]);
    assert("marginv"@[0] != "layer"@[0] && "marginv"@[0] != "start"@[0] && "marginv"@[0] != "end"@[0]
        && "marginv"@[0] != "style"@[0] && "marginv"@[0] != "name"@[0] && "marginv"@[6] != "marginl"@[6]
        && "marginv"@[6] != "marginr"@[6]);
    assert("effect"@[0] != "layer"@[0] && "effect"@[0] != "start"@[0] && "effect"@.len() != "end"@.len()
        && "effect"@[0] != "style"@[0] && "effect"@[0] != "name"@[0] && "effect"@[0] != "marginl"@[0]
        && "effect"@[0] != "marginr"@[0] && "effect"@[0] != "marginv"@[0]);
    assert("text"@[0] != "layer"@[0] && "text"@[0] != "start"@[0] && "text"@[0] != "end"@[0]
        && "text"@[1] != "style"@[1] && "text"@[0] != "name"@[0] && "text"@[0] != "marginl"@[0]
        && "text"@[0] != "marginr"@[0] && "text"@[0] != "marginv"@[0] && "text"@[0] != "effect"@[0]);
}

#[verifier::spinoff_prover]
proof fn lemma_dialogue_split(e: EventView, cols: Seq<Seq<char>>)
    requires
        cols.len() >= 1,
        forall|k: int|
            0 <= k < cols.len() - 1 ==> no_char(#[trigger] fields_of(e, cols)[k], ','),
    ensures
        find_char(dialogue_body(e, cols), ':') == Some(8int),
        dialogue_body(e, cols).skip(9) == join(parts_of(e, cols), seq![',']),
        splitn_spec(dialogue_body(e, cols).skip(9), cols.len(), ',') == parts_of(e, cols),
{
    reveal_strlit("Dialogue: ");
    reveal_strlit(",");
    let fs = fields_of(e, cols);
    let line = dialogue_body(e, cols);
    let j = join(fs, seq![',']);
    assert(","@ == seq![',']);
    assert(line =~= seq!['D', 'i', 'a', 'l', 'o', 'g', 'u', 'e', ':', ' '] + j);
    assert forall|k: int| 0 <= k < 8 implies line[k] != ':' by {}
    lemma_find_char_at(line, ':', 8);
    let body = line.skip(9);
    assert(body =~= seq![' '] + j);
    let g = parts_of(e, cols);
    lemma_join_prepend(fs, seq![' '], seq![',']);
    assert(join(g, seq![',']) == body);
    assert forall|k: int| 0 <= k < g.len() - 1 implies no_char(#[trigger] g[k], ',') by {
        if k == 0 {
            assert(no_char(fs[0], ','));
            assert forall|m: int| 0 <= m < g[0].len() implies g[0][m] != ',' by {
                if m > 0 {
                    assert(g[0][m] == fs[0][m - 1]);
                }
            }
        } else {
            assert(g[k] == fs[k]);
        }
    }
    lemma_splitn_join(g, ',');
}

/// A plain field comes back as it was written.
proof fn lemma_plain_field(e: EventView, cols: Seq<Seq<char>>, name: Seq<char>, v: Seq<char>)
    requires
        cols.len() >= 1,
        field_kept(cols, name, v),
        field_spec(e, name) == v,
    ensures
        dlg_get(cols, parts_of(e, cols), name) == v,
{
    lemma_dlg_get(e, cols, parts_of(e, cols), name);
    lemma_trim_space_prefix(v);
}

/// A time field comes back as the time it was written from.
proof fn lemma_time_field(e: EventView, cols: Seq<Seq<char>>, name: Seq<char>, ms: int)
    requires
        cols.len() >= 1,
        col_index(cols, name) is Some,
        0 <= ms <= i64::MAX,
        ms % 10 == 0,
        field_spec(e, name) == ass_time_text(ms),
    ensures
        fit(ass_time_spec(dlg_get(cols, parts_of(e, cols), name))) == Some(ms),
{
    lemma_dlg_get(e, cols, parts_of(e, cols), name);
    lemma_ass_time_text(ms);
}

proof fn lemma_layer_field(e: EventView, cols: Seq<Seq<char>>)
    requires
        cols.len() >= 1,
        i32::MIN <= e.layer <= i32::MAX,
        col_index(cols, "layer"@) is None ==> e.layer == 0,
        field_spec(e, "layer"@) == int_text(e.layer),
    ensures
        (match parse_i32_spec(dlg_get(cols, parts_of(e, cols), "layer"@)) {
            Some(v) => v,
            None => 0,
        }) == e.layer,
{
    lemma_dlg_get(e, cols, parts_of(e, cols), "layer"@);
    lemma_int_text(e.layer);
    if col_index(cols, "layer"@) is None {
        assert(parse_i64_spec(Seq::<char>::empty()) is None);
    }
}

proof fn lemma_text_field(e: EventView, cols: Seq<Seq<char>>)
    requires
        cols.len() >= 1,
        col_index(cols, "text"@) is None ==> e.text.len() == 0,
        col_index(cols, "text"@) != Some(0int),
        field_spec(e, "text"@) == e.text,
    ensures
        (match col_index(cols, "text"@) {
            Some(i) => parts_of(e, cols)[i],
            None => seq![],
        }) == e.text,
{
    lemma_col_index(cols, "text"@);
    match col_index(cols, "text"@) {
        Some(i) => {
            assert(fields_of(e, cols)[i] == field_spec(e, cols[i]));
        },
        None => {},
    }
}

proof fn lemma_dialogue_line_ok(e: EventView, cols: Seq<Seq<char>>)
    requires
        forall|k: int| 0 <= k < cols.len() ==> ass_line_ok(#[trigger] fields_of(e, cols)[k]),
    ensures
        ass_line_ok(dialogue_body(e, cols)),
{
    reveal_strlit("Dialogue: ");
    reveal_strlit(",");
    let fs = fields_of(e, cols);
    let line = dialogue_body(e, cols);
    let j = join(fs, seq![',']);
    assert(","@ == seq![',']);
    assert(line =~= seq!['D', 'i', 'a', 'l', 'o', 'g', 'u', 'e', ':', ' '] + j);
    assert forall|m: int| 0 <= m < line.len() implies line[m] != '\n' && line[m] != '\r' by {
        if m >= 10 {
            assert(line[m] == j[m - 10]);
            lemma_join_chars(fs, seq![','], m - 10);
        }
    }
}

/// The event a `Dialogue:` line gives, spelled out over its pieces.
pub open spec fn event_of_parts(cols: Seq<Seq<char>>, parts: Seq<Seq<char>>, a: int, b: int) -> EventView {
    EventView {
        start_ms: a,
        end_ms: b,
        style: dlg_get(cols, parts, "style"@),
        name: dlg_get(cols, parts, "name"@),
        effect: dlg_get(cols, parts, "effect"@),
        text: match col_index(cols, "text"@) {
            Some(i) => parts[i],
            None => seq![],
        },
        layer: match parse_i32_spec(dlg_get(cols, parts, "layer"@)) {
            Some(v) => v,
            None => 0,
        },
        margin_l: dlg_get(cols, parts, "marginl"@),
        margin_r: dlg_get(cols, parts, "marginr"@),
        margin_v: dlg_get(cols, parts, "marginv"@),
        extra: seq![],
    }
}

proof fn lemma_dialogue_unfold(line: Seq<char>, cols: Seq<Seq<char>>, parts: Seq<Seq<char>>, a: int, b: int)
    requires
        find_char(line, ':') == Some(8int),
        splitn_spec(line.skip(9), cols.len(), ',') == parts,
        parts.len() == cols.len(),
        fit(ass_time_spec(dlg_get(cols, parts, "start"@))) == Some(a),
        fit(ass_time_spec(dlg_get(cols, parts, "end"@))) == Some(b),
    ensures
        dialogue_spec(line, cols) == Some(event_of_parts(cols, parts, a, b)),
{
}

#[verifier::spinoff_prover]
#[verifier::rlimit(40)]
proof fn lemma_dialogue_parse(e: EventView, cols: Seq<Seq<char>>)
    requires
        ass_event_ok(e, cols),
    ensures
        dialogue_spec(dialogue_body(e, cols), cols) == Some(e),
        ass_line_ok(dialogue_body(e, cols)),
{
    lemma_col_index(cols, "start"@);
    lemma_dialogue_split(e, cols);
    lemma_field_specs(e);
    let parts = parts_of(e, cols);
    assert(parts.len() == cols.len());
    lemma_time_field(e, cols, "start"@, e.start_ms);
    lemma_time_field(e, cols, "end"@, e.end_ms);
    lemma_plain_field(e, cols, "style"@, e.style);
    lemma_plain_field(e, cols, "name"@, e.name);
    lemma_plain_field(e, cols, "effect"@, e.effect);
    lemma_plain_field(e, cols, "marginl"@, e.margin_l);
    lemma_plain_field(e, cols, "marginr"@, e.margin_r);
    lemma_plain_field(e, cols, "marginv"@, e.margin_v);
    lemma_layer_field(e, cols);
    lemma_text_field(e, cols);
    lemma_dialogue_unfold(dialogue_body(e, cols), cols, parts, e.start_ms, e.end_ms);
    assert(e.extra =~= Seq::<char>::empty());
    assert(event_of_parts(cols, parts, e.start_ms, e.end_ms) == e);
    lemma_dialogue_line_ok(e, cols);
}

/// A character of a joined list comes from an item or the separator.
proof fn lemma_join_chars(fs: Seq<Seq<char>>, sep: Seq<char>, m: int)
    requires
        0 <= m < join(fs, sep).len(),
        forall|k: int| 0 <= k < fs.len() ==> ass_line_ok(#[trigger] fs[k]),
        ass_line_ok(sep),
    ensures
        join(fs, sep)[m] != '\n' && join(fs, sep)[m] != '\r',
    decreases fs.len(),
{
    if fs.len() == 1 {
        assert(ass_line_ok(fs[0]));
    } else if fs.len() > 1 {
        let pre = fs.drop_last();
        let a = join(pre, sep);
        assert(join(fs, sep) == a + sep + fs.last());
        assert(ass_line_ok(fs[fs.len() - 1]));
        if m < a.len() {
            assert forall|k: int| 0 <= k < pre.len() implies ass_line_ok(#[trigger] pre[k]) by {
                assert(pre[k] == fs[k]);
            }
            lemma_join_chars(pre, sep, m);
        } else if m < a.len() + sep.len() {
            assert(join(fs, sep)[m] == sep[m - a.len()]);
        } else {
            assert(join(fs, sep)[m] == fs.last()[m - a.len() - sep.len()]);
        }
    }
}

proof fn lemma_dialogue_step(st: AssState, e: EventView)
    requires
        ass_event_ok(e, st.columns),
        st.in_events,
    ensures
        ass_step(st, dialogue_body(e, st.columns)) == (AssState { events: st.events.push(e), ..st }),
{
    reveal_strlit("Dialogue: ");
    reveal_strlit("format");
    reveal_strlit("dialogue");
    let cols = st.columns;
    lemma_dialogue_parse(e, cols);
    let line = dialogue_body(e, cols);
    let j = join(fields_of(e, cols), ","@);
    assert(line =~= seq!['D', 'i', 'a', 'l', 'o', 'g', 'u', 'e', ':', ' '] + j);
    assert(line.last() != '\r');
    assert(strip_cr(line) == line);
    assert(line[0] == 'D');
    assert(trim_start(line) == line);
    assert(line.len() > 0 && !is_ws(line[0]));
    assert(trim(line).len() > 0 && trim(line)[0] == 'D') by {
        lemma_trim_end_prefix(line);
    }
    assert(!is_section(trim(line)));
    assert forall|k: int| 0 <= k < 8 implies line[k] != ':' by {}
    lemma_find_char_at(line, ':', 8);
    let key = line.take(8);
    assert(key =~= seq!['D', 'i', 'a', 'l', 'o', 'g', 'u', 'e']);
    assert(trim_start(key) == key);
    assert(trim_end(key) == key);
    assert(line_key(line) == Some(key));
    assert(!eq_ignore_ascii_case(key, "format"@));
    assert(eq_ignore_ascii_case(key, "dialogue"@)) by {
        assert forall|i: int| 0 <= i < key.len() implies ascii_lower(#[trigger] key[i]) == ascii_lower("dialogue"@[i]) by {}
    }
}

proof fn lemma_trim_end_prefix(t: Seq<char>)
    requires
        t.len() > 0,
        !is_ws(t[0]),
    ensures
        trim_end(t).len() > 0,
        trim_end(t)[0] == t[0],
    decreases t.len(),
{
    if is_ws(t.last()) {
        assert(t.len() > 1);
        assert(t.drop_last()[0] == t[0]);
        lemma_trim_end_prefix(t.drop_last());
    }
}

proof fn lemma_text_lines(h: Seq<Seq<char>>, rest: Seq<char>)
    requires
        forall|k: int| 0 <= k < h.len() ==> ass_line_ok(#[trigger] h[k]),
    ensures
        lines(header_text(h) + rest) == h + lines(rest),
        no_char(header_text(h), '\r'),
        header_text(h).len() == 0 || header_text(h).last() == '\n',
    decreases h.len(),
{
    reveal_strlit("\n");
    if h.len() == 0 {
        assert(header_text(h) + rest =~= rest);
        assert(h + lines(rest) =~= lines(rest));
    } else {
        let pre = h.drop_last();
        let x = h.last();
        assert forall|k: int| 0 <= k < pre.len() implies ass_line_ok(#[trigger] pre[k]) by {
            assert(pre[k] == h[k]);
        }
        assert(ass_line_ok(h[h.len() - 1]));
        lemma_text_lines(pre, x + seq!['\n'] + rest);
        lemma_lines_line(x, rest);
        assert(header_text(h) + rest =~= header_text(pre) + (x + seq!['\n'] + rest));
        assert(h + lines(rest) =~= pre + (seq![x] + lines(rest)));
        let lt = header_text(h);
        assert(lt =~= header_text(pre) + x + seq!['\n']);
        assert forall|k: int| 0 <= k < lt.len() implies lt[k] != '\r' by {
            if k < header_text(pre).len() {
                assert(lt[k] == header_text(pre)[k]);
            } else if k < header_text(pre).len() + x.len() {
                assert(lt[k] == x[k - header_text(pre).len()]);
            }
        }
    }
}

/// The `Dialogue:` lines of events, without line breaks.
pub open spec fn dialogue_bodies(evs: Seq<EventView>, cols: Seq<Seq<char>>) -> Seq<Seq<char>> {
    evs.map_values(|e: EventView| dialogue_body(e, cols))
}

proof fn lemma_dialogues_lines(evs: Seq<EventView>, cols: Seq<Seq<char>>)
    requires
        forall|k: int| 0 <= k < evs.len() ==> ass_event_ok(#[trigger] evs[k], cols),
    ensures
        lines(dialogues_text(evs, cols)) == dialogue_bodies(evs, cols),
        no_char(dialogues_text(evs, cols), '\r'),
        dialogues_text(evs, cols).len() == 0 || dialogues_text(evs, cols).last() == '\n',
    decreases evs.len(),
{
    reveal_strlit("\n");
    if evs.len() == 0 {
        assert(lines(dialogues_text(evs, cols)) =~= Seq::<Seq<char>>::empty());
        assert(dialogue_bodies(evs, cols) =~= Seq::<Seq<char>>::empty());
    } else {
        let pre = evs.drop_last();
        let e = evs.last();
        assert forall|k: int| 0 <= k < pre.len() implies ass_event_ok(#[trigger] pre[k], cols) by {
            assert(pre[k] == evs[k]);
        }
        assert(ass_event_ok(evs[evs.len() - 1], cols));
        lemma_dialogues_lines(pre, cols);
        lemma_dialogue_parse(e, cols);
        let b = dialogue_body(e, cols);
        let d = dialogue_line(e, cols);
        assert(d =~= b + seq!['\n'] + Seq::<char>::empty());
        lemma_lines_line(b, Seq::<char>::empty());
        assert(lines(Seq::<char>::empty()) =~= Seq::<Seq<char>>::empty());
        assert(lines(d) =~= seq![b]);
        lemma_lines_append(dialogues_text(pre, cols), d);
        assert(dialogue_bodies(evs, cols) =~= dialogue_bodies(pre, cols).push(b));
        let all = dialogues_text(evs, cols);
        let pt = dialogues_text(pre, cols);
        assert(all == pt + d);
        assert forall|k: int| 0 <= k < all.len() implies all[k] != '\r' by {
            if k < pt.len() {
                assert(all[k] == pt[k]);
            } else if k < pt.len() + b.len() {
                assert(all[k] == b[k - pt.len()]);
            }
        }
    }
}

proof fn lemma_run_dialogues(evs: Seq<EventView>, st: AssState)
    requires
        st.in_events,
        forall|k: int| 0 <= k < evs.len() ==> ass_event_ok(#[trigger] evs[k], st.columns),
    ensures
        ass_run(dialogue_bodies(evs, st.columns), 0, st) == (AssState { events: st.events + evs, ..st }),
    decreases evs.len(),
{
    let cols = st.columns;
    if evs.len() == 0 {
        assert(st.events + evs =~= st.events);
    } else {
        let pre = evs.drop_last();
        assert forall|k: int| 0 <= k < pre.len() implies ass_event_ok(#[trigger] pre[k], cols) by {
            assert(pre[k] == evs[k]);
        }
        lemma_run_dialogues(pre, st);
        let mid = AssState { events: st.events + pre, ..st };
        let ds = dialogue_bodies(evs, cols);
        assert(ds =~= dialogue_bodies(pre, cols) + seq![dialogue_body(evs.last(), cols)]);
        lemma_ass_run_concat(dialogue_bodies(pre, cols), seq![dialogue_body(evs.last(), cols)], 0, st);
        assert(ass_event_ok(evs[evs.len() - 1], cols));
        lemma_dialogue_step(mid, evs.last());
        let one = seq![dialogue_body(evs.last(), cols)];
        assert(ass_run(one, 0, mid) == ass_run(one, 1, ass_step(mid, one[0])));
        assert(st.events + evs =~= (st.events + pre).push(evs.last()));
    }
}

/// Serializing a file and parsing the text back gives the same header,
/// columns and events, for a header that reads back as itself with the
/// `[Events]` section open and events a `Dialogue:` line carries exactly.
#[verifier::spinoff_prover]
#[verifier::rlimit(40)]
pub proof fn law_ass_roundtrip(f: SubFileView)
    requires
        ass_file_ok(f),
    ensures
        ass_parse_spec(ass_text(f)).events == f.events,
        ass_parse_spec(ass_text(f)).header == f.header,
        ass_parse_spec(ass_text(f)).ass_columns == f.ass_columns,
{
    let h = f.header;
    let cols = f.ass_columns;
    let evs = f.events;
    let d = dialogues_text(evs, cols);
    let t = ass_text(f);
    lemma_text_lines(h, d);
    lemma_dialogues_lines(evs, cols);
    assert(t.len() == 0 || t[0] != '\u{FEFF}') by {
        if h.len() > 0 {
            lemma_header_text_first(h);
        } else if evs.len() > 0 {
            assert(t == d);
            lemma_dialogues_first(evs, cols);
        }
    }
    assert(strip_bom(t) == t);
    let ls = lines(t);
    assert(ls == h + dialogue_bodies(evs, cols));
    lemma_ass_run_concat(h, dialogue_bodies(evs, cols), 0, ass_initial());
    let st = ass_run(h, 0, ass_initial());
    assert(st.columns == cols);
    lemma_run_dialogues(evs, st);
    assert(st.events + evs =~= evs);
}

proof fn lemma_header_text_first(h: Seq<Seq<char>>)
    requires
        h.len() > 0,
    ensures
        header_text(h).len() > 0,
        h[0].len() > 0 ==> header_text(h)[0] == h[0][0],
        h[0].len() == 0 ==> header_text(h)[0] == '\n',
    decreases h.len(),
{
    reveal_strlit("\n");
    if h.len() == 1 {
        assert(header_text(h.drop_last()) =~= Seq::<char>::empty());
        assert(header_text(h) =~= h[0] + seq!['\n']);
    } else {
        lemma_header_text_first(h.drop_last());
        assert(h.drop_last()[0] == h[0]);
        assert(header_text(h) == header_text(h.drop_last()) + h.last() + "\n"@);
    }
}

proof fn lemma_dialogues_first(evs: Seq<EventView>, cols: Seq<Seq<char>>)
    requires
        evs.len() > 0,
    ensures
        dialogues_text(evs, cols).len() > 0,
        dialogues_text(evs, cols)[0] == 'D',
    decreases evs.len(),
{
    reveal_strlit("Dialogue: ");
    if evs.len() == 1 {
        assert(dialogues_text(evs.drop_last(), cols) =~= Seq::<char>::empty());
        assert(dialogues_text(evs, cols) =~= dialogue_line(evs.last(), cols));
    } else {
        lemma_dialogues_first(evs.drop_last(), cols);
        assert(dialogues_text(evs, cols) == dialogues_text(evs.drop_last(), cols) + dialogue_line(evs.last(), cols));
    }
}

/* ---------- parsed files meet the round-trip conditions ---------- */

/// Every `Dialogue:` line the parser turns into an event, from line `i` on
/// with state `st`, is read under the columns `cols`.
pub open spec fn events_under(ls: Seq<Seq<char>>, i: int, st: AssState, cols: Seq<Seq<char>>) -> bool
    decreases ls.len() - i,
{
    if i < 0 || i >= ls.len() {
        true
    } else {
        let nxt = ass_step(st, ls[i]);
        (nxt.events.len() != st.events.len() ==> st.columns == cols) && events_under(
            ls,
            i + 1,
            nxt,
            cols,
        )
    }
}

/// The file a parse gives.
pub open spec fn ass_parsed(text: Seq<char>) -> SubFileView {
    let st = ass_parse_spec(text);
    SubFileView {
        format: SubFormat::Ass,
        events: st.events,
        header: st.header,
        ass_columns: st.ass_columns,
    }
}

proof fn lemma_splitn_pieces(s: Seq<char>, n: nat, c: char, x: char)
    ensures
        splitn_spec(s, n, c).len() <= n,
        forall|k: int|
            0 <= k < splitn_spec(s, n, c).len() ==> (no_char(s, x) ==> no_char(
                #[trigger] splitn_spec(s, n, c)[k],
                x,
            )),
        forall|k: int|
            0 <= k < splitn_spec(s, n, c).len() - 1 ==> no_char(#[trigger] splitn_spec(s, n, c)[k], c),
    decreases n,
{
    if n >= 2 {
        lemma_find_char(s, c);
        match find_char(s, c) {
            None => {},
            Some(i) => {
                let rest = s.skip(i + 1);
                lemma_splitn_pieces(rest, (n - 1) as nat, c, x);
                let r = splitn_spec(rest, (n - 1) as nat, c);
                let all = splitn_spec(s, n, c);
                assert(all == seq![s.take(i)] + r);
                assert forall|k: int| 0 <= k < all.len() implies (no_char(s, x) ==> no_char(
                    #[trigger] all[k],
                    x,
                )) by {
                    if no_char(s, x) {
                        if k == 0 {
                            assert forall|m: int| 0 <= m < all[0].len() implies all[0][m] != x by {
                                assert(all[0][m] == s[m]);
                            }
                        } else {
                            assert(all[k] == r[k - 1]);
                            assert forall|m: int| 0 <= m < rest.len() implies rest[m] != x by {
                                assert(rest[m] == s[m + i + 1]);
                            }
                        }
                    }
                }
                assert forall|k: int| 0 <= k < all.len() - 1 implies no_char(#[trigger] all[k], c) by {
                    if k == 0 {
                        assert forall|m: int| 0 <= m < all[0].len() implies all[0][m] != c by {
                            assert(all[0][m] == s[m]);
                        }
                    } else {
                        assert(all[k] == r[k - 1]);
                    }
                }
            },
        }
    }
}

proof fn lemma_ass_time_nonneg(s: Seq<char>)
    ensures
        ass_time_spec(s) matches Some(v) ==> v >= 0,
{
    let t = trim(s);
    match find_char(t, '.') {
        None => {},
        Some(i) => {
            let frac = trim(t.skip(i + 1));
            if frac.len() > 0 && frac.len() <= 3 && all_digits(frac) {
                crate::num::lemma_digits_value_nonneg(frac);
                let d = digits_value(frac);
                assert(d * crate::time::pow10_3(frac.len() as int) >= 0) by (nonlinear_arith)
                    requires
                        d >= 0,
                        crate::time::pow10_3(frac.len() as int) >= 1,
                ;
            }
        },
    }
}

proof fn lemma_empty_fields()
    ensures
        ass_time_spec(Seq::<char>::empty()) is None,
        parse_i32_spec(Seq::<char>::empty()) is None,
        trim(Seq::<char>::empty()) == Seq::<char>::empty(),
{
    assert(trim(Seq::<char>::empty()) =~= Seq::<char>::empty());
    assert(find_char(Seq::<char>::empty(), '.') is None);
}

/// The pieces of a `Dialogue:` line under `cols`.
pub open spec fn dialogue_parts(line: Seq<char>, cols: Seq<Seq<char>>) -> Seq<Seq<char>> {
    splitn_spec(line.skip(find_char(line, ':')->0 + 1), cols.len(), ',')
}

proof fn lemma_dialogue_unfolds(line: Seq<char>, cols: Seq<Seq<char>>, e: EventView)
    requires
        dialogue_spec(line, cols) == Some(e),
    ensures
        find_char(line, ':') is Some,
        dialogue_parts(line, cols).len() >= cols.len(),
        e == event_of_parts(cols, dialogue_parts(line, cols), e.start_ms, e.end_ms),
        fit(ass_time_spec(dlg_get(cols, dialogue_parts(line, cols), "start"@))) == Some(e.start_ms),
        fit(ass_time_spec(dlg_get(cols, dialogue_parts(line, cols), "end"@))) == Some(e.end_ms),
{
}

proof fn lemma_parts_clean(line: Seq<char>, cols: Seq<Seq<char>>)
    requires
        find_char(line, ':') is Some,
        no_char(line, '\n'),
        no_char(line, '\r'),
    ensures
        dialogue_parts(line, cols).len() <= cols.len(),
        forall|k: int|
            0 <= k < dialogue_parts(line, cols).len() ==> no_char(
                #[trigger] dialogue_parts(line, cols)[k],
                '\n',
            ) && no_char(dialogue_parts(line, cols)[k], '\r'),
        forall|k: int|
            0 <= k < dialogue_parts(line, cols).len() - 1 ==> no_char(
                #[trigger] dialogue_parts(line, cols)[k],
                ',',
            ),
{
    let c = find_char(line, ':')->0;
    lemma_find_char(line, ':');
    let body = line.skip(c + 1);
    assert forall|m: int| 0 <= m < body.len() implies body[m] != '\n' && body[m] != '\r' by {
        assert(body[m] == line[m + c + 1]);
    }
    lemma_splitn_pieces(body, cols.len(), ',', '\n');
    lemma_splitn_pieces(body, cols.len(), ',', '\r');
}

/// A trimmed field of clean pieces: clean, trimmed, and comma-free when
/// its column is not the last.
proof fn lemma_col_index_le(cols: Seq<Seq<char>>, nm: Seq<char>, k: int)
    requires
        0 <= k < cols.len(),
        cols[k] == nm,
    ensures
        col_index(cols, nm) matches Some(q) && q <= k,
    decreases k,
{
    if cols[0] != nm {
        lemma_col_index_le(cols.drop_first(), nm, k - 1);
    }
}

proof fn lemma_plain_part(cols: Seq<Seq<char>>, parts: Seq<Seq<char>>, nm: Seq<char>, k: int)
    requires
        parts.len() == cols.len(),
        0 <= k < cols.len(),
        cols[k] == nm,
        forall|m: int| 0 <= m < parts.len() ==> no_char(#[trigger] parts[m], '\n') && no_char(parts[m], '\r'),
        forall|m: int| 0 <= m < parts.len() - 1 ==> no_char(#[trigger] parts[m], ','),
    ensures
        no_char(dlg_get(cols, parts, nm), '\n'),
        no_char(dlg_get(cols, parts, nm), '\r'),
        trim(dlg_get(cols, parts, nm)) == dlg_get(cols, parts, nm),
        k < cols.len() - 1 ==> no_char(dlg_get(cols, parts, nm), ','),
        col_index(cols, nm) matches Some(q) && 0 <= q <= k && no_char(parts[q], '\n') && no_char(parts[q], '\r')
            && (k < cols.len() - 1 ==> no_char(parts[q], ',')),
{
    lemma_col_index(cols, nm);
    lemma_col_index_le(cols, nm, k);
    let q = col_index(cols, nm)->0;
    let pq = parts[q];
    lemma_trim_facts(pq, '\n');
    lemma_trim_facts(pq, '\r');
    lemma_trim_facts(pq, ',');
}

proof fn lemma_field_k(cols: Seq<Seq<char>>, parts: Seq<Seq<char>>, e: EventView, k: int)
    requires
        parts.len() == cols.len(),
        0 <= k < cols.len(),
        e == event_of_parts(cols, parts, e.start_ms, e.end_ms),
        0 <= e.start_ms <= i64::MAX,
        e.start_ms % 10 == 0,
        0 <= e.end_ms <= i64::MAX,
        e.end_ms % 10 == 0,
        i32::MIN <= e.layer <= i32::MAX,
        forall|m: int| 0 <= m < parts.len() ==> no_char(#[trigger] parts[m], '\n') && no_char(parts[m], '\r'),
        forall|m: int| 0 <= m < parts.len() - 1 ==> no_char(#[trigger] parts[m], ','),
    ensures
        ass_line_ok(field_spec(e, cols[k])),
        k < cols.len() - 1 ==> no_char(field_spec(e, cols[k]), ','),
{
    reveal_strlit("start");
    reveal_strlit("end");
    reveal_strlit("style");
    reveal_strlit("name");
    reveal_strlit("effect");
    reveal_strlit("layer");
    reveal_strlit("marginl");
    reveal_strlit("marginr");
    reveal_strlit("marginv");
    reveal_strlit("text");
    let nm = cols[k];
    lemma_plain_part(cols, parts, nm, k);
    if nm == "layer"@ {
        lemma_int_text(e.layer);
    } else if nm == "start"@ {
        lemma_ass_time_text(e.start_ms);
    } else if nm == "end"@ {
        lemma_ass_time_text(e.end_ms);
    } else if nm == "text"@ {
        lemma_field_specs(e);
    } else {
    }
}

/// An event read from a clean `Dialogue:` line under `cols` is one such a
/// line carries exactly, when its times are whole centiseconds and the
/// text is not the first column.
#[verifier::spinoff_prover]
proof fn lemma_dialogue_ok(line: Seq<char>, cols: Seq<Seq<char>>, e: EventView)
    requires
        dialogue_spec(line, cols) == Some(e),
        no_char(line, '\n'),
        no_char(line, '\r'),
        e.start_ms % 10 == 0,
        e.end_ms % 10 == 0,
        col_index(cols, "text"@) != Some(0int),
    ensures
        ass_event_ok(e, cols),
{
    lemma_dialogue_unfolds(line, cols, e);
    lemma_parts_clean(line, cols);
    let parts = dialogue_parts(line, cols);
    assert(parts.len() == cols.len());
    lemma_empty_fields();
    lemma_col_index(cols, "start"@);
    lemma_col_index(cols, "end"@);
    lemma_col_index(cols, "layer"@);
    lemma_col_index(cols, "text"@);
    lemma_ass_time_nonneg(dlg_get(cols, parts, "start"@));
    lemma_ass_time_nonneg(dlg_get(cols, parts, "end"@));
    assert(col_index(cols, "start"@) is Some);
    assert(col_index(cols, "end"@) is Some);
    assert forall|nm: Seq<char>| #[trigger] dlg_get(cols, parts, nm) == dlg_get(cols, parts, nm)
        implies trim(dlg_get(cols, parts, nm)) == dlg_get(cols, parts, nm) && (col_index(cols, nm) is None
        ==> dlg_get(cols, parts, nm).len() == 0) by {
        match col_index(cols, nm) {
            Some(q) => {
                lemma_col_index(cols, nm);
                lemma_plain_part(cols, parts, nm, q);
            },
            None => {},
        }
    }
    let fs = fields_of(e, cols);
    assert forall|k: int| 0 <= k < cols.len() implies ass_line_ok(#[trigger] fs[k]) by {
        lemma_field_k(cols, parts, e, k);
    }
    assert forall|k: int| 0 <= k < cols.len() - 1 implies no_char(#[trigger] fs[k], ',') by {
        lemma_field_k(cols, parts, e, k);
    }
    assert(field_kept(cols, "style"@, e.style));
    assert(field_kept(cols, "name"@, e.name));
    assert(field_kept(cols, "effect"@, e.effect));
    assert(field_kept(cols, "marginl"@, e.margin_l));
    assert(field_kept(cols, "marginr"@, e.margin_r));
    assert(field_kept(cols, "marginv"@, e.margin_v));
}

proof fn lemma_cols_same(ls: Seq<Seq<char>>, i: int, st: AssState)
    requires
        st.columns == st.ass_columns,
    ensures
        ass_run(ls, i, st).columns == ass_run(ls, i, st).ass_columns,
    decreases ls.len() - i,
{
    if 0 <= i < ls.len() {
        lemma_cols_same(ls, i + 1, ass_step(st, ls[i]));
    }
}

/// Replaying only the lines the parser kept in the header reaches the same
/// state, without events.
proof fn lemma_header_replay(ls: Seq<Seq<char>>, i: int, st: AssState, evs: Seq<EventView>)
    requires
        0 <= i <= ls.len(),
        forall|k: int| 0 <= k < ls.len() ==> no_char(#[trigger] ls[k], '\r'),
    ensures
        ass_run(ls, i, st).header.len() >= st.header.len(),
        ass_run(ls, i, st).header.take(st.header.len() as int) == st.header,
        forall|k: int|
            st.header.len() <= k < ass_run(ls, i, st).header.len() ==> no_char(
                #[trigger] ass_run(ls, i, st).header[k],
                '\r',
            ),
        ass_run(
            ass_run(ls, i, st).header.skip(st.header.len() as int),
            0,
            AssState { events: evs, ..st },
        ) == (AssState { events: evs, ..ass_run(ls, i, st) }),
    decreases ls.len() - i,
{
    let fin = ass_run(ls, i, st);
    if i == ls.len() {
        assert(fin.header.skip(st.header.len() as int) =~= Seq::<Seq<char>>::empty());
        assert(fin.header.take(st.header.len() as int) =~= st.header);
    } else {
        let raw = ls[i];
        let line = strip_cr(raw);
        assert(line == raw);
        let st1 = ass_step(st, raw);
        lemma_header_replay(ls, i + 1, st1, evs);
        assert(fin == ass_run(ls, i + 1, st1));
        let sh = AssState { events: evs, ..st };
        let sh1 = AssState { events: evs, ..st1 };
        assert(strip_cr(line) == line);
        if st1.header.len() == st.header.len() + 1 {
            // The line went to the header: the replay takes the same step.
            assert(st1.header == st.header.push(line));
            assert(ass_step(sh, line) == sh1);
            let added = fin.header.skip(st.header.len() as int);
            let added1 = fin.header.skip(st1.header.len() as int);
            assert(fin.header.take(st1.header.len() as int)[st.header.len() as int] == line);
            assert(added =~= seq![line] + added1);
            lemma_ass_run_concat(seq![line], added1, 0, sh);
            assert(seq![line] + added1 =~= added);
            assert(ass_run(seq![line], 0, sh) == ass_run(seq![line], 1, ass_step(sh, line)));
            assert(fin.header.take(st.header.len() as int) =~= fin.header.take(
                st1.header.len() as int,
            ).take(st.header.len() as int));
        } else {
            assert(st1.header == st.header);
            assert(sh1 == sh);
        }
    }
}

proof fn lemma_events_ok(ls: Seq<Seq<char>>, i: int, st: AssState, cols: Seq<Seq<char>>)
    requires
        0 <= i <= ls.len(),
        forall|k: int| 0 <= k < ls.len() ==> no_char(#[trigger] ls[k], '\n') && no_char(ls[k], '\r'),
        events_under(ls, i, st, cols),
        col_index(cols, "text"@) != Some(0int),
        forall|k: int|
            0 <= k < st.events.len() && (#[trigger] st.events[k]).start_ms % 10 == 0
                && st.events[k].end_ms % 10 == 0 ==> ass_event_ok(st.events[k], cols),
    ensures
        ass_run(ls, i, st).events.len() >= st.events.len(),
        ass_run(ls, i, st).events.take(st.events.len() as int) == st.events,
        forall|k: int|
            0 <= k < ass_run(ls, i, st).events.len() && (#[trigger] ass_run(
                ls,
                i,
                st,
            ).events[k]).start_ms % 10 == 0 && ass_run(ls, i, st).events[k].end_ms % 10 == 0
                ==> ass_event_ok(ass_run(ls, i, st).events[k], cols),
    decreases ls.len() - i,
{
    let fin = ass_run(ls, i, st);
    if i == ls.len() {
        assert(fin.events.take(st.events.len() as int) =~= st.events);
    } else {
        let raw = ls[i];
        let line = strip_cr(raw);
        assert(line == raw);
        let st1 = ass_step(st, raw);
        if st1.events.len() != st.events.len() {
            assert(st.columns == cols);
            let e = dialogue_spec(line, st.columns)->0;
            assert(st1.events == st.events.push(e));
            if e.start_ms % 10 == 0 && e.end_ms % 10 == 0 {
                lemma_dialogue_ok(line, cols, e);
            }
            assert forall|k: int|
                0 <= k < st1.events.len() && (#[trigger] st1.events[k]).start_ms % 10 == 0
                    && st1.events[k].end_ms % 10 == 0 implies ass_event_ok(st1.events[k], cols) by {
                if k < st.events.len() {
                    assert(st1.events[k] == st.events[k]);
                }
            }
        } else {
            assert(st1.events == st.events);
        }
        lemma_events_ok(ls, i + 1, st1, cols);
        assert(fin == ass_run(ls, i + 1, st1));
        assert(fin.events.take(st.events.len() as int) =~= fin.events.take(
            st1.events.len() as int,
        ).take(st.events.len() as int));
    }
}

/// Writing a parsed ASS file and parsing it again gives the same header,
/// columns and events, for text whose carriage returns all belong to
/// `\r\n` line breaks, without a second byte-order mark, whose last
/// section is `[Events]`, whose events were all read under the final
/// `Format:` columns, whose text column is not the first, and whose times
/// are whole centiseconds (the format's precision).
#[verifier::spinoff_prover]
#[verifier::rlimit(40)]
pub proof fn law_ass_parsed_roundtrip(text: Seq<char>)
    requires
        crlf_only(text),
        strip_bom(text).len() == 0 || strip_bom(text)[0] != '\u{FEFF}',
        ass_parse_spec(text).in_events,
        events_under(lines(strip_bom(text)), 0, ass_initial(), ass_parse_spec(text).ass_columns),
        col_index(ass_parse_spec(text).ass_columns, "text"@) != Some(0int),
        forall|k: int|
            0 <= k < ass_parse_spec(text).events.len() ==> (#[trigger] ass_parse_spec(
                text,
            ).events[k]).start_ms % 10 == 0 && ass_parse_spec(text).events[k].end_ms % 10 == 0,
    ensures
        ass_parse_spec(ass_text(ass_parsed(text))).events == ass_parse_spec(text).events,
        ass_parse_spec(ass_text(ass_parsed(text))).header == ass_parse_spec(text).header,
        ass_parse_spec(ass_text(ass_parsed(text))).ass_columns == ass_parse_spec(text).ass_columns,
{
    let t = strip_bom(text);
    assert(crlf_only(t)) by {
        assert forall|m: int| 0 <= m < t.len() && #[trigger] t[m] == '\r' implies m + 1 < t.len() && t[m + 1]
            == '\n' by {
            if t.len() < text.len() {
                assert(t[m] == text[m + 1]);
                assert(t[m + 1] == text[m + 2]);
            }
        }
    }
    let ls = lines(t);
    lemma_lines_crlf(t);
    let st = ass_parse_spec(text);
    let f = ass_parsed(text);
    let init = ass_initial();
    lemma_header_replay(ls, 0, init, seq![]);
    assert(st.header.skip(0) =~= st.header);
    lemma_cols_same(ls, 0, init);
    lemma_events_ok(ls, 0, init, st.ass_columns);
    // The header replays to the final state.
    assert(ass_run(st.header, 0, init) == (AssState { events: seq![], ..st }));
    assert(ass_header_reads_back(f.header, f.ass_columns));
    assert forall|k: int| 0 <= k < f.header.len() implies ass_line_ok(#[trigger] f.header[k]) by {
        lemma_header_line_from(ls, 0, init, k);
    }
    if f.header.len() > 0 && f.header[0].len() > 0 {
        lemma_first_header_line(t);
    }
    assert forall|k: int| 0 <= k < f.events.len() implies ass_event_ok(#[trigger] f.events[k], f.ass_columns) by {
        assert(st.events[k].start_ms % 10 == 0 && st.events[k].end_ms % 10 == 0);
    }
    assert(ass_file_ok(f));
    law_ass_roundtrip(f);
}

/// Every header line comes from an input line.
proof fn lemma_header_line_from(ls: Seq<Seq<char>>, i: int, st: AssState, k: int)
    requires
        0 <= i <= ls.len(),
        forall|m: int| 0 <= m < ls.len() ==> no_char(#[trigger] ls[m], '\n') && no_char(ls[m], '\r'),
        forall|m: int| 0 <= m < st.header.len() ==> ass_line_ok(#[trigger] st.header[m]),
        0 <= k < ass_run(ls, i, st).header.len(),
    ensures
        ass_line_ok(ass_run(ls, i, st).header[k]),
    decreases ls.len() - i,
{
    if i < ls.len() {
        let st1 = ass_step(st, ls[i]);
        assert(strip_cr(ls[i]) == ls[i]);
        assert forall|m: int| 0 <= m < st1.header.len() implies ass_line_ok(#[trigger] st1.header[m]) by {
            if m < st.header.len() {
                assert(st1.header[m] == st.header[m]) by {
                    if st1.header.len() > st.header.len() {
                        assert(st1.header == st.header.push(ls[i]));
                    }
                }
            } else {
                assert(st1.header == st.header.push(ls[i]));
            }
        }
        lemma_header_line_from(ls, i + 1, st1, k);
    }
}

/// The first header line is the first line of the text.
proof fn lemma_first_header_line(t: Seq<char>)
    requires
        crlf_only(t),
        t.len() == 0 || t[0] != '\u{FEFF}',
        ass_run(lines(t), 0, ass_initial()).header.len() > 0,
        ass_run(lines(t), 0, ass_initial()).header[0].len() > 0,
    ensures
        ass_run(lines(t), 0, ass_initial()).header[0][0] != '\u{FEFF}',
{
    let ls = lines(t);
    let init = ass_initial();
    lemma_lines_crlf(t);
    assert(ls.len() > 0) by {
        if ls.len() == 0 {
            assert(ass_run(ls, 0, init) == init);
        }
    }
    let st1 = ass_step(init, ls[0]);
    assert(strip_cr(ls[0]) == ls[0]);
    assert(st1.header == seq![ls[0]]);
    lemma_header_replay(ls, 1, st1, seq![]);
    let h = ass_run(ls, 1, st1).header;
    assert(h.take(1)[0] == h[0]);
    assert(h[0] == ls[0]);
    lemma_find_char(t, '\n');
    match find_char(t, '\n') {
        None => {
            assert(ls[0] == t);
        },
        Some(i) => {
            assert(ls[0] == strip_cr(t.take(i)));
            assert(ls[0][0] == t[0]);
        },
    }
}

} // verus!
