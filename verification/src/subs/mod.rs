//! Subtitle data model shared by the SRT, ASS and VTT parsers.
pub mod ass;
pub mod batch;
pub mod clean;
pub mod convert;
pub mod filter;
pub mod shift;
pub mod stats;
pub mod srt;
pub mod vtt;
use vstd::prelude::*;
use crate::text::{
    chars_of, copy_range, matches_at, push_all, replace_chars, replace_seq, str_to_string,
    string_of, trim, trim_bounds, is_blank, lemma_replace_noop, lemma_trim_facts, no_char,
    starts_with,
};

verus! {

/// Subtitle container format.
#[derive(Debug, Clone, Copy, PartialEq, Eq, Structural)]
pub enum SubFormat {
    Srt,
    Ass,
    Vtt,
}

/// One subtitle event (cue/dialogue) with timing in milliseconds.
#[derive(Debug, Clone, PartialEq)]
pub struct Event {
    pub start_ms: i64,
    pub end_ms: i64,
    /// ASS style name (empty for SRT/VTT).
    pub style: String,
    /// ASS actor/name field (VTT cue identifier).
    pub name: String,
    /// ASS effect field.
    pub effect: String,
    /// Raw cue text, formatting tags included.
    pub text: String,
    /// ASS layer.
    pub layer: i32,
    /// ASS margins: [MarginL, MarginR, MarginV].
    pub margins: [String; 3],
    /// VTT cue settings (the part after the timestamps).
    pub extra: String,
}

/// Mathematical model of an [`Event`].
pub struct EventView {
    pub start_ms: int,
    pub end_ms: int,
    pub style: Seq<char>,
    pub name: Seq<char>,
    pub effect: Seq<char>,
    pub text: Seq<char>,
    pub layer: int,
    pub margin_l: Seq<char>,
    pub margin_r: Seq<char>,
    pub margin_v: Seq<char>,
    pub extra: Seq<char>,
}

impl View for Event {
    type V = EventView;

    open spec fn view(&self) -> EventView {
        EventView {
            start_ms: self.start_ms as int,
            end_ms: self.end_ms as int,
            style: self.style@,
            name: self.name@,
            effect: self.effect@,
            text: self.text@,
            layer: self.layer as int,
            margin_l: self.margins[0]@,
            margin_r: self.margins[1]@,
            margin_v: self.margins[2]@,
            extra: self.extra@,
        }
    }
}

/// An event with the given timing and text and every other field empty.
pub open spec fn plain_event(start_ms: int, end_ms: int, text: Seq<char>) -> EventView {
    EventView {
        start_ms,
        end_ms,
        style: seq![],
        name: seq![],
        effect: seq![],
        text,
        layer: 0,
        margin_l: seq![],
        margin_r: seq![],
        margin_v: seq![],
        extra: seq![],
    }
}

impl Default for Event {
    fn default() -> (e: Event)
        ensures
            e@ == plain_event(0, 0, seq![]),
    {
        Event::timed(0, 0, String::new())
    }
}

impl Event {
    /// An event with the given timing and text; every other field empty.
    pub fn timed(start_ms: i64, end_ms: i64, text: String) -> (e: Event)
        ensures
            e@ == plain_event(start_ms as int, end_ms as int, text@),
    {
        Event {
            start_ms,
            end_ms,
            style: String::new(),
            name: String::new(),
            effect: String::new(),
            text,
            layer: 0,
            margins: [String::new(), String::new(), String::new()],
            extra: String::new(),
        }
    }

    /// A field-by-field copy.
    pub fn duplicate(&self) -> (e: Event)
        ensures
            e@ == self@,
    {
        Event {
            start_ms: self.start_ms,
            end_ms: self.end_ms,
            style: self.style.clone(),
            name: self.name.clone(),
            effect: self.effect.clone(),
            text: self.text.clone(),
            layer: self.layer,
            margins: [self.margins[0].clone(), self.margins[1].clone(), self.margins[2].clone()],
            extra: self.extra.clone(),
        }
    }
}

/// A parsed subtitle file; the header is preserved verbatim for round trips.
#[derive(Debug, Clone)]
pub struct SubFile {
    pub format: SubFormat,
    pub events: Vec<Event>,
    /// Raw header lines (ASS lines outside Dialogue, WEBVTT prelude).
    pub header: Vec<String>,
    /// ASS column order (lowercase names); standard order by default.
    pub ass_columns: Vec<String>,
}

/// Mathematical model of a [`SubFile`].
pub struct SubFileView {
    pub format: SubFormat,
    pub events: Seq<EventView>,
    pub header: Seq<Seq<char>>,
    pub ass_columns: Seq<Seq<char>>,
}

pub open spec fn strings_view(v: Seq<String>) -> Seq<Seq<char>> {
    v.map_values(|s: String| s@)
}

pub open spec fn events_view(v: Seq<Event>) -> Seq<EventView> {
    v.map_values(|e: Event| e@)
}

impl View for SubFile {
    type V = SubFileView;

    open spec fn view(&self) -> SubFileView {
        SubFileView {
            format: self.format,
            events: events_view(self.events@),
            header: strings_view(self.header@),
            ass_columns: strings_view(self.ass_columns@),
        }
    }
}

/// Why a subtitle text could not be parsed.
#[derive(Debug, Clone, Copy, PartialEq, Eq, Structural)]
pub enum ParseError {
    NoSrtCues,
    NoAssDialogues,
    MissingVttHeader,
    NoVttCues,
}

/// The description of a parse error.
pub open spec fn error_message(e: ParseError) -> Seq<char> {
    match e {
        ParseError::NoSrtCues => "no SRT cues found"@,
        ParseError::NoAssDialogues => "no ASS dialogues found"@,
        ParseError::MissingVttHeader => "missing WEBVTT header"@,
        ParseError::NoVttCues => "no VTT cues found"@,
    }
}

impl ParseError {
    /// Human-readable description.
    pub fn message(&self) -> (r: &'static str)
        ensures
            r@ == error_message(*self),
    {
        match self {
            ParseError::NoSrtCues => "no SRT cues found",
            ParseError::NoAssDialogues => "no ASS dialogues found",
            ParseError::MissingVttHeader => "missing WEBVTT header",
            ParseError::NoVttCues => "no VTT cues found",
        }
    }
}

/// A leading byte-order mark removed.
pub open spec fn strip_bom(t: Seq<char>) -> Seq<char> {
    if t.len() > 0 && t[0] == '\u{FEFF}' {
        t.drop_first()
    } else {
        t
    }
}

/// Text with a leading BOM removed and `\r\n` / lone `\r` turned into `\n`.
pub open spec fn normalize_newlines(t: Seq<char>) -> Seq<char> {
    replace_seq(replace_seq(strip_bom(t), "\r\n"@, "\n"@), "\r"@, "\n"@)
}

pub fn normalize_newlines_chars(t: &[char]) -> (r: Vec<char>)
    ensures
        r@ == normalize_newlines(t@),
{
    let start: usize = if t.len() > 0 && t[0] == '\u{FEFF}' {
        1
    } else {
        0
    };
    let body = copy_range(t, start, t.len());
    assert(body@ =~= strip_bom(t@));
    let crlf = chars_of("\r\n");
    let lf = chars_of("\n");
    let cr = chars_of("\r");
    proof {
        reveal_strlit("\r\n");
        reveal_strlit("\r");
    }
    let a = replace_chars(&body, &crlf, &lf);
    replace_chars(&a, &cr, &lf)
}

/// Whether a line is empty after trimming.
pub fn is_blank_chars(l: &[char]) -> (b: bool)
    ensures
        b == is_blank(l@),
{
    let (x, y) = trim_bounds(l);
    x == y
}

/// Canonical ASS column order (lowercase).
pub open spec fn standard_columns_spec() -> Seq<Seq<char>> {
    seq![
        "layer"@,
        "start"@,
        "end"@,
        "style"@,
        "name"@,
        "marginl"@,
        "marginr"@,
        "marginv"@,
        "effect"@,
        "text"@,
    ]
}

/// Canonical ASS column order (lowercase).
pub fn standard_columns() -> (r: Vec<String>)
    ensures
        strings_view(r@) == standard_columns_spec(),
{
    let r = vec![
        str_to_string("layer"),
        str_to_string("start"),
        str_to_string("end"),
        str_to_string("style"),
        str_to_string("name"),
        str_to_string("marginl"),
        str_to_string("marginr"),
        str_to_string("marginv"),
        str_to_string("effect"),
        str_to_string("text"),
    ];
    assert(strings_view(r@) =~= standard_columns_spec());
    r
}

impl SubFile {
    /// An empty file of the given format with the standard ASS columns.
    pub fn new(format: SubFormat) -> (f: SubFile)
        ensures
            f@.format == format,
            f@.events.len() == 0,
            f@.header.len() == 0,
            f@.ass_columns == standard_columns_spec(),
    {
        SubFile { format, events: Vec::new(), header: Vec::new(), ass_columns: standard_columns() }
    }
}

/// Text outside `{...}` override blocks, where `depth` blocks are open.
/// A `}` with no open block is ordinary text.
pub open spec fn strip_blocks_from(s: Seq<char>, depth: nat) -> Seq<char>
    decreases s.len(),
{
    if s.len() == 0 {
        seq![]
    } else if s[0] == '{' {
        strip_blocks_from(s.drop_first(), depth + 1)
    } else if s[0] == '}' && depth > 0 {
        strip_blocks_from(s.drop_first(), (depth - 1) as nat)
    } else if depth == 0 {
        seq![s[0]] + strip_blocks_from(s.drop_first(), 0)
    } else {
        strip_blocks_from(s.drop_first(), depth)
    }
}

pub open spec fn strip_blocks(s: Seq<char>) -> Seq<char> {
    strip_blocks_from(s, 0)
}

/// Removes `{...}` override blocks (nesting counted, stray `}` kept).
pub fn strip_blocks_chars(s: &[char]) -> (r: Vec<char>)
    ensures
        r@ == strip_blocks(s@),
{
    let mut out: Vec<char> = Vec::new();
    let mut depth: u64 = 0;
    let mut i: usize = 0;
    assert(s@.skip(0) =~= s@);
    while i < s.len()
        invariant
            i <= s@.len(),
            depth <= i,
            out@ + strip_blocks_from(s@.skip(i as int), depth as nat) == strip_blocks(s@),
        decreases s@.len() - i,
    {
        let c = s[i];
        assert(s@.skip(i as int).drop_first() =~= s@.skip(i + 1));
        if c == '{' {
            depth = depth + 1;
        } else if c == '}' && depth > 0 {
            depth = depth - 1;
        } else if depth == 0 {
            out.push(c);
        }
        i = i + 1;
    }
    assert(out@ + strip_blocks_from(s@.skip(i as int), depth as nat) =~= out@);
    out
}

/// Visible text: override blocks removed, `\N` and `\n` dropped, `\h` as a
/// space, then trimmed.
pub open spec fn plaintext_spec(text: Seq<char>) -> Seq<char> {
    trim(
        replace_seq(
            replace_seq(replace_seq(strip_blocks(text), "\\N"@, seq![]), "\\n"@, seq![]),
            "\\h"@,
            seq![' '],
        ),
    )
}

pub fn plaintext_chars(text: &[char]) -> (r: Vec<char>)
    ensures
        r@ == plaintext_spec(text@),
{
    let stripped = strip_blocks_chars(text);
    let empty: Vec<char> = Vec::new();
    let space: Vec<char> = vec![' '];
    let p1 = chars_of("\\N");
    let p2 = chars_of("\\n");
    let p3 = chars_of("\\h");
    proof {
        reveal_strlit("\\N");
        reveal_strlit("\\n");
        reveal_strlit("\\h");
    }
    let a = replace_chars(&stripped, &p1, &empty);
    let b = replace_chars(&a, &p2, &empty);
    let c = replace_chars(&b, &p3, &space);
    assert(space@ =~= seq![' ']);
    assert(empty@ =~= Seq::<char>::empty());
    let (x, y) = trim_bounds(&c);
    copy_range(&c, x, y)
}

/// Strips `{...}` override blocks and `\N` / `\n` / `\h` breaks.
/// Used for emptiness checks so tag-only events count as empty.
pub fn plaintext(text: &str) -> (r: String)
    ensures
        r@ == plaintext_spec(text@),
{
    let v = chars_of(text);
    let p = plaintext_chars(&v);
    string_of(&p)
}

/// File extensions (no dot, lowercase) this toolkit can parse.
pub fn supported_exts() -> (r: Vec<&'static str>)
    ensures
        r@.len() == 4,
        r@[0]@ == "srt"@,
        r@[1]@ == "ass"@,
        r@[2]@ == "ssa"@,
        r@[3]@ == "vtt"@,
{
    vec!["srt", "ass", "ssa", "vtt"]
}

proof fn lemma_strip_blocks_no_brace(s: Seq<char>, d: nat)
    ensures
        no_char(strip_blocks_from(s, d), '{'),
    decreases s.len(),
{
    if s.len() > 0 {
        if s[0] == '{' {
            lemma_strip_blocks_no_brace(s.drop_first(), d + 1);
        } else if s[0] == '}' && d > 0 {
            lemma_strip_blocks_no_brace(s.drop_first(), (d - 1) as nat);
        } else {
            lemma_strip_blocks_no_brace(s.drop_first(), d);
            if d == 0 {
                let r = seq![s[0]] + strip_blocks_from(s.drop_first(), 0);
                assert forall|k: int| 0 <= k < r.len() implies r[k] != '{' by {
                    if k > 0 {
                        assert(r[k] == strip_blocks_from(s.drop_first(), 0)[k - 1]);
                    }
                }
            }
        }
    }
}

proof fn lemma_strip_blocks_plain_text(s: Seq<char>)
    requires
        no_char(s, '{'),
    ensures
        strip_blocks_from(s, 0) == s,
    decreases s.len(),
{
    if s.len() > 0 {
        lemma_strip_blocks_plain_text(s.drop_first());
        assert(seq![s[0]] + s.drop_first() =~= s);
    }
}

/// Replacing with text that lacks `c` keeps out a `c` the input lacks.
proof fn lemma_replace_keeps_out(s: Seq<char>, pat: Seq<char>, rep: Seq<char>, c: char)
    requires
        no_char(s, c),
        no_char(rep, c),
    ensures
        no_char(replace_seq(s, pat, rep), c),
    decreases s.len(),
{
    if s.len() > 0 {
        if pat.len() > 0 && starts_with(s, pat) {
            let t = s.skip(pat.len() as int);
            assert forall|k: int| 0 <= k < t.len() implies t[k] != c by {
                assert(t[k] == s[k + pat.len()]);
            }
            lemma_replace_keeps_out(t, pat, rep, c);
            let r = rep + replace_seq(t, pat, rep);
            assert forall|k: int| 0 <= k < r.len() implies r[k] != c by {
                if k >= rep.len() {
                    assert(r[k] == replace_seq(t, pat, rep)[k - rep.len()]);
                }
            }
        } else {
            let t = s.drop_first();
            lemma_replace_keeps_out(t, pat, rep, c);
            let r = seq![s[0]] + replace_seq(t, pat, rep);
            assert forall|k: int| 0 <= k < r.len() implies r[k] != c by {
                if k > 0 {
                    assert(r[k] == replace_seq(t, pat, rep)[k - 1]);
                }
            }
        }
    }
}

/// Visible text never holds `{` and is already trimmed; text without
/// braces and backslashes shows as itself, trimmed.
pub proof fn law_plaintext_visible(text: Seq<char>)
    ensures
        no_char(plaintext_spec(text), '{'),
        trim(plaintext_spec(text)) == plaintext_spec(text),
        no_char(text, '{') && no_char(text, '}') && no_char(text, '\\') ==> plaintext_spec(text)
            == trim(text),
{
    reveal_strlit("\\N");
    reveal_strlit("\\n");
    reveal_strlit("\\h");
    let a = strip_blocks(text);
    lemma_strip_blocks_no_brace(text, 0);
    let b = replace_seq(a, "\\N"@, seq![]);
    lemma_replace_keeps_out(a, "\\N"@, seq![], '{');
    let c = replace_seq(b, "\\n"@, seq![]);
    lemma_replace_keeps_out(b, "\\n"@, seq![], '{');
    let d = replace_seq(c, "\\h"@, seq![' ']);
    lemma_replace_keeps_out(c, "\\h"@, seq![' '], '{');
    lemma_trim_facts(d, '{');
    if no_char(text, '{') && no_char(text, '}') && no_char(text, '\\') {
        lemma_strip_blocks_plain_text(text);
        lemma_replace_noop(text, "\\N"@, seq![]);
        lemma_replace_noop(text, "\\n"@, seq![]);
        lemma_replace_noop(text, "\\h"@, seq![' ']);
    }
}

} // verus!
