//! Conversion between SRT, ASS and VTT: timing kept, line breaks, tags and
//! styles remapped.
use vstd::prelude::*;
use crate::pattern::{fixed_remove_all, fixed_strip};
use crate::subs::batch::{
    format_of_ext, format_of_lower_ext, load_any, load_result, save_any, save_any_spec, LoadError,
};
use crate::subs::{
    events_view, standard_columns, standard_columns_spec, strings_view,
    strip_blocks, strip_blocks_chars, strip_blocks_from, Event, EventView, SubFile, SubFileView, SubFormat,
};
use crate::text::{
    ascii_lowercase_known, chars_of, lowercase_spec, no_char, replace_chars, replace_seq, starts_with, str_to_string,
    string_of, to_lowercase,
};

verus! {

/// VTT cue-payload tags such as `<v Speaker>`, `<i>`, `<c.color>`.
pub const VTT_TAG: &'static str = "<[^>\\n]*>";

/// Short lower-case name of a format.
pub fn format_name(f: SubFormat) -> (r: &'static str)
    ensures
        r@ == format_name_spec(f),
{
    match f {
        SubFormat::Srt => "srt",
        SubFormat::Ass => "ass",
        SubFormat::Vtt => "vtt",
    }
}

pub open spec fn format_name_spec(f: SubFormat) -> Seq<char> {
    match f {
        SubFormat::Srt => "srt"@,
        SubFormat::Ass => "ass"@,
        SubFormat::Vtt => "vtt"@,
    }
}

/// Why a conversion could not be done.
#[derive(Debug)]
pub enum ConvertError {
    /// The input could not be loaded.
    Load(LoadError),
    /// The output extension (lower-cased) names no supported format.
    UnsupportedTarget(String),
}

/// Target format of an output file extension (case-insensitive).
pub fn target_format(ext: &str) -> (r: Result<SubFormat, ConvertError>)
    ensures
        match format_of_ext(lowercase_spec(ext@)) {
            Some(f) => r matches Ok(g) && g == f,
            None => r matches Err(ConvertError::UnsupportedTarget(l)) && l@ == lowercase_spec(ext@),
        },
        ascii_lowercase_known(ext@),
{
    let e = chars_of(ext);
    let l = to_lowercase(&e);
    match format_of_lower_ext(&l) {
        Some(f) => Ok(f),
        None => Err(ConvertError::UnsupportedTarget(string_of(&l))),
    }
}

/// ASS text as plain text: `{...}` blocks removed, `\N` and `\n` as real
/// newlines, `\h` as a space.
pub open spec fn ass_plain_spec(text: Seq<char>) -> Seq<char> {
    replace_seq(
        replace_seq(replace_seq(strip_blocks(text), "\\N"@, "\n"@), "\\n"@, "\n"@),
        "\\h"@,
        " "@,
    )
}

fn ass_to_plain(text: &str) -> (r: Vec<char>)
    ensures
        r@ == ass_plain_spec(text@),
{
    let v = chars_of(text);
    let stripped = strip_blocks_chars(&v);
    let p1 = chars_of("\\N");
    let p2 = chars_of("\\n");
    let p3 = chars_of("\\h");
    let nl = chars_of("\n");
    let sp = chars_of(" ");
    proof {
        reveal_strlit("\\N");
        reveal_strlit("\\n");
        reveal_strlit("\\h");
    }
    let a = replace_chars(&stripped, &p1, &nl);
    let b = replace_chars(&a, &p2, &nl);
    replace_chars(&b, &p3, &sp)
}

/// VTT cue text without its tags.
fn strip_vtt_tags(text: &str) -> (r: String)
    ensures
        r@ == fixed_strip(VTT_TAG@, text@),
{
    fixed_remove_all(VTT_TAG, text)
}

/// Cue text carried from format `from` to format `target`.
pub open spec fn map_text_spec(from: SubFormat, target: SubFormat, text: Seq<char>) -> Seq<char> {
    let plain = match from {
        SubFormat::Ass => ass_plain_spec(text),
        SubFormat::Vtt => fixed_strip(VTT_TAG@, text),
        SubFormat::Srt => text,
    };
    if target == SubFormat::Ass {
        replace_seq(plain, "\n"@, "\\N"@)
    } else {
        plain
    }
}

fn map_text(from: SubFormat, target: SubFormat, text: &str) -> (r: String)
    ensures
        r@ == map_text_spec(from, target, text@),
{
    let plain: Vec<char> = match from {
        SubFormat::Ass => ass_to_plain(text),
        SubFormat::Vtt => {
            let s = strip_vtt_tags(text);
            chars_of(s.as_str())
        },
        SubFormat::Srt => chars_of(text),
    };
    if target == SubFormat::Ass {
        let nl = chars_of("\n");
        let br = chars_of("\\N");
        proof {
            reveal_strlit("\n");
        }
        string_of(&replace_chars(&plain, &nl, &br))
    } else {
        string_of(&plain)
    }
}

/// The header written for files converted to ASS.
pub open spec fn ass_header_spec() -> Seq<Seq<char>> {
    seq![
        "[Script Info]"@,
        "Title: Converted"@,
        "ScriptType: v4.00+"@,
        "WrapStyle: 0"@,
        "ScaledBorderAndShadow: yes"@,
        seq![],
        "[V4+ Styles]"@,
        "Format: Name, Fontname, Fontsize, PrimaryColour, SecondaryColour, OutlineColour, BackColour, Bold, Italic, Underline, StrikeOut, ScaleX, ScaleY, Spacing, Angle, BorderStyle, Outline, Shadow, Alignment, MarginL, MarginR, MarginV, Encoding"@,
        "Style: Default,Arial,20,&H00FFFFFF,&H000000FF,&H00000000,&H00000000,0,0,0,0,100,100,0,0,1,2,2,2,10,10,10,1"@,
        seq![],
        "[Events]"@,
        "Format: Layer, Start, End, Style, Name, MarginL, MarginR, MarginV, Effect, Text"@,
    ]
}

fn ass_header() -> (r: Vec<String>)
    ensures
        strings_view(r@) == ass_header_spec(),
{
    let r = vec![
        str_to_string("[Script Info]"),
        str_to_string("Title: Converted"),
        str_to_string("ScriptType: v4.00+"),
        str_to_string("WrapStyle: 0"),
        str_to_string("ScaledBorderAndShadow: yes"),
        String::new(),
        str_to_string("[V4+ Styles]"),
        str_to_string(
            "Format: Name, Fontname, Fontsize, PrimaryColour, SecondaryColour, OutlineColour, BackColour, Bold, Italic, Underline, StrikeOut, ScaleX, ScaleY, Spacing, Angle, BorderStyle, Outline, Shadow, Alignment, MarginL, MarginR, MarginV, Encoding",
        ),
        str_to_string(
            "Style: Default,Arial,20,&H00FFFFFF,&H000000FF,&H00000000,&H00000000,0,0,0,0,100,100,0,0,1,2,2,2,10,10,10,1",
        ),
        String::new(),
        str_to_string("[Events]"),
        str_to_string("Format: Layer, Start, End, Style, Name, MarginL, MarginR, MarginV, Effect, Text"),
    ];
    assert(strings_view(r@) =~= ass_header_spec());
    r
}

/// An event carried to another format: text remapped, an empty style
/// becomes `Default` in ASS, ASS/VTT-only fields cleared.
pub open spec fn convert_event(e: EventView, from: SubFormat, target: SubFormat) -> EventView {
    EventView {
        start_ms: e.start_ms,
        end_ms: e.end_ms,
        style: if target == SubFormat::Ass && e.style.len() == 0 {
            "Default"@
        } else {
            e.style
        },
        name: seq![],
        effect: seq![],
        text: map_text_spec(from, target, e.text),
        layer: 0,
        margin_l: seq![],
        margin_r: seq![],
        margin_v: seq![],
        extra: seq![],
    }
}

/// A file converted to `target`; unchanged when already in that format.
pub open spec fn convert_spec(f: SubFileView, target: SubFormat) -> SubFileView {
    if f.format == target {
        f
    } else {
        SubFileView {
            format: target,
            events: f.events.map_values(|e: EventView| convert_event(e, f.format, target)),
            header: if target == SubFormat::Ass {
                ass_header_spec()
            } else if target == SubFormat::Vtt {
                seq!["WEBVTT"@]
            } else {
                seq![]
            },
            ass_columns: if target == SubFormat::Ass {
                standard_columns_spec()
            } else {
                f.ass_columns
            },
        }
    }
}

/// Converts parsed subtitles to the target format, remapping line breaks,
/// tags and styles. Timing is preserved exactly.
pub fn convert(file: SubFile, target: SubFormat) -> (r: SubFile)
    ensures
        r@ == convert_spec(file@, target),
{
    let ghost input = file@;
    let mut file = file;
    let from = file.format;
    if from != target {
        let ghost orig = events_view(file.events@);
        let mut k: usize = 0;
        while k < file.events.len()
            invariant
                k <= file.events@.len() == orig.len(),
                from == file.format,
                from != target,
                file@.ass_columns == input.ass_columns,
                forall|m: int| 0 <= m < k ==> (#[trigger] file.events@[m])@ == convert_event(orig[m], from, target),
                forall|m: int| k <= m < file.events@.len() ==> (#[trigger] file.events@[m])@ == orig[m],
            decreases file.events@.len() - k,
        {
            let e = &file.events[k];
            assert(e@ == orig[k as int]);
            let text = map_text(from, target, e.text.as_str());
            let style = if target == SubFormat::Ass && e.style.as_str().unicode_len() == 0 {
                str_to_string("Default")
            } else {
                e.style.clone()
            };
            let ne = Event {
                start_ms: e.start_ms,
                end_ms: e.end_ms,
                style,
                name: String::new(),
                effect: String::new(),
                text,
                layer: 0,
                margins: [String::new(), String::new(), String::new()],
                extra: String::new(),
            };
            let ghost before = file.events@;
            file.events.set(k, ne);
            assert forall|m: int| 0 <= m < file.events@.len() && m != k implies file.events@[m]
                == before[m] by {}
            k = k + 1;
        }
        assert(events_view(file.events@) =~= orig.map_values(
            |e: EventView| convert_event(e, from, target),
        ));
        if target == SubFormat::Ass {
            file.header = ass_header();
            file.ass_columns = standard_columns();
        } else {
            file.header = if target == SubFormat::Vtt {
                let h = vec![str_to_string("WEBVTT")];
                assert(strings_view(h@) =~= seq!["WEBVTT"@]);
                h
            } else {
                let h: Vec<String> = Vec::new();
                assert(strings_view(h@) =~= Seq::<Seq<char>>::empty());
                h
            };
        }
        file.format = target;
        assert(file@.events == convert_spec(input, target).events);
        assert(file@.header == convert_spec(input, target).header);
        assert(file@.ass_columns == convert_spec(input, target).ass_columns);
    }
    file
}

/// Conversion keeps timing bit-identical: the same number of events, each
/// with the same start and end.
pub proof fn law_convert_keeps_timing(f: SubFileView, target: SubFormat)
    ensures
        convert_spec(f, target).events.len() == f.events.len(),
        forall|i: int|
            0 <= i < f.events.len() ==> (#[trigger] convert_spec(f, target).events[i]).start_ms
                == f.events[i].start_ms && convert_spec(f, target).events[i].end_ms
                == f.events[i].end_ms,
        convert_spec(f, target).format == target,
{
}

proof fn lemma_replace_absent(s: Seq<char>, pat: Seq<char>, rep: Seq<char>)
    requires
        pat.len() > 0,
        no_char(s, pat[0]),
    ensures
        replace_seq(s, pat, rep) == s,
    decreases s.len(),
{
    if s.len() > 0 {
        assert(!starts_with(s, pat)) by {
            if starts_with(s, pat) {
                assert(s.take(pat.len() as int)[0] == s[0]);
            }
        }
        lemma_replace_absent(s.drop_first(), pat, rep);
        assert(seq![s[0]] + s.drop_first() =~= s);
    }
}

proof fn lemma_strip_blocks_plain(s: Seq<char>)
    requires
        no_char(s, '{'),
    ensures
        strip_blocks_from(s, 0) == s,
    decreases s.len(),
{
    if s.len() > 0 {
        lemma_strip_blocks_plain(s.drop_first());
        assert(seq![s[0]] + s.drop_first() =~= s);
    }
}

/// Breaks written as `\N` read back as line breaks, in text without
/// backslashes; the result holds no `{` when the text holds none.
proof fn lemma_breaks_back(t: Seq<char>)
    requires
        no_char(t, '\\'),
    ensures
        replace_seq(replace_seq(t, "\n"@, "\\N"@), "\\N"@, "\n"@) == t,
        no_char(t, '{') ==> no_char(replace_seq(t, "\n"@, "\\N"@), '{'),
    decreases t.len(),
{
    reveal_strlit("\n");
    reveal_strlit("\\N");
    let nl = "\n"@;
    let br = "\\N"@;
    if t.len() > 0 {
        let rest = t.drop_first();
        lemma_breaks_back(rest);
        let r1 = replace_seq(rest, nl, br);
        if t[0] == '\n' {
            assert(starts_with(t, nl)) by {
                assert(t.take(1) =~= nl);
            }
            assert(t.skip(1) =~= rest);
            assert(replace_seq(t, nl, br) == br + r1);
            let u = br + r1;
            assert(starts_with(u, br)) by {
                assert(u.take(2) =~= br);
            }
            assert(u.skip(2) =~= r1);
            assert(replace_seq(u, br, nl) == nl + replace_seq(r1, br, nl));
            assert(nl + rest =~= t);
            if no_char(t, '{') {
                assert(no_char(rest, '{'));
                assert forall|k: int| 0 <= k < u.len() implies u[k] != '{' by {
                    if k >= 2 {
                        assert(u[k] == r1[k - 2]);
                    }
                }
            }
        } else {
            assert(!starts_with(t, nl)) by {
                if starts_with(t, nl) {
                    assert(t.take(1)[0] == t[0]);
                }
            }
            assert(replace_seq(t, nl, br) == seq![t[0]] + r1);
            let u = seq![t[0]] + r1;
            assert(t[0] != '\\');
            assert(!starts_with(u, br)) by {
                if starts_with(u, br) {
                    assert(u.take(2)[0] == u[0]);
                }
            }
            assert(u.drop_first() =~= r1);
            assert(replace_seq(u, br, nl) == seq![t[0]] + replace_seq(r1, br, nl));
            assert(seq![t[0]] + rest =~= t);
            if no_char(t, '{') {
                assert(no_char(rest, '{'));
                assert forall|k: int| 0 <= k < u.len() implies u[k] != '{' by {
                    if k >= 1 {
                        assert(u[k] == r1[k - 1]);
                    }
                }
            }
        }
    }
}

/// Carrying SRT text to ASS and back gives it back unchanged, for text
/// without backslashes and `{` (which ASS reads as markup).
pub proof fn law_srt_ass_srt_text(t: Seq<char>)
    requires
        no_char(t, '\\'),
        no_char(t, '{'),
    ensures
        map_text_spec(
            SubFormat::Ass,
            SubFormat::Srt,
            map_text_spec(SubFormat::Srt, SubFormat::Ass, t),
        ) == t,
{
    reveal_strlit("\n");
    reveal_strlit("\\N");
    reveal_strlit("\\n");
    reveal_strlit("\\h");
    reveal_strlit(" ");
    let a = replace_seq(t, "\n"@, "\\N"@);
    lemma_breaks_back(t);
    lemma_strip_blocks_plain(a);
    let b = replace_seq(a, "\\N"@, "\n"@);
    assert(b == t);
    lemma_replace_absent(b, "\\n"@, "\n"@);
    lemma_replace_absent(b, "\\h"@, " "@);
}

/// `s` has `a` at `k` and `b` right after it.
pub open spec fn pair_at(s: Seq<char>, k: int, a: char, b: char) -> bool {
    s[k] == a && s[k + 1] == b
}

/// `s` never has `a` directly followed by `b`.
pub open spec fn no_pair(s: Seq<char>, a: char, b: char) -> bool {
    forall|k: int| 0 <= k && k + 1 < s.len() ==> !#[trigger] pair_at(s, k, a, b)
}

proof fn lemma_starts_with_escape(s: Seq<char>, x: char)
    ensures
        starts_with(s, seq!['\\', x]) <==> (s.len() >= 2 && s[0] == '\\' && s[1] == x),
{
    let p = seq!['\\', x];
    if s.len() >= 2 && s[0] == '\\' && s[1] == x {
        assert(s.take(2) =~= p);
    }
    if starts_with(s, p) {
        assert(s.take(2)[0] == s[0]);
        assert(s.take(2)[1] == s[1]);
    }
}

/// Replacing every escape `\x` by the single character `c` leaves no `\x`
/// behind, and creates no escape `\y` that was not there.
proof fn lemma_replace_escape(s: Seq<char>, x: char, c: char, y: char)
    requires
        c != '\\',
        c != x,
        c != y,
    ensures
        no_pair(replace_seq(s, seq!['\\', x], seq![c]), '\\', x),
        no_pair(s, '\\', y) ==> no_pair(replace_seq(s, seq!['\\', x], seq![c]), '\\', y),
        s.len() > 0 ==> replace_seq(s, seq!['\\', x], seq![c]).len() > 0,
        s.len() > 0 ==> replace_seq(s, seq!['\\', x], seq![c])[0] == if starts_with(
            s,
            seq!['\\', x],
        ) {
            c
        } else {
            s[0]
        },
    decreases s.len(),
{
    let p = seq!['\\', x];
    let q = seq![c];
    let r = replace_seq(s, p, q);
    if s.len() > 0 {
        lemma_starts_with_escape(s, x);
        if starts_with(s, p) {
            let t = s.skip(2);
            lemma_replace_escape(t, x, c, y);
            let r2 = replace_seq(t, p, q);
            assert(r == q + r2);
            assert forall|k: int| 0 <= k && k + 1 < r.len() implies !#[trigger] pair_at(r, k, '\\', x) by {
                if k >= 1 {
                    assert(r[k] == r2[k - 1]);
                    assert(r[k + 1] == r2[k]);
                    assert(!pair_at(r2, k - 1, '\\', x));
                }
            }
            if no_pair(s, '\\', y) {
                assert forall|k: int| 0 <= k < t.len() - 1 implies !#[trigger] pair_at(t, k, '\\', y) by {
                    assert(t[k] == s[k + 2]);
                    assert(t[k + 1] == s[k + 3]);
                    assert(!pair_at(s, k + 2, '\\', y));
                }
                assert forall|k: int| 0 <= k && k + 1 < r.len() implies !#[trigger] pair_at(r, k, '\\', y) by {
                    if k >= 1 {
                        assert(r[k] == r2[k - 1]);
                        assert(r[k + 1] == r2[k]);
                        assert(!pair_at(r2, k - 1, '\\', y));
                    }
                }
            }
        } else {
            let t = s.drop_first();
            lemma_replace_escape(t, x, c, y);
            let r2 = replace_seq(t, p, q);
            assert(r == seq![s[0]] + r2);
            if t.len() > 0 {
                lemma_starts_with_escape(t, x);
            }
            assert forall|k: int| 0 <= k && k + 1 < r.len() implies !#[trigger] pair_at(r, k, '\\', x) by {
                if k >= 1 {
                    assert(r[k] == r2[k - 1]);
                    assert(r[k + 1] == r2[k]);
                    assert(!pair_at(r2, k - 1, '\\', x));
                } else {
                    assert(r[1] == r2[0]);
                }
            }
            if no_pair(s, '\\', y) {
                assert forall|k: int| 0 <= k < t.len() - 1 implies !#[trigger] pair_at(t, k, '\\', y) by {
                    assert(t[k] == s[k + 1]);
                    assert(t[k + 1] == s[k + 2]);
                    assert(!pair_at(s, k + 1, '\\', y));
                }
                assert forall|k: int| 0 <= k && k + 1 < r.len() implies !#[trigger] pair_at(r, k, '\\', y) by {
                    if k >= 1 {
                        assert(r[k] == r2[k - 1]);
                        assert(r[k + 1] == r2[k]);
                        assert(!pair_at(r2, k - 1, '\\', y));
                    } else {
                        assert(r[1] == r2[0]);
                        assert(!pair_at(s, 0, '\\', y));
                    }
                }
            }
        }
    }
}

/// ASS text carried to SubRip or WebVTT is the same text for both, holds
/// no `\N`, `\n` or `\h` escape, and is left as it is when it has no
/// override block and no backslash.
pub proof fn law_ass_text_leaves_no_escapes(text: Seq<char>, target: SubFormat)
    requires
        target != SubFormat::Ass,
    ensures
        map_text_spec(SubFormat::Ass, target, text) == map_text_spec(SubFormat::Ass, SubFormat::Srt, text),
        no_pair(map_text_spec(SubFormat::Ass, target, text), '\\', 'N'),
        no_pair(map_text_spec(SubFormat::Ass, target, text), '\\', 'n'),
        no_pair(map_text_spec(SubFormat::Ass, target, text), '\\', 'h'),
        no_char(text, '{') && no_char(text, '\\') ==> map_text_spec(SubFormat::Ass, target, text)
            == text,
{
    reveal_strlit("\\N");
    reveal_strlit("\\n");
    reveal_strlit("\\h");
    reveal_strlit("\n");
    reveal_strlit(" ");
    assert("\\N"@ =~= seq!['\\', 'N']);
    assert("\\n"@ =~= seq!['\\', 'n']);
    assert("\\h"@ =~= seq!['\\', 'h']);
    assert("\n"@ =~= seq!['\n']);
    assert(" "@ =~= seq![' ']);
    let s0 = strip_blocks(text);
    let r1 = replace_seq(s0, seq!['\\', 'N'], seq!['\n']);
    let r2 = replace_seq(r1, seq!['\\', 'n'], seq!['\n']);
    let r3 = replace_seq(r2, seq!['\\', 'h'], seq![' ']);
    assert(map_text_spec(SubFormat::Ass, target, text) == r3);
    lemma_replace_escape(s0, 'N', '\n', 'N');
    lemma_replace_escape(r1, 'n', '\n', 'N');
    lemma_replace_escape(r2, 'h', ' ', 'N');
    lemma_replace_escape(r2, 'h', ' ', 'n');
    lemma_replace_escape(r2, 'h', ' ', 'h');
    if no_char(text, '{') && no_char(text, '\\') {
        lemma_strip_blocks_plain(text);
        lemma_replace_absent(text, seq!['\\', 'N'], seq!['\n']);
        lemma_replace_absent(text, seq!['\\', 'n'], seq!['\n']);
        lemma_replace_absent(text, seq!['\\', 'h'], seq![' ']);
    }
}

proof fn lemma_replace_char_gone(s: Seq<char>, c: char, rep: Seq<char>)
    requires
        no_char(rep, c),
    ensures
        no_char(replace_seq(s, seq![c], rep), c),
    decreases s.len(),
{
    let r = replace_seq(s, seq![c], rep);
    if s.len() > 0 {
        if starts_with(s, seq![c]) {
            lemma_replace_char_gone(s.skip(1), c, rep);
            let r2 = replace_seq(s.skip(1), seq![c], rep);
            assert(r == rep + r2);
            assert forall|k: int| 0 <= k < r.len() implies r[k] != c by {
                if k >= rep.len() {
                    assert(r[k] == r2[k - rep.len()]);
                }
            }
        } else {
            lemma_replace_char_gone(s.drop_first(), c, rep);
            let r2 = replace_seq(s.drop_first(), seq![c], rep);
            assert(r == seq![s[0]] + r2);
            assert(s[0] != c) by {
                if s[0] == c {
                    assert(s.take(1) =~= seq![c]);
                }
            }
            assert forall|k: int| 0 <= k < r.len() implies r[k] != c by {
                if k >= 1 {
                    assert(r[k] == r2[k - 1]);
                }
            }
        }
    }
}

/// Text carried to ASS holds no raw line break (each became `\N`), and
/// SubRip text carried to WebVTT, or to SubRip, is left as it is.
pub proof fn law_breaks_and_plain_text(from: SubFormat, text: Seq<char>)
    ensures
        no_char(map_text_spec(from, SubFormat::Ass, text), '\n'),
        map_text_spec(SubFormat::Srt, SubFormat::Vtt, text) == text,
        map_text_spec(SubFormat::Srt, SubFormat::Srt, text) == text,
{
    reveal_strlit("\n");
    reveal_strlit("\\N");
    assert("\n"@ =~= seq!['\n']);
    assert("\\N"@ =~= seq!['\\', 'N']);
    let plain = match from {
        SubFormat::Ass => ass_plain_spec(text),
        SubFormat::Vtt => fixed_strip(VTT_TAG@, text),
        SubFormat::Srt => text,
    };
    lemma_replace_char_gone(plain, '\n', seq!['\\', 'N']);
}

/// Counts of a file conversion.
pub struct ConvertSummary {
    pub events: usize,
    pub from: &'static str,
    pub to: &'static str,
}

/// Converts subtitle text guessing formats from file extensions: the
/// input is loaded by its extension, converted to the format the output
/// extension names, and serialized. Returns the output text and a summary.
pub fn convert_file(input_ext: &str, input_text: &str, output_ext: &str) -> (r: Result<
    (String, ConvertSummary),
    ConvertError,
>)
    ensures
        match load_result(input_ext@, input_text@) {
            Err(e) => r matches Err(ConvertError::Load(x)) && x@ == e,
            Ok(f) => match format_of_ext(lowercase_spec(output_ext@)) {
                None => r matches Err(ConvertError::UnsupportedTarget(l)) && l@ == lowercase_spec(
                    output_ext@,
                ),
                Some(t) => r matches Ok((text, s)) && text@ == save_any_spec(convert_spec(f, t))
                    && s.events == f.events.len() && s.from@ == format_name_spec(f.format)
                    && s.to@ == format_name_spec(t),
            },
        },
{
    let file = match load_any(input_ext, input_text) {
        Ok(f) => f,
        Err(e) => return Err(ConvertError::Load(e)),
    };
    let from = format_name(file.format);
    let target = match target_format(output_ext) {
        Ok(t) => t,
        Err(e) => return Err(e),
    };
    let to = format_name(target);
    let events = file.events.len();
    let converted = convert(file, target);
    let text = save_any(&converted);
    Ok((text, ConvertSummary { events, from, to }))
}

} // verus!
