//! Loading and saving by file extension, and extension lists.
use vstd::prelude::*;
use crate::subs::{
    ass, srt, standard_columns_spec, strings_view, vtt, ParseError, SubFile, SubFileView,
    SubFormat,
};
use crate::subs::ass::{ass_parse_spec, ass_text};
use crate::subs::srt::{srt_parse_spec, srt_text};
use crate::subs::vtt::{vtt_has_header, vtt_header_spec, vtt_parse_spec, vtt_text};
use crate::text::{
    ascii_lowercase_known, chars_eq, chars_of, copy_range, lowercase_spec, split_char, split_chars, string_of, to_lowercase,
    trim, trim_bounds, vecs_view,
};

verus! {

/// The format a lower-cased extension names, if any.
pub open spec fn format_of_ext(l: Seq<char>) -> Option<SubFormat> {
    if l == "srt"@ {
        Some(SubFormat::Srt)
    } else if l == "ass"@ || l == "ssa"@ {
        Some(SubFormat::Ass)
    } else if l == "vtt"@ {
        Some(SubFormat::Vtt)
    } else {
        None
    }
}

/// The format of an already lower-cased extension.
pub fn format_of_lower_ext(l: &[char]) -> (r: Option<SubFormat>)
    ensures
        r == format_of_ext(l@),
{
    let srt = chars_of("srt");
    let ass = chars_of("ass");
    let ssa = chars_of("ssa");
    let vtt = chars_of("vtt");
    if chars_eq(l, &srt) {
        Some(SubFormat::Srt)
    } else if chars_eq(l, &ass) || chars_eq(l, &ssa) {
        Some(SubFormat::Ass)
    } else if chars_eq(l, &vtt) {
        Some(SubFormat::Vtt)
    } else {
        None
    }
}

/// What parsing `text` as format `f` gives.
pub open spec fn parse_result(f: SubFormat, t: Seq<char>) -> Result<SubFileView, ParseError> {
    match f {
        SubFormat::Srt => if srt_parse_spec(t).len() > 0 {
            Ok(
                SubFileView {
                    format: SubFormat::Srt,
                    events: srt_parse_spec(t),
                    header: seq![],
                    ass_columns: standard_columns_spec(),
                },
            )
        } else {
            Err(ParseError::NoSrtCues)
        },
        SubFormat::Ass => if ass_parse_spec(t).events.len() > 0 {
            Ok(
                SubFileView {
                    format: SubFormat::Ass,
                    events: ass_parse_spec(t).events,
                    header: ass_parse_spec(t).header,
                    ass_columns: ass_parse_spec(t).ass_columns,
                },
            )
        } else {
            Err(ParseError::NoAssDialogues)
        },
        SubFormat::Vtt => if !vtt_has_header(t) {
            Err(ParseError::MissingVttHeader)
        } else if vtt_parse_spec(t).len() == 0 {
            Err(ParseError::NoVttCues)
        } else {
            Ok(
                SubFileView {
                    format: SubFormat::Vtt,
                    events: vtt_parse_spec(t),
                    header: vtt_header_spec(t),
                    ass_columns: standard_columns_spec(),
                },
            )
        },
    }
}

/// Why a subtitle text could not be loaded.
#[derive(Debug)]
pub enum LoadError {
    /// The (lower-cased) extension names no supported format.
    Unsupported(String),
    /// The text did not parse in the format its extension names.
    Parse(ParseError),
}

pub enum LoadErrorView {
    Unsupported(Seq<char>),
    Parse(ParseError),
}

impl View for LoadError {
    type V = LoadErrorView;

    open spec fn view(&self) -> LoadErrorView {
        match self {
            LoadError::Unsupported(s) => LoadErrorView::Unsupported(s@),
            LoadError::Parse(e) => LoadErrorView::Parse(*e),
        }
    }
}

/// What loading `text` under the extension `ext` gives.
pub open spec fn load_result(ext: Seq<char>, t: Seq<char>) -> Result<SubFileView, LoadErrorView> {
    match format_of_ext(lowercase_spec(ext)) {
        None => Err(LoadErrorView::Unsupported(lowercase_spec(ext))),
        Some(f) => match parse_result(f, t) {
            Ok(v) => Ok(v),
            Err(e) => Err(LoadErrorView::Parse(e)),
        },
    }
}

/// Parses subtitle text in the format its file extension names
/// (case-insensitive: `srt`, `ass`/`ssa`, `vtt`).
pub fn load_any(ext: &str, text: &str) -> (r: Result<SubFile, LoadError>)
    ensures
        match load_result(ext@, text@) {
            Ok(v) => r matches Ok(f) && f@ == v,
            Err(e) => r matches Err(x) && x@ == e,
        },
        ascii_lowercase_known(ext@),
{
    let e = chars_of(ext);
    let l = to_lowercase(&e);
    match format_of_lower_ext(&l) {
        None => Err(LoadError::Unsupported(string_of(&l))),
        Some(SubFormat::Srt) => match srt::parse(text) {
            Ok(f) => {
                assert(f@.header =~= Seq::<Seq<char>>::empty());
                Ok(f)
            },
            Err(x) => Err(LoadError::Parse(x)),
        },
        Some(SubFormat::Ass) => match ass::parse(text) {
            Ok(f) => Ok(f),
            Err(x) => Err(LoadError::Parse(x)),
        },
        Some(SubFormat::Vtt) => match vtt::parse(text) {
            Ok(f) => Ok(f),
            Err(x) => Err(LoadError::Parse(x)),
        },
    }
}

/// The text a file serializes to in its own format.
pub open spec fn save_any_spec(f: SubFileView) -> Seq<char> {
    match f.format {
        SubFormat::Srt => srt_text(f.events),
        SubFormat::Ass => ass_text(f),
        SubFormat::Vtt => vtt_text(f),
    }
}

/// Serializes a subtitle file in its own format.
pub fn save_any(file: &SubFile) -> (r: String)
    ensures
        r@ == save_any_spec(file@),
{
    match file.format {
        SubFormat::Srt => srt::serialize(file),
        SubFormat::Ass => ass::serialize(file),
        SubFormat::Vtt => vtt::serialize(file),
    }
}

/// `s` with every leading `c` removed (`trim_start_matches`).
pub open spec fn strip_leading(s: Seq<char>, c: char) -> Seq<char>
    decreases s.len(),
{
    if s.len() > 0 && s[0] == c {
        strip_leading(s.drop_first(), c)
    } else {
        s
    }
}

/// An extension as given by a user, normalized: trimmed, leading dots
/// removed, lower-cased.
pub open spec fn norm_ext(s: Seq<char>) -> Seq<char> {
    lowercase_spec(strip_leading(trim(s), '.'))
}

proof fn lemma_strip_leading_skip(s: Seq<char>, c: char, i: int)
    requires
        0 <= i <= s.len(),
        forall|k: int| 0 <= k < i ==> s[k] == c,
    ensures
        strip_leading(s, c) == strip_leading(s.skip(i), c),
    decreases i,
{
    if i > 0 {
        assert(s.drop_first().skip(i - 1) =~= s.skip(i));
        lemma_strip_leading_skip(s.drop_first(), c, i - 1);
    } else {
        assert(s.skip(0) =~= s);
    }
}

fn norm_ext_chars(s: &[char]) -> (r: Vec<char>)
    ensures
        r@ == norm_ext(s@),
{
    let (a, b) = trim_bounds(s);
    let mut i = a;
    while i < b && s[i] == '.'
        invariant
            a <= i <= b <= s@.len(),
            forall|k: int| a <= k < i ==> s@[k] == '.',
        decreases b - i,
    {
        i = i + 1;
    }
    let t = copy_range(s, i, b);
    proof {
        let tr = s@.subrange(a as int, b as int);
        assert(tr.skip(i - a) =~= t@);
        lemma_strip_leading_skip(tr, '.', i - a);
    }
    to_lowercase(&t)
}

/// The normalized extensions of a list, empty ones dropped.
pub open spec fn ext_list(parts: Seq<Seq<char>>) -> Seq<Seq<char>>
    decreases parts.len(),
{
    if parts.len() == 0 {
        seq![]
    } else {
        let rest = ext_list(parts.drop_last());
        let x = norm_ext(parts.last());
        if x.len() > 0 {
            rest.push(x)
        } else {
            rest
        }
    }
}

/// Splits a comma-separated extension list such as `".srt, .ASS"` into
/// normalized extensions (no dots, lower case); empty entries are dropped.
pub fn parse_ext_list(raw: &str) -> (r: Vec<String>)
    ensures
        strings_view(r@) == ext_list(split_char(raw@, ',')),
{
    let v = chars_of(raw);
    let parts = split_chars(&v, ',');
    let ghost ps = vecs_view(parts@);
    let mut r: Vec<String> = Vec::new();
    let mut k: usize = 0;
    while k < parts.len()
        invariant
            k <= parts@.len(),
            ps == vecs_view(parts@),
            strings_view(r@) == ext_list(ps.take(k as int)),
        decreases parts@.len() - k,
    {
        let x = norm_ext_chars(&parts[k]);
        assert(ps.take(k + 1).drop_last() =~= ps.take(k as int));
        if x.len() > 0 {
            r.push(string_of(&x));
            assert(strings_view(r@) =~= ext_list(ps.take(k as int)).push(x@));
        }
        k = k + 1;
    }
    assert(ps.take(parts@.len() as int) =~= ps);
    r
}

/// The normalized extensions of a list that name a supported format.
pub open spec fn wanted_list(exts: Seq<Seq<char>>) -> Seq<Seq<char>>
    decreases exts.len(),
{
    if exts.len() == 0 {
        seq![]
    } else {
        let rest = wanted_list(exts.drop_last());
        let x = norm_ext(exts.last());
        if format_of_ext(x) is Some {
            rest.push(x)
        } else {
            rest
        }
    }
}

/// The requested extensions that name a supported format, normalized;
/// `None` when none of them does.
pub fn wanted_exts(exts: &[String]) -> (r: Option<Vec<String>>)
    ensures
        wanted_list(strings_view(exts@)).len() == 0 ==> r is None,
        wanted_list(strings_view(exts@)).len() > 0 ==> (r matches Some(w) && strings_view(w@)
            == wanted_list(strings_view(exts@))),
{
    let ghost es = strings_view(exts@);
    let mut r: Vec<String> = Vec::new();
    let mut k: usize = 0;
    while k < exts.len()
        invariant
            k <= exts@.len(),
            es == strings_view(exts@),
            strings_view(r@) == wanted_list(es.take(k as int)),
        decreases exts@.len() - k,
    {
        let v = chars_of(exts[k].as_str());
        let x = norm_ext_chars(&v);
        assert(es.take(k + 1).drop_last() =~= es.take(k as int));
        if format_of_lower_ext(&x).is_some() {
            r.push(string_of(&x));
            assert(strings_view(r@) =~= wanted_list(es.take(k as int)).push(x@));
        }
        k = k + 1;
    }
    assert(es.take(exts@.len() as int) =~= es);
    if r.len() == 0 {
        None
    } else {
        Some(r)
    }
}

/// Whether a file extension (compared in lower case) is among `wanted`.
pub fn ext_wanted(wanted: &[String], ext: &str) -> (b: bool)
    ensures
        b == strings_view(wanted@).contains(lowercase_spec(ext@)),
        ascii_lowercase_known(ext@),
{
    let e = chars_of(ext);
    let l = to_lowercase(&e);
    let mut k: usize = 0;
    while k < wanted.len()
        invariant
            k <= wanted@.len(),
            l@ == lowercase_spec(ext@),
            ascii_lowercase_known(ext@),
            forall|m: int| 0 <= m < k ==> wanted@[m]@ != l@,
        decreases wanted@.len() - k,
    {
        let w = chars_of(wanted[k].as_str());
        if chars_eq(&w, &l) {
            assert(strings_view(wanted@)[k as int] == l@);
            return true;
        }
        k = k + 1;
    }
    assert forall|m: int| 0 <= m < strings_view(wanted@).len() implies strings_view(wanted@)[m]
        != l@ by {
        assert(wanted@[m]@ != l@);
    }
    false
}

} // verus!
