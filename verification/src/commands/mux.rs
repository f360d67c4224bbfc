//! Muxing video, audio and subtitles with ffmpeg: argument lists, the
//! `subtitles` filter path escaping and batch matching by file stem.
use vstd::prelude::*;
use crate::commands::{is_one_of, names_view};
use crate::num::{decimal, padded, push_padded};
use crate::text::{
    ascii_lowercase_known, ascii_lower, ascii_lower_char, chars_eq, chars_of, copy_range, lowercase_spec, push_all,
    push_str, split_char, starts_with, string_of, to_lowercase,
};

verus! {

/// Containers of videos to mux in batch mode.
pub open spec fn video_exts() -> Seq<Seq<char>> {
    seq!["mkv"@, "mp4"@]
}

/// Subtitle files picked up in batch mode.
pub open spec fn sub_exts() -> Seq<Seq<char>> {
    seq!["ass"@, "ssa"@, "srt"@, "vtt"@, "sup"@]
}

/// Audio files picked up in batch mode.
pub open spec fn audio_exts() -> Seq<Seq<char>> {
    seq![
        "mka"@,
        "m4a"@,
        "aac"@,
        "ac3"@,
        "eac3"@,
        "mp3"@,
        "flac"@,
        "ogg"@,
        "opus"@,
        "wav"@,
        "dts"@,
    ]
}

/// Kinds of files in a batch folder, by lower-cased extension.
#[derive(Debug, Clone, Copy, PartialEq, Eq, Structural)]
pub enum FileKind {
    Video,
    Subtitle,
    Audio,
    Other,
}

pub open spec fn file_kind_spec(ext: Seq<char>) -> FileKind {
    if video_exts().contains(ext) {
        FileKind::Video
    } else if sub_exts().contains(ext) {
        FileKind::Subtitle
    } else if audio_exts().contains(ext) {
        FileKind::Audio
    } else {
        FileKind::Other
    }
}

/// What a file with the (lower-cased) extension `ext` is to batch mode.
pub fn file_kind(ext: &str) -> (r: FileKind)
    ensures
        r == file_kind_spec(ext@),
{
    let e = chars_of(ext);
    let v = ["mkv", "mp4"];
    let s = ["ass", "ssa", "srt", "vtt", "sup"];
    let a = ["mka", "m4a", "aac", "ac3", "eac3", "mp3", "flac", "ogg", "opus", "wav", "dts"];
    assert(names_view(v@) =~= video_exts());
    assert(names_view(s@) =~= sub_exts());
    assert(names_view(a@) =~= audio_exts());
    if is_one_of(&e, &v) {
        FileKind::Video
    } else if is_one_of(&e, &s) {
        FileKind::Subtitle
    } else if is_one_of(&e, &a) {
        FileKind::Audio
    } else {
        FileKind::Other
    }
}

/// A file extension in lower case (empty when there is none).
pub fn ext_of(ext: Option<&str>) -> (r: String)
    ensures
        r@ == match ext {
            Some(e) => lowercase_spec(e@),
            None => seq![],
        },
        ext matches Some(e) ==> ascii_lowercase_known(e@),
{
    match ext {
        Some(e) => {
            let v = chars_of(e);
            string_of(&to_lowercase(&v))
        },
        None => String::new(),
    }
}

pub open spec fn is_ascii_alpha(c: char) -> bool {
    (65 <= c as u32 && c as u32 <= 90) || (97 <= c as u32 && c as u32 <= 122)
}

/// The ISO 639-2 code a `<stem>.<lang>` file stem names, if any.
pub open spec fn sub_lang_spec(stem: Seq<char>) -> Option<Seq<char>> {
    let code = split_char(stem, '.').last();
    let lower = code.map_values(|c: char| ascii_lower(c));
    if !(forall|i: int| 0 <= i < code.len() ==> is_ascii_alpha(#[trigger] code[i])) || code.len() < 2
        || code.len() > 3 {
        None
    } else if lower == "id"@ || lower == "ind"@ {
        Some("ind"@)
    } else if lower == "en"@ || lower == "eng"@ {
        Some("eng"@)
    } else if lower == "ja"@ || lower == "jpn"@ {
        Some("jpn"@)
    } else {
        None
    }
}

fn eq_str(a: &[char], s: &str) -> (b: bool)
    ensures
        b == (a@ == s@),
{
    let v = chars_of(s);
    chars_eq(a, &v)
}

/// Derives an ISO 639-2 language from a `<stem>.<lang>` file stem, e.g.
/// `Ep01.id` (of `Ep01.id.ass`) gives `ind`.
pub fn sub_lang_639_2(stem: &str) -> (r: Option<String>)
    ensures
        match sub_lang_spec(stem@) {
            Some(l) => r matches Some(s) && s@ == l,
            None => r is None,
        },
{
    let v = chars_of(stem);
    let parts = crate::text::split_chars(&v, '.');
    proof {
        crate::text::lemma_split_char_len(stem@, '.');
    }
    let code = &parts[parts.len() - 1];
    assert(code@ == split_char(stem@, '.').last());
    let n = code.len();
    let mut k: usize = 0;
    while k < n
        invariant
            k <= n == code@.len(),
            code@ == split_char(stem@, '.').last(),
            forall|i: int| 0 <= i < k ==> is_ascii_alpha(#[trigger] code@[i]),
        decreases n - k,
    {
        let u = code[k] as u32;
        if !((65 <= u && u <= 90) || (97 <= u && u <= 122)) {
            assert(!is_ascii_alpha(code@[k as int]));
            assert(sub_lang_spec(stem@) is None);
            return None;
        }
        k = k + 1;
    }
    if n < 2 || n > 3 {
        return None;
    }
    let mut lower: Vec<char> = Vec::new();
    let mut k: usize = 0;
    while k < n
        invariant
            k <= n == code@.len(),
            lower@ == code@.take(k as int).map_values(|c: char| ascii_lower(c)),
        decreases n - k,
    {
        lower.push(ascii_lower_char(code[k]));
        assert(code@.take(k + 1).map_values(|c: char| ascii_lower(c)) =~= code@.take(
            k as int,
        ).map_values(|c: char| ascii_lower(c)).push(ascii_lower(code@[k as int])));
        k = k + 1;
    }
    assert(code@.take(n as int) =~= code@);
    if eq_str(&lower, "id") || eq_str(&lower, "ind") {
        Some(string_of(&chars_of("ind")))
    } else if eq_str(&lower, "en") || eq_str(&lower, "eng") {
        Some(string_of(&chars_of("eng")))
    } else if eq_str(&lower, "ja") || eq_str(&lower, "jpn") {
        Some(string_of(&chars_of("jpn")))
    } else {
        None
    }
}

/// Characters escaped for the ffmpeg `subtitles` filter.
pub open spec fn filter_special(c: char) -> bool {
    c == '\'' || c == ':' || c == ',' || c == '[' || c == ']' || c == ';'
}

/// A path for the `subtitles` filter: backslashes as forward slashes and
/// every `' : , [ ] ;` preceded by two backslashes (one level for the
/// filtergraph parser, one for the filter's own options).
pub open spec fn escape_filter_spec(p: Seq<char>) -> Seq<char>
    decreases p.len(),
{
    if p.len() == 0 {
        seq![]
    } else {
        let c = if p.last() == '\\' {
            '/'
        } else {
            p.last()
        };
        escape_filter_spec(p.drop_last()) + if filter_special(c) {
            seq!['\\', '\\', c]
        } else {
            seq![c]
        }
    }
}

/// Escapes a subtitle path (as text) for the ffmpeg `subtitles` filter.
pub fn escape_filter_path(p: &str) -> (r: String)
    ensures
        r@ == escape_filter_spec(p@),
{
    let v = chars_of(p);
    let mut out: Vec<char> = Vec::new();
    let mut k: usize = 0;
    while k < v.len()
        invariant
            k <= v@.len(),
            out@ == escape_filter_spec(v@.take(k as int)),
        decreases v@.len() - k,
    {
        assert(v@.take(k + 1).drop_last() =~= v@.take(k as int));
        let c = if v[k] == '\\' {
            '/'
        } else {
            v[k]
        };
        if c == '\'' || c == ':' || c == ',' || c == '[' || c == ']' || c == ';' {
            out.push('\\');
            out.push('\\');
        }
        out.push(c);
        k = k + 1;
    }
    assert(v@.take(v@.len() as int) =~= v@);
    string_of(&out)
}

/// A file belongs to an episode when its stem (compared in lower case) is
/// the video's stem or starts with it followed by a dot; the video itself
/// does not count.
pub open spec fn matches_stem_spec(candidate_stem: Seq<char>, video_stem: Seq<char>, same_file: bool) -> bool {
    let cs = lowercase_spec(candidate_stem);
    let vs = lowercase_spec(video_stem);
    !same_file && (cs == vs || starts_with(cs, vs + "."@))
}

/// True when a file with stem `candidate_stem` belongs to the episode
/// `video_stem` (e.g. `Ep01.id` belongs to `Ep01`); `same_file` marks the
/// video itself.
pub fn matches_stem(candidate_stem: &str, video_stem: &str, same_file: bool) -> (b: bool)
    ensures
        b == matches_stem_spec(candidate_stem@, video_stem@, same_file),
{
    if same_file {
        return false;
    }
    let cs = to_lowercase(&chars_of(candidate_stem));
    let vs = to_lowercase(&chars_of(video_stem));
    if chars_eq(&cs, &vs) {
        return true;
    }
    proof {
        reveal_strlit(".");
    }
    let mut prefix = vs;
    prefix.push('.');
    assert(prefix@ =~= lowercase_spec(video_stem@) + "."@);
    if prefix.len() > cs.len() {
        return false;
    }
    let head = copy_range(&cs, 0, prefix.len());
    assert(head@ =~= cs@.take(prefix@.len() as int));
    chars_eq(&head, &prefix)
}

/// One ffmpeg argument: text, or one of the input/output paths, which the
/// caller holds.
pub enum MuxArg {
    Text(String),
    Video,
    Audio(usize),
    Sub(usize),
    Out,
}

pub enum MuxArgView {
    Text(Seq<char>),
    Video,
    Audio(int),
    Sub(int),
    Out,
}

impl View for MuxArg {
    type V = MuxArgView;

    open spec fn view(&self) -> MuxArgView {
        match self {
            MuxArg::Text(s) => MuxArgView::Text(s@),
            MuxArg::Video => MuxArgView::Video,
            MuxArg::Audio(i) => MuxArgView::Audio(*i as int),
            MuxArg::Sub(i) => MuxArgView::Sub(*i as int),
            MuxArg::Out => MuxArgView::Out,
        }
    }
}

/// A mux job as ffmpeg sees it: how many extra audio inputs, the language
/// of each subtitle input, an optional burn-in subtitle (its path as
/// text) and an optional title.
pub struct MuxPlan {
    pub audios: usize,
    pub sub_langs: Vec<Option<String>>,
    pub hardsub: Option<String>,
    pub title: Option<String>,
}

pub open spec fn txt(s: Seq<char>) -> MuxArgView {
    MuxArgView::Text(s)
}

pub open spec fn audio_inputs(n: nat) -> Seq<MuxArgView>
    decreases n,
{
    if n == 0 {
        seq![]
    } else {
        audio_inputs((n - 1) as nat) + seq![txt("-i"@), MuxArgView::Audio(n - 1)]
    }
}

pub open spec fn sub_inputs(n: nat) -> Seq<MuxArgView>
    decreases n,
{
    if n == 0 {
        seq![]
    } else {
        sub_inputs((n - 1) as nat) + seq![txt("-i"@), MuxArgView::Sub(n - 1)]
    }
}

pub open spec fn audio_maps(n: nat) -> Seq<MuxArgView>
    decreases n,
{
    if n == 0 {
        seq![]
    } else {
        audio_maps((n - 1) as nat) + seq![txt("-map"@), txt(decimal(n) + ":a"@)]
    }
}

pub open spec fn opt_strs(v: Seq<Option<String>>) -> Seq<Option<Seq<char>>> {
    v.map_values(|o: Option<String>| match o {
        Some(s) => Some(s@),
        None => None,
    })
}

/// Map and language metadata of the subtitle inputs (input numbers
/// follow the video and `audios` audio inputs).
pub open spec fn sub_maps(langs: Seq<Option<Seq<char>>>, audios: nat) -> Seq<MuxArgView>
    decreases langs.len(),
{
    if langs.len() == 0 {
        seq![]
    } else {
        let n = (langs.len() - 1) as nat;
        sub_maps(langs.drop_last(), audios) + seq![
            txt("-map"@),
            txt(decimal(1 + audios + n) + ":s"@),
        ] + match langs.last() {
            Some(l) => seq![txt("-metadata:s:s:"@ + decimal(n)), txt("language="@ + l)],
            None => seq![],
        }
    }
}

pub open spec fn burn_args(h: Seq<char>) -> Seq<MuxArgView> {
    seq![
        txt("-vf"@),
        txt("subtitles="@ + crate::commands::mux::escape_filter_spec(h)),
        txt("-c:v"@),
        txt("libx264"@),
        txt("-crf"@),
        txt("18"@),
        txt("-preset"@),
        txt("fast"@),
        txt("-c:a"@),
        txt("copy"@),
        txt("-c:s"@),
        txt("copy"@),
    ]
}

/// The full ffmpeg argument list of a mux job.
pub open spec fn mux_args_spec(
    audios: nat,
    langs: Seq<Option<Seq<char>>>,
    hardsub: Option<Seq<char>>,
    title: Option<Seq<char>>,
) -> Seq<MuxArgView> {
    seq![txt("-y"@), txt("-i"@), MuxArgView::Video] + audio_inputs(audios) + sub_inputs(langs.len())
        + seq![txt("-map"@), txt("0:v"@), txt("-map"@), txt("0:a?"@)] + audio_maps(audios)
        + sub_maps(langs, audios) + match title {
        Some(t) => seq![txt("-metadata"@), txt("title="@ + t)],
        None => seq![],
    } + match hardsub {
        Some(h) => burn_args(h),
        None => seq![txt("-c"@), txt("copy"@)],
    } + seq![MuxArgView::Out]
}

pub open spec fn args_view(v: Seq<MuxArg>) -> Seq<MuxArgView> {
    v.map_values(|a: MuxArg| a@)
}

fn text_arg(s: &str) -> (r: MuxArg)
    ensures
        r@ == txt(s@),
{
    MuxArg::Text(crate::text::str_to_string(s))
}

fn numbered(n: usize, suffix: &str) -> (r: MuxArg)
    ensures
        r@ == txt(decimal(n as nat) + suffix@),
{
    let mut v: Vec<char> = Vec::new();
    push_padded(&mut v, n as u64, 0);
    push_str(&mut v, suffix);
    MuxArg::Text(string_of(&v))
}

fn prefixed(prefix: &str, s: &str) -> (r: MuxArg)
    ensures
        r@ == txt(prefix@ + s@),
{
    let mut v = chars_of(prefix);
    push_str(&mut v, s);
    MuxArg::Text(string_of(&v))
}

/// Builds the ffmpeg arguments: inputs (video, extra audios, subtitles),
/// maps keeping the source video and audio plus every extra input,
/// subtitle languages, the title, then either a stream copy or a burn-in
/// re-encode, and the output.
pub fn build_args(plan: &MuxPlan) -> (r: Vec<MuxArg>)
    requires
        plan.audios + plan.sub_langs@.len() + 1 <= usize::MAX,
    ensures
        args_view(r@) == mux_args_spec(
            plan.audios as nat,
            opt_strs(plan.sub_langs@),
            match &plan.hardsub {
                Some(h) => Some(h@),
                None => None,
            },
            match &plan.title {
                Some(t) => Some(t@),
                None => None,
            },
        ),
{
    let mut a: Vec<MuxArg> = Vec::new();
    a.push(text_arg("-y"));
    a.push(text_arg("-i"));
    a.push(MuxArg::Video);
    let ghost g0 = args_view(a@);
    assert(g0 =~= seq![txt("-y"@), txt("-i"@), MuxArgView::Video]);
    let mut i: usize = 0;
    while i < plan.audios
        invariant
            i <= plan.audios,
            args_view(a@) == g0 + audio_inputs(i as nat),
        decreases plan.audios - i,
    {
        let ghost before = args_view(a@);
        a.push(text_arg("-i"));
        a.push(MuxArg::Audio(i));
        assert(args_view(a@) =~= before + seq![txt("-i"@), MuxArgView::Audio(i as int)]);
        assert(audio_inputs((i + 1) as nat) == audio_inputs(i as nat) + seq![
            txt("-i"@),
            MuxArgView::Audio(i as int),
        ]);
        assert(args_view(a@) =~= g0 + audio_inputs((i + 1) as nat));
        i = i + 1;
    }
    let ghost g1 = args_view(a@);
    let n = plan.sub_langs.len();
    let mut i: usize = 0;
    while i < n
        invariant
            i <= n == plan.sub_langs@.len(),
            args_view(a@) == g1 + sub_inputs(i as nat),
        decreases n - i,
    {
        let ghost before = args_view(a@);
        a.push(text_arg("-i"));
        a.push(MuxArg::Sub(i));
        assert(args_view(a@) =~= before + seq![txt("-i"@), MuxArgView::Sub(i as int)]);
        assert(sub_inputs((i + 1) as nat) == sub_inputs(i as nat) + seq![
            txt("-i"@),
            MuxArgView::Sub(i as int),
        ]);
        assert(args_view(a@) =~= g1 + sub_inputs((i + 1) as nat));
        i = i + 1;
    }
    a.push(text_arg("-map"));
    a.push(text_arg("0:v"));
    a.push(text_arg("-map"));
    a.push(text_arg("0:a?"));
    let ghost g2 = args_view(a@);
    assert(g2 =~= g1 + sub_inputs(n as nat) + seq![txt("-map"@), txt("0:v"@), txt("-map"@), txt("0:a?"@)]);
    let mut i: usize = 0;
    while i < plan.audios
        invariant
            i <= plan.audios,
            plan.audios + plan.sub_langs@.len() + 1 <= usize::MAX,
            args_view(a@) == g2 + audio_maps(i as nat),
        decreases plan.audios - i,
    {
        let ghost before = args_view(a@);
        a.push(text_arg("-map"));
        a.push(numbered(i + 1, ":a"));
        assert(args_view(a@) =~= before + seq![txt("-map"@), txt(decimal((i + 1) as nat) + ":a"@)]);
        assert(audio_maps((i + 1) as nat) == audio_maps(i as nat) + seq![
            txt("-map"@),
            txt(decimal((i + 1) as nat) + ":a"@),
        ]);
        assert(args_view(a@) =~= g2 + audio_maps((i + 1) as nat));
        i = i + 1;
    }
    let ghost g3 = args_view(a@);
    let ghost langs = opt_strs(plan.sub_langs@);
    let mut k: usize = 0;
    while k < n
        invariant
            k <= n == plan.sub_langs@.len(),
            plan.audios + plan.sub_langs@.len() + 1 <= usize::MAX,
            langs == opt_strs(plan.sub_langs@),
            args_view(a@) == g3 + sub_maps(langs.take(k as int), plan.audios as nat),
        decreases n - k,
    {
        let ghost before = args_view(a@);
        assert(langs.take(k + 1).drop_last() =~= langs.take(k as int));
        a.push(text_arg("-map"));
        a.push(numbered(1 + plan.audios + k, ":s"));
        let ghost head = seq![
            txt("-map"@),
            txt(decimal((1 + plan.audios + k) as nat) + ":s"@),
        ];
        assert(args_view(a@) =~= before + head);
        match &plan.sub_langs[k] {
            Some(l) => {
                let ghost mid = args_view(a@);
                a.push(numbered_meta(k));
                a.push(prefixed("language=", l.as_str()));
                assert(args_view(a@) =~= mid + seq![
                    txt("-metadata:s:s:"@ + decimal(k as nat)),
                    txt("language="@ + l@),
                ]);
            },
            None => {},
        }
        proof {
            let t = langs.take(k + 1);
            assert(t.last() == langs[k as int]);
            assert(sub_maps(t, plan.audios as nat) == sub_maps(langs.take(k as int), plan.audios as nat)
                + head + match langs[k as int] {
                Some(l) => seq![txt("-metadata:s:s:"@ + decimal(k as nat)), txt("language="@ + l)],
                None => seq![],
            });
        }
        assert(args_view(a@) =~= g3 + sub_maps(langs.take(k + 1), plan.audios as nat));
        k = k + 1;
    }
    assert(langs.take(n as int) =~= langs);
    let ghost g4 = args_view(a@);
    match &plan.title {
        Some(t) => {
            a.push(text_arg("-metadata"));
            a.push(prefixed("title=", t.as_str()));
        },
        None => {},
    }
    let ghost g5 = args_view(a@);
    assert(g5 =~= g4 + match &plan.title {
        Some(t) => seq![txt("-metadata"@), txt("title="@ + t@)],
        None => seq![],
    });
    match &plan.hardsub {
        Some(h) => {
            a.push(text_arg("-vf"));
            let esc = escape_filter_path(h.as_str());
            a.push(prefixed("subtitles=", esc.as_str()));
            a.push(text_arg("-c:v"));
            a.push(text_arg("libx264"));
            a.push(text_arg("-crf"));
            a.push(text_arg("18"));
            a.push(text_arg("-preset"));
            a.push(text_arg("fast"));
            a.push(text_arg("-c:a"));
            a.push(text_arg("copy"));
            a.push(text_arg("-c:s"));
            a.push(text_arg("copy"));
        },
        None => {
            a.push(text_arg("-c"));
            a.push(text_arg("copy"));
        },
    }
    let ghost g6 = args_view(a@);
    assert(g6 =~= g5 + match &plan.hardsub {
        Some(h) => burn_args(h@),
        None => seq![txt("-c"@), txt("copy"@)],
    });
    a.push(MuxArg::Out);
    assert(args_view(a@) =~= g6 + seq![MuxArgView::Out]);
    assert(args_view(a@) =~= mux_args_spec(
        plan.audios as nat,
        opt_strs(plan.sub_langs@),
        match &plan.hardsub {
            Some(h) => Some(h@),
            None => None,
        },
        match &plan.title {
            Some(t) => Some(t@),
            None => None,
        },
    ));
    a
}

fn numbered_meta(k: usize) -> (r: MuxArg)
    ensures
        r@ == txt("-metadata:s:s:"@ + decimal(k as nat)),
{
    let mut v = chars_of("-metadata:s:s:");
    push_padded(&mut v, k as u64, 0);
    MuxArg::Text(string_of(&v))
}

/// A file in a batch folder: its stem, its extension as the name gives it
/// (empty when there is none) and whether it is the episode's video.
pub struct Sibling {
    pub stem: String,
    pub ext: String,
    pub is_video: bool,
}

/// `s` goes with the episode `video_stem` as a file of kind `kind`.
pub open spec fn belongs(s: Sibling, video_stem: Seq<char>, kind: FileKind) -> bool {
    file_kind_spec(lowercase_spec(s.ext@)) == kind && matches_stem_spec(s.stem@, video_stem, s.is_video)
}

/// Positions of the files of kind `kind` that go with the episode, in
/// folder order.
pub open spec fn picked(sibs: Seq<Sibling>, video_stem: Seq<char>, kind: FileKind) -> Seq<int>
    decreases sibs.len(),
{
    if sibs.len() == 0 {
        seq![]
    } else if belongs(sibs.last(), video_stem, kind) {
        picked(sibs.drop_last(), video_stem, kind).push(sibs.len() - 1)
    } else {
        picked(sibs.drop_last(), video_stem, kind)
    }
}

pub open spec fn positions(v: Seq<usize>) -> Seq<int> {
    v.map_values(|i: usize| i as int)
}

/// The audio and subtitle files that go with the episode `video_stem`
/// (positions in `siblings`, in order).
pub fn episode_files(video_stem: &str, siblings: &[Sibling]) -> (r: (Vec<usize>, Vec<usize>))
    ensures
        positions(r.0@) == picked(siblings@, video_stem@, FileKind::Audio),
        positions(r.1@) == picked(siblings@, video_stem@, FileKind::Subtitle),
{
    let mut audios: Vec<usize> = Vec::new();
    let mut subs: Vec<usize> = Vec::new();
    let mut i: usize = 0;
    while i < siblings.len()
        invariant
            i <= siblings@.len(),
            positions(audios@) == picked(siblings@.take(i as int), video_stem@, FileKind::Audio),
            positions(subs@) == picked(siblings@.take(i as int), video_stem@, FileKind::Subtitle),
        decreases siblings@.len() - i,
    {
        let s = &siblings[i];
        let ext = string_of(&to_lowercase(&chars_of(s.ext.as_str())));
        let kind = file_kind(ext.as_str());
        let mine = matches_stem(s.stem.as_str(), video_stem, s.is_video);
        let ghost pre = siblings@.take(i as int);
        assert(siblings@.take(i + 1).drop_last() =~= pre);
        assert(siblings@.take(i + 1).last() == siblings@[i as int]);
        assert(siblings@.take(i + 1).len() - 1 == i);
        if mine && kind == FileKind::Audio {
            let ghost before = positions(audios@);
            audios.push(i);
            assert(positions(audios@) =~= before.push(i as int));
        } else if mine && kind == FileKind::Subtitle {
            let ghost before = positions(subs@);
            subs.push(i);
            assert(positions(subs@) =~= before.push(i as int));
        }
        i = i + 1;
    }
    assert(siblings@.take(i as int) =~= siblings@);
    (audios, subs)
}

} // verus!
