//! Subtitle and audio extraction: codec to extension, output names, track
//! order and per-file status lines.
use vstd::prelude::*;
use crate::commands::{is_one_of, join_strs, names_view, push_joined};
use crate::common::fs::{sanitize_filename, sanitize_spec};
use crate::common::lang::{cleaned, cuttable, lang_code, normalize_language, try_normalize_language};
use crate::media::probe::{tag_or_empty, tags_view, Stream};
use crate::num::{decimal, int_text, padded, push_int, push_padded};
use crate::subs::batch::{ext_list, parse_ext_list};
use crate::text::{
    ascii_lowercase_known, chars_eq, chars_of, copy_range, is_blank, lowercase_spec, push_all, push_str, split_char,
    str_to_string, string_of, to_lowercase, trim, trim_bounds,
};

verus! {

/// Parses `--ext "mkv,mp4,.mka"` into lower-case extensions without dots.
pub fn parse_exts(raw: &str) -> (r: Vec<String>)
    ensures
        r@.map_values(|s: String| s@) == ext_list(split_char(raw@, ',')),
{
    parse_ext_list(raw)
}

/// Image-based subtitle codecs, copied untouched as `.sup`.
pub open spec fn bitmap_codecs() -> Seq<Seq<char>> {
    seq![
        "hdmv_pgs_subtitle"@,
        "pgs"@,
        "dvd_subtitle"@,
        "dvdsub"@,
        "dvb_subtitle"@,
        "xsub"@,
    ]
}

/// Output extension for a lower-cased subtitle codec name.
pub open spec fn codec_ext_spec(c: Seq<char>) -> Seq<char> {
    if c == "ass"@ || c == "ssa"@ {
        "ass"@
    } else if c == "vtt"@ || c == "webvtt"@ {
        "vtt"@
    } else if bitmap_codecs().contains(c) {
        "sup"@
    } else {
        "srt"@
    }
}

/// Output extension for a subtitle codec (case-insensitive). Bitmap
/// subtitles are copied as `.sup`; unknown codecs fall back to `.srt`.
pub fn ext_for_codec(codec: &str) -> (r: &'static str)
    ensures
        r@ == codec_ext_spec(lowercase_spec(codec@)),
        ascii_lowercase_known(codec@),
{
    let v = chars_of(codec);
    let c = to_lowercase(&v);
    let ass = ["ass", "ssa"];
    let vtt = ["vtt", "webvtt"];
    let bitmap = ["hdmv_pgs_subtitle", "pgs", "dvd_subtitle", "dvdsub", "dvb_subtitle", "xsub"];
    assert(names_view(ass@) =~= seq!["ass"@, "ssa"@]);
    assert(names_view(vtt@) =~= seq!["vtt"@, "webvtt"@]);
    assert(names_view(bitmap@) =~= bitmap_codecs());
    if is_one_of(&c, &ass) {
        assert(c@ == "ass"@ || c@ == "ssa"@);
        "ass"
    } else if is_one_of(&c, &vtt) {
        assert(c@ == "vtt"@ || c@ == "webvtt"@);
        "vtt"
    } else if is_one_of(&c, &bitmap) {
        "sup"
    } else {
        "srt"
    }
}

/// Container extension for a lower-cased audio codec name; stream copy
/// always fits Matroska, so unknown codecs get `.mka`.
pub open spec fn audio_ext_spec(c: Seq<char>) -> Seq<char> {
    if c == "aac"@ || c == "alac"@ {
        "m4a"@
    } else if c == "mp3"@ {
        "mp3"@
    } else if c == "opus"@ {
        "opus"@
    } else if c == "vorbis"@ {
        "ogg"@
    } else if c == "flac"@ {
        "flac"@
    } else if c == "ac3"@ {
        "ac3"@
    } else if c == "eac3"@ {
        "eac3"@
    } else if c == "dts"@ {
        "dts"@
    } else if c == "truehd"@ {
        "thd"@
    } else if seq!["pcm_s16le"@, "pcm_s24le"@, "pcm_s32le"@, "pcm_f32le"@, "pcm_u8"@].contains(c) {
        "wav"@
    } else {
        "mka"@
    }
}

fn is(c: &[char], s: &str) -> (b: bool)
    ensures
        b == (c@ == s@),
{
    let v = chars_of(s);
    chars_eq(c, &v)
}

/// Container extension for an audio codec (case-insensitive).
pub fn audio_ext(codec: &str) -> (r: &'static str)
    ensures
        r@ == audio_ext_spec(lowercase_spec(codec@)),
        ascii_lowercase_known(codec@),
{
    let v = chars_of(codec);
    let c = to_lowercase(&v);
    let pcm = ["pcm_s16le", "pcm_s24le", "pcm_s32le", "pcm_f32le", "pcm_u8"];
    assert(names_view(pcm@) =~= seq![
        "pcm_s16le"@,
        "pcm_s24le"@,
        "pcm_s32le"@,
        "pcm_f32le"@,
        "pcm_u8"@,
    ]);
    if is(&c, "aac") || is(&c, "alac") {
        "m4a"
    } else if is(&c, "mp3") {
        "mp3"
    } else if is(&c, "opus") {
        "opus"
    } else if is(&c, "vorbis") {
        "ogg"
    } else if is(&c, "flac") {
        "flac"
    } else if is(&c, "ac3") {
        "ac3"
    } else if is(&c, "eac3") {
        "eac3"
    } else if is(&c, "dts") {
        "dts"
    } else if is(&c, "truehd") {
        "thd"
    } else if is_one_of(&c, &pcm) {
        "wav"
    } else {
        "mka"
    }
}

/// `<safe>.<kind><index>` with `.<title>` when the title sanitizes to
/// something (capped at 50 characters), the whole capped at 150.
pub open spec fn output_stem_spec(safe: Seq<char>, kind: char, index: int, title: Seq<char>) -> Seq<
    char,
> {
    let base = safe + seq!['.', kind] + int_text(index);
    let clean = if sanitize_spec(title).len() > 50 {
        sanitize_spec(title).take(50)
    } else {
        sanitize_spec(title)
    };
    let stem = if trim(title).len() == 0 || clean.len() == 0 {
        base
    } else {
        base + seq!['.'] + clean
    };
    if stem.len() > 150 {
        stem.take(150)
    } else {
        stem
    }
}

/// Builds an output stem; `kind` is `S` for subtitles, `A` for audio.
pub fn output_stem(safe: &str, kind: char, index: i32, title: &str) -> (r: String)
    ensures
        r@ == output_stem_spec(safe@, kind, index as int, title@),
{
    let mut stem = chars_of(safe);
    stem.push('.');
    stem.push(kind);
    push_int(&mut stem, index as i64);
    let ghost base = safe@ + seq!['.', kind] + int_text(index as int);
    assert(stem@ =~= base);
    let tv = chars_of(title);
    let (a, b) = trim_bounds(&tv);
    if a < b {
        let s = sanitize_filename(title);
        let sv = chars_of(s.as_str());
        let n = if sv.len() > 50 {
            50
        } else {
            sv.len()
        };
        let clean = copy_range(&sv, 0, n);
        assert(sv@.len() <= 50 ==> sv@.subrange(0, n as int) =~= sv@);
        if clean.len() > 0 {
            stem.push('.');
            push_all(&mut stem, &clean);
            assert(stem@ =~= base + seq!['.'] + clean@);
        }
    }
    if stem.len() > 150 {
        stem.truncate(150);
    }
    string_of(&stem)
}

/// One subtitle or audio track picked from the probe output.
#[derive(Debug, Clone)]
pub struct SubTrack {
    pub index: i32,
    pub lang: String,
    pub codec: String,
    pub title: String,
}

pub struct TrackView {
    pub index: int,
    pub lang: Seq<char>,
    pub codec: Seq<char>,
    pub title: Seq<char>,
}

impl SubTrack {
    /// A field-by-field copy.
    pub fn duplicate(&self) -> (t: SubTrack)
        ensures
            t@ == self@,
    {
        SubTrack {
            index: self.index,
            lang: self.lang.clone(),
            codec: self.codec.clone(),
            title: self.title.clone(),
        }
    }
}

impl View for SubTrack {
    type V = TrackView;

    open spec fn view(&self) -> TrackView {
        TrackView { index: self.index as int, lang: self.lang@, codec: self.codec@, title: self.title@ }
    }
}

pub open spec fn tracks_view(ts: Seq<SubTrack>) -> Seq<TrackView> {
    ts.map_values(|t: SubTrack| t@)
}

/// The language tag of a stream, as the report gives it.
pub open spec fn raw_language(s: Stream) -> Seq<char> {
    tag_or_empty(tags_view(s.tags@), "language"@)
}

/// The track a stream describes: its index, normalized language, codec
/// name (empty when unknown) and title tag.
pub open spec fn stream_track(s: Stream) -> TrackView {
    TrackView {
        index: s.index as int,
        lang: lang_code(cleaned(raw_language(s))),
        codec: match s.codec_name {
            Some(c) => c@,
            None => seq![],
        },
        title: tag_or_empty(tags_view(s.tags@), "title"@),
    }
}

pub open spec fn is_kind(s: Stream, kind: Seq<char>) -> bool {
    s.codec_type matches Some(t) && t@ == kind
}

/// The tracks of the streams of one kind (`subtitle`, `audio`), in stream
/// order.
pub open spec fn tracks_of_kind(streams: Seq<Stream>, kind: Seq<char>) -> Seq<TrackView>
    decreases streams.len(),
{
    if streams.len() == 0 {
        seq![]
    } else if is_kind(streams.last(), kind) {
        tracks_of_kind(streams.drop_last(), kind).push(stream_track(streams.last()))
    } else {
        tracks_of_kind(streams.drop_last(), kind)
    }
}

/// Every stream of the kind has a language tag whose code can be cut.
pub open spec fn kind_languages_ok(streams: Seq<Stream>, kind: Seq<char>) -> bool {
    forall|i: int|
        0 <= i < streams.len() && is_kind(#[trigger] streams[i], kind) ==> cuttable(
            cleaned(raw_language(streams[i])),
        )
}

/// The track a stream describes.
pub fn track_of(s: &Stream) -> (t: SubTrack)
    requires
        cuttable(cleaned(raw_language(*s))),
    ensures
        t@ == stream_track(*s),
{
    let codec = match &s.codec_name {
        Some(c) => c.clone(),
        None => String::new(),
    };
    SubTrack {
        index: s.index,
        lang: normalize_language(s.language_raw()),
        codec,
        title: str_to_string(s.title_raw()),
    }
}

fn select_tracks(streams: &[Stream], audio: bool) -> (r: Vec<SubTrack>)
    requires
        kind_languages_ok(streams@, if audio { "audio"@ } else { "subtitle"@ }),
    ensures
        tracks_view(r@) == tracks_of_kind(streams@, if audio { "audio"@ } else { "subtitle"@ }),
{
    let ghost kind = if audio {
        "audio"@
    } else {
        "subtitle"@
    };
    let mut out: Vec<SubTrack> = Vec::new();
    let mut i: usize = 0;
    while i < streams.len()
        invariant
            i <= streams@.len(),
            kind == if audio { "audio"@ } else { "subtitle"@ },
            kind_languages_ok(streams@, kind),
            tracks_view(out@) == tracks_of_kind(streams@.take(i as int), kind),
        decreases streams@.len() - i,
    {
        let s = &streams[i];
        let wanted = if audio {
            s.is_audio()
        } else {
            s.is_subtitle()
        };
        let ghost pre = streams@.take(i as int);
        assert(streams@.take(i + 1).drop_last() =~= pre);
        assert(streams@.take(i + 1).last() == streams@[i as int]);
        if wanted {
            assert(is_kind(streams@[i as int], kind));
            let t = track_of(s);
            let ghost before = tracks_view(out@);
            out.push(t);
            assert(tracks_view(out@) =~= before.push(t@));
        }
        i = i + 1;
    }
    assert(streams@.take(i as int) =~= streams@);
    out
}

/// The subtitle tracks among `streams`, in stream order.
pub fn subtitle_tracks(streams: &[Stream]) -> (r: Vec<SubTrack>)
    requires
        kind_languages_ok(streams@, "subtitle"@),
    ensures
        tracks_view(r@) == tracks_of_kind(streams@, "subtitle"@),
{
    select_tracks(streams, false)
}

/// The audio tracks among `streams`, in stream order.
pub fn audio_tracks(streams: &[Stream]) -> (r: Vec<SubTrack>)
    requires
        kind_languages_ok(streams@, "audio"@),
    ensures
        tracks_view(r@) == tracks_of_kind(streams@, "audio"@),
{
    select_tracks(streams, true)
}

fn try_select_tracks(streams: &[Stream], audio: bool) -> (r: Option<Vec<SubTrack>>)
    ensures
        r is None <==> !kind_languages_ok(streams@, if audio { "audio"@ } else { "subtitle"@ }),
        r matches Some(v) ==> tracks_view(v@) == tracks_of_kind(
            streams@,
            if audio { "audio"@ } else { "subtitle"@ },
        ),
{
    let ghost kind = if audio {
        "audio"@
    } else {
        "subtitle"@
    };
    let mut out: Vec<SubTrack> = Vec::new();
    let mut i: usize = 0;
    while i < streams.len()
        invariant
            i <= streams@.len(),
            kind == if audio { "audio"@ } else { "subtitle"@ },
            kind_languages_ok(streams@.take(i as int), kind),
            tracks_view(out@) == tracks_of_kind(streams@.take(i as int), kind),
        decreases streams@.len() - i,
    {
        let s = &streams[i];
        let wanted = if audio {
            s.is_audio()
        } else {
            s.is_subtitle()
        };
        let ghost pre = streams@.take(i as int);
        assert(streams@.take(i + 1).drop_last() =~= pre);
        assert(streams@.take(i + 1).last() == streams@[i as int]);
        if wanted {
            assert(is_kind(streams@[i as int], kind));
            match try_normalize_language(s.language_raw()) {
                None => {
                    assert(!kind_languages_ok(streams@, kind)) by {
                        assert(is_kind(streams@[i as int], kind));
                    }
                    return None;
                },
                Some(lang) => {
                    let codec = match &s.codec_name {
                        Some(c) => c.clone(),
                        None => String::new(),
                    };
                    let t = SubTrack { index: s.index, lang, codec, title: str_to_string(s.title_raw()) };
                    let ghost before = tracks_view(out@);
                    out.push(t);
                    assert(tracks_view(out@) =~= before.push(t@));
                },
            }
        }
        assert(kind_languages_ok(streams@.take(i + 1), kind)) by {
            assert forall|j: int|
                0 <= j < streams@.take(i + 1).len() && is_kind(
                    #[trigger] streams@.take(i + 1)[j],
                    kind,
                ) implies cuttable(cleaned(raw_language(streams@.take(i + 1)[j]))) by {
                if j < i {
                    assert(streams@.take(i + 1)[j] == pre[j]);
                }
            }
        }
        i = i + 1;
    }
    assert(streams@.take(i as int) =~= streams@);
    Some(out)
}

/// The subtitle tracks among `streams`, in stream order; `None` when the
/// language tag of one of them cannot be cut to a two-byte code.
pub fn try_subtitle_tracks(streams: &[Stream]) -> (r: Option<Vec<SubTrack>>)
    ensures
        r is None <==> !kind_languages_ok(streams@, "subtitle"@),
        r matches Some(v) ==> tracks_view(v@) == tracks_of_kind(streams@, "subtitle"@),
{
    try_select_tracks(streams, false)
}

/// The audio tracks among `streams`, in stream order; `None` when the
/// language tag of one of them cannot be cut to a two-byte code.
pub fn try_audio_tracks(streams: &[Stream]) -> (r: Option<Vec<SubTrack>>)
    ensures
        r is None <==> !kind_languages_ok(streams@, "audio"@),
        r matches Some(v) ==> tracks_view(v@) == tracks_of_kind(streams@, "audio"@),
{
    try_select_tracks(streams, true)
}

/// Sort key: priority language (`id`) first, then stream index.
pub open spec fn track_before(a: TrackView, b: TrackView) -> bool {
    let ka: int = if a.lang == "id"@ {
        0
    } else {
        1
    };
    let kb: int = if b.lang == "id"@ {
        0
    } else {
        1
    };
    ka < kb || (ka == kb && a.index <= b.index)
}

pub open spec fn tracks_sorted(ts: Seq<TrackView>) -> bool {
    forall|i: int, j: int| 0 <= i < j < ts.len() ==> track_before(ts[i], ts[j])
}

/// The sort key of a track: priority language first, then stream index.
pub open spec fn track_key(t: TrackView) -> (int, int) {
    (if t.lang == "id"@ {
        0int
    } else {
        1int
    }, t.index as int)
}

pub open spec fn key_is(k: (int, int)) -> spec_fn(TrackView) -> bool {
    |t: TrackView| track_key(t) == k
}

/// The tracks with sort key `k`, in their order.
pub open spec fn keyed(ts: Seq<TrackView>, k: (int, int)) -> Seq<TrackView> {
    ts.filter(key_is(k))
}

proof fn lemma_keyed_insert(prev: Seq<TrackView>, p: int, x: TrackView, k: (int, int))
    requires
        0 <= p <= prev.len(),
        forall|j: int| p <= j < prev.len() ==> !track_before(#[trigger] prev[j], x),
    ensures
        keyed(prev.insert(p, x), k) == (if track_key(x) == k {
            keyed(prev, k).push(x)
        } else {
            keyed(prev, k)
        }),
{
    let pred = key_is(k);
    let a = prev.take(p);
    let b = prev.skip(p);
    assert(prev =~= a + b);
    assert(prev.insert(p, x) =~= a.push(x) + b);
    Seq::filter_distributes_over_add(a.push(x), b, pred);
    Seq::filter_distributes_over_add(a, b, pred);
    a.lemma_filter_push(x, pred);
    if track_key(x) == k {
        assert(b.all(|t: TrackView| !pred(t))) by {
            assert forall|j: int| 0 <= j < b.len() implies !pred(#[trigger] b[j]) by {
                assert(b[j] == prev[p + j]);
                assert(!track_before(prev[p + j], x));
            }
        }
        b.lemma_all_neg_filter_empty(pred);
        assert(b.filter(pred) =~= Seq::<TrackView>::empty());
        assert(keyed(prev, k) =~= a.filter(pred));
        assert(keyed(prev.insert(p, x), k) =~= a.filter(pred).push(x));
    }
}

fn before_exec(a: &SubTrack, b: &SubTrack) -> (r: bool)
    ensures
        r == track_before(a@, b@),
{
    let id = chars_of("id");
    let la = chars_of(a.lang.as_str());
    let lb = chars_of(b.lang.as_str());
    let ka: u8 = if chars_eq(&la, &id) {
        0
    } else {
        1
    };
    let kb: u8 = if chars_eq(&lb, &id) {
        0
    } else {
        1
    };
    ka < kb || (ka == kb && a.index <= b.index)
}

/// Sorts subtitle tracks: priority language (`id`) first, then stream
/// index. The result holds the same tracks, and tracks with the same key
/// keep their order (a stable sort).
pub fn sort_tracks(tracks: &mut Vec<SubTrack>)
    ensures
        tracks_sorted(tracks_view(final(tracks)@)),
        tracks_view(final(tracks)@).to_multiset() == tracks_view(old(tracks)@).to_multiset(),
        forall|k: (int, int)|
            #[trigger] keyed(tracks_view(final(tracks)@), k) == keyed(tracks_view(old(tracks)@), k),
{
    broadcast use vstd::seq_lib::group_to_multiset_ensures, vstd::multiset::group_multiset_axioms;

    let mut src: Vec<SubTrack> = Vec::new();
    std::mem::swap(&mut src, tracks);
    let ghost orig = tracks_view(src@);
    let mut out: Vec<SubTrack> = Vec::new();
    let mut k: usize = 0;
    while k < src.len()
        invariant
            k <= src@.len(),
            orig == tracks_view(src@),
            tracks_sorted(tracks_view(out@)),
            tracks_view(out@).to_multiset() == orig.take(k as int).to_multiset(),
            forall|key: (int, int)|
                #[trigger] keyed(tracks_view(out@), key) == keyed(orig.take(k as int), key),
        decreases src@.len() - k,
    {
        let x = src[k].duplicate();
        let mut p: usize = out.len();
        while p > 0 && !before_exec(&out[p - 1], &x)
            invariant
                p <= out@.len(),
                tracks_sorted(tracks_view(out@)),
                forall|j: int| p <= j < out@.len() ==> !track_before(out@[j]@, x@),
            decreases p,
        {
            p = p - 1;
        }
        let ghost prev = tracks_view(out@);
        proof {
            if p > 0 {
                assert(track_before(prev[p - 1], x@));
            }
        }
        out.insert(p, x);
        proof {
            let cur = tracks_view(out@);
            assert(cur =~= prev.insert(p as int, x@));
            assert forall|i: int, j: int| 0 <= i < j < cur.len() implies track_before(cur[i], cur[j]) by {
                if j < p {
                    assert(cur[i] == prev[i] && cur[j] == prev[j]);
                } else if j == p {
                    assert(cur[i] == prev[i]);
                    assert(track_before(prev[i], prev[p - 1]) || i == p - 1);
                } else if i == p {
                    assert(cur[j] == prev[j - 1]);
                    assert(!track_before(prev[j - 1], x@));
                } else if i < p {
                    assert(cur[i] == prev[i] && cur[j] == prev[j - 1]);
                } else {
                    assert(cur[i] == prev[i - 1] && cur[j] == prev[j - 1]);
                }
            }
            assert(orig.take(k + 1) =~= orig.take(k as int).push(orig[k as int]));
            orig.take(k as int).to_multiset_ensures();
            assert(orig.take(k + 1).to_multiset() =~= orig.take(k as int).to_multiset().insert(
                orig[k as int],
            ));
            assert(cur.remove(p as int) =~= prev);
            assert(cur[p as int] == orig[k as int]);
            cur.to_multiset_ensures();
            assert(cur.remove(p as int).to_multiset() =~= cur.to_multiset().remove(cur[p as int]));
            assert(cur.contains(x@));
            assert(cur.to_multiset().count(x@) > 0);
            assert(cur.to_multiset() =~= prev.to_multiset().insert(orig[k as int]));
            assert forall|key: (int, int)|
                #[trigger] keyed(cur, key) == keyed(orig.take(k + 1), key) by {
                lemma_keyed_insert(prev, p as int, x@, key);
                orig.take(k as int).lemma_filter_push(orig[k as int], key_is(key));
            }
        }
        k = k + 1;
    }
    assert(orig.take(src@.len() as int) =~= orig);
    *tracks = out;
}

/// `S<index>:'<lang>'[<codec>]`, with ` (<title>)` when there is one.
pub open spec fn track_label_spec(t: TrackView) -> Seq<char> {
    let base = seq!['S'] + int_text(t.index) + ":'"@ + t.lang + "'["@ + t.codec + "]"@;
    if t.title.len() == 0 {
        base
    } else {
        base + " ("@ + t.title + ")"@
    }
}

/// The label of a subtitle track in a status line.
pub fn track_label(t: &SubTrack) -> (r: String)
    ensures
        r@ == track_label_spec(t@),
{
    let mut out: Vec<char> = vec!['S'];
    push_int(&mut out, t.index as i64);
    push_str(&mut out, ":'");
    push_str(&mut out, t.lang.as_str());
    push_str(&mut out, "'[");
    push_str(&mut out, t.codec.as_str());
    push_str(&mut out, "]");
    let ghost base = out@;
    assert(base =~= seq!['S'] + int_text(t.index as int) + ":'"@ + t.lang@ + "'["@ + t.codec@ + "]"@);
    if t.title.as_str().unicode_len() > 0 {
        push_str(&mut out, " (");
        push_str(&mut out, t.title.as_str());
        push_str(&mut out, ")");
        assert(out@ =~= base + " ("@ + t.title@ + ")"@);
    }
    string_of(&out)
}

/// `A<index>:'<lang>'[<codec>]`.
pub open spec fn audio_label_spec(t: TrackView) -> Seq<char> {
    seq!['A'] + int_text(t.index) + ":'"@ + t.lang + "'["@ + t.codec + "]"@
}

/// The label of an audio track in a status line.
pub fn audio_label(t: &SubTrack) -> (r: String)
    ensures
        r@ == audio_label_spec(t@),
{
    let mut out: Vec<char> = vec!['A'];
    push_int(&mut out, t.index as i64);
    push_str(&mut out, ":'");
    push_str(&mut out, t.lang.as_str());
    push_str(&mut out, "'[");
    push_str(&mut out, t.codec.as_str());
    push_str(&mut out, "]");
    assert(out@ =~= audio_label_spec(t@));
    string_of(&out)
}

/// Where a subtitle track goes: the priority language (`id`) into the
/// main folder as `<stem>.id.<ext>`, others into a folder named after
/// their language as `<stem>.<lang>.<ext>`.
pub open spec fn sub_output_spec(safe: Seq<char>, t: TrackView) -> (Option<Seq<char>>, Seq<char>) {
    let stem = output_stem_spec(safe, 'S', t.index, t.title);
    let ext = codec_ext_spec(lowercase_spec(t.codec));
    if t.lang == "id"@ {
        (None, stem + ".id."@ + ext)
    } else {
        (Some(t.lang), stem + "."@ + t.lang + "."@ + ext)
    }
}

/// The folder (below the output folder, if any) and file name for a
/// subtitle track.
pub fn sub_output(safe: &str, t: &SubTrack) -> (r: (Option<String>, String))
    ensures
        (match r.0 {
            Some(d) => Some(d@),
            None => None::<Seq<char>>,
        }, r.1@) == sub_output_spec(safe@, t@),
{
    let ext = ext_for_codec(t.codec.as_str());
    let stem = output_stem(safe, 'S', t.index, t.title.as_str());
    let mut name = chars_of(stem.as_str());
    let lang = chars_of(t.lang.as_str());
    let id = chars_of("id");
    if chars_eq(&lang, &id) {
        push_str(&mut name, ".id.");
        push_str(&mut name, ext);
        (None, string_of(&name))
    } else {
        push_str(&mut name, ".");
        push_str(&mut name, t.lang.as_str());
        push_str(&mut name, ".");
        push_str(&mut name, ext);
        (Some(t.lang.clone()), string_of(&name))
    }
}

/// The file name for an audio track: `<stem>.<lang>.<ext>`.
pub open spec fn audio_output_spec(safe: Seq<char>, t: TrackView) -> Seq<char> {
    output_stem_spec(safe, 'A', t.index, t.title) + "."@ + t.lang + "."@ + audio_ext_spec(
        lowercase_spec(t.codec),
    )
}

pub fn audio_output(safe: &str, t: &SubTrack) -> (r: String)
    ensures
        r@ == audio_output_spec(safe@, t@),
{
    let ext = audio_ext(t.codec.as_str());
    let stem = output_stem(safe, 'A', t.index, t.title.as_str());
    let mut name = chars_of(stem.as_str());
    push_str(&mut name, ".");
    push_str(&mut name, t.lang.as_str());
    push_str(&mut name, ".");
    push_str(&mut name, ext);
    string_of(&name)
}

/// A per-track problem note: `<kind><index>:<reason>`.
pub fn problem(kind: char, index: i32, reason: &str) -> (r: String)
    ensures
        r@ == seq![kind] + int_text(index as int) + ":"@ + reason@,
{
    let mut out: Vec<char> = vec![kind];
    push_int(&mut out, index as i64);
    push_str(&mut out, ":");
    push_str(&mut out, reason);
    string_of(&out)
}

/// The status line of one video file.
pub open spec fn status_line_spec(
    name: Seq<char>,
    extracted: nat,
    tracks: nat,
    audio: Option<(nat, nat)>,
    debug: Seq<Seq<char>>,
    problems: Seq<Seq<char>>,
) -> Seq<char> {
    name + " OK "@ + decimal(extracted) + "/"@ + decimal(tracks) + " subtitle(s)"@ + match audio {
        Some((d, t)) => " + "@ + decimal(d) + "/"@ + decimal(t) + " audio"@,
        None => seq![],
    } + " ["@ + join_strs(debug, " | "@) + "]"@ + if problems.len() > 0 {
        " -- "@ + join_strs(problems, ", "@)
    } else {
        seq![]
    }
}

fn push_count(out: &mut Vec<char>, n: usize)
    ensures
        final(out)@ == old(out)@ + decimal(n as nat),
{
    push_padded(out, n as u64, 0);
}

/// `<name> OK <extracted>/<tracks> subtitle(s)[ + <done>/<total> audio]
/// [<labels>][ -- <problems>]`.
pub fn status_line(
    name: &str,
    extracted: usize,
    tracks: usize,
    audio: Option<(usize, usize)>,
    debug: &[String],
    problems: &[String],
) -> (r: String)
    ensures
        r@ == status_line_spec(
            name@,
            extracted as nat,
            tracks as nat,
            match audio {
                Some((d, t)) => Some((d as nat, t as nat)),
                None => None,
            },
            debug@.map_values(|s: String| s@),
            problems@.map_values(|s: String| s@),
        ),
{
    let mut out = chars_of(name);
    push_str(&mut out, " OK ");
    push_count(&mut out, extracted);
    push_str(&mut out, "/");
    push_count(&mut out, tracks);
    push_str(&mut out, " subtitle(s)");
    let ghost a = out@;
    match audio {
        Some((d, t)) => {
            push_str(&mut out, " + ");
            push_count(&mut out, d);
            push_str(&mut out, "/");
            push_count(&mut out, t);
            push_str(&mut out, " audio");
        },
        None => {},
    }
    let ghost b = out@;
    push_str(&mut out, " [");
    push_joined(&mut out, debug, " | ");
    push_str(&mut out, "]");
    let ghost c = out@;
    if problems.len() > 0 {
        push_str(&mut out, " -- ");
        push_joined(&mut out, problems, ", ");
    }
    assert(out@ =~= status_line_spec(
        name@,
        extracted as nat,
        tracks as nat,
        match audio {
            Some((d, t)) => Some((d as nat, t as nat)),
            None => None,
        },
        debug@.map_values(|s: String| s@),
        problems@.map_values(|s: String| s@),
    ));
    string_of(&out)
}

/// Whether a track is skipped: its output file exists and overwriting was
/// not asked for (existing files are then left as they are).
pub fn skip_existing(exists: bool, overwrite: bool) -> (b: bool)
    ensures
        b == (exists && !overwrite),
{
    exists && !overwrite
}

/// Code-point order on text, which is the byte order of its UTF-8 form
/// (`str`'s `Ord`).
pub open spec fn text_le(a: Seq<char>, b: Seq<char>) -> bool
    decreases a.len(),
{
    if a.len() == 0 {
        true
    } else if b.len() == 0 {
        false
    } else if a[0] == b[0] {
        text_le(a.drop_first(), b.drop_first())
    } else {
        a[0] < b[0]
    }
}

proof fn lemma_text_le_total(a: Seq<char>, b: Seq<char>)
    ensures
        text_le(a, b) || text_le(b, a),
    decreases a.len(),
{
    if a.len() > 0 && b.len() > 0 && a[0] == b[0] {
        lemma_text_le_total(a.drop_first(), b.drop_first());
    }
}

proof fn lemma_text_le_antisym(a: Seq<char>, b: Seq<char>)
    requires
        text_le(a, b),
        text_le(b, a),
    ensures
        a == b,
    decreases a.len(),
{
    if a.len() > 0 && b.len() > 0 {
        if a[0] == b[0] {
            lemma_text_le_antisym(a.drop_first(), b.drop_first());
            assert(a =~= seq![a[0]] + a.drop_first());
            assert(b =~= seq![b[0]] + b.drop_first());
        } else {
        }
    } else if a.len() == 0 && b.len() > 0 {
    } else {
        assert(a =~= b);
    }
}

proof fn lemma_text_le_trans(a: Seq<char>, b: Seq<char>, c: Seq<char>)
    requires
        text_le(a, b),
        text_le(b, c),
    ensures
        text_le(a, c),
    decreases a.len(),
{
    if a.len() > 0 && b.len() > 0 && c.len() > 0 {
        if a[0] == b[0] && b[0] == c[0] {
            lemma_text_le_trans(a.drop_first(), b.drop_first(), c.drop_first());
        }
    }
}

/// Order of the per-language breakdown: `id` first, the others by name.
pub open spec fn lang_before(a: Seq<char>, b: Seq<char>) -> bool {
    let ka: int = if a == "id"@ {
        0
    } else {
        1
    };
    let kb: int = if b == "id"@ {
        0
    } else {
        1
    };
    ka < kb || (ka == kb && text_le(a, b))
}

proof fn lemma_lang_before_total(a: Seq<char>, b: Seq<char>)
    ensures
        lang_before(a, b) || lang_before(b, a),
{
    lemma_text_le_total(a, b);
}

proof fn lemma_lang_before_trans(a: Seq<char>, b: Seq<char>, c: Seq<char>)
    requires
        lang_before(a, b),
        lang_before(b, c),
    ensures
        lang_before(a, c),
{
    if (a == "id"@) == (b == "id"@) && (b == "id"@) == (c == "id"@) {
        lemma_text_le_trans(a, b, c);
    }
}

/// The breakdown line of one language: `id` goes to the main folder, the
/// others to a subfolder of their own.
pub open spec fn breakdown_line(lang: Seq<char>, count: nat) -> Seq<char> {
    "  - "@ + lang + ": "@ + decimal(count) + " subtitle(s) -> "@ + if lang == "id"@ {
        "main folder"@
    } else {
        "subfolder ("@ + lang + "/)"@
    }
}

pub open spec fn counts_view(cs: Seq<(String, usize)>) -> Seq<(Seq<char>, nat)> {
    cs.map_values(|p: (String, usize)| (p.0@, p.1 as nat))
}

pub open spec fn counts_sorted(cs: Seq<(Seq<char>, nat)>) -> bool {
    forall|i: int, j: int| 0 <= i < j < cs.len() ==> lang_before(cs[i].0, cs[j].0)
}

pub open spec fn lang_is(l: Seq<char>) -> spec_fn((Seq<char>, nat)) -> bool {
    |p: (Seq<char>, nat)| p.0 == l
}

/// The entries for language `l`, in their order.
pub open spec fn counts_for(cs: Seq<(Seq<char>, nat)>, l: Seq<char>) -> Seq<(Seq<char>, nat)> {
    cs.filter(lang_is(l))
}

fn text_le_exec(a: &[char], b: &[char]) -> (r: bool)
    ensures
        r == text_le(a@, b@),
{
    let mut i: usize = 0;
    assert(a@.skip(0) =~= a@ && b@.skip(0) =~= b@);
    while i < a.len() && i < b.len() && a[i] == b[i]
        invariant
            i <= a@.len(),
            i <= b@.len(),
            text_le(a@, b@) == text_le(a@.skip(i as int), b@.skip(i as int)),
        decreases a@.len() - i,
    {
        assert(a@.skip(i as int).drop_first() =~= a@.skip(i + 1));
        assert(b@.skip(i as int).drop_first() =~= b@.skip(i + 1));
        i = i + 1;
    }
    if i == a.len() {
        true
    } else if i == b.len() {
        false
    } else {
        a[i] < b[i]
    }
}

fn lang_before_exec(a: &String, b: &String) -> (r: bool)
    ensures
        r == lang_before(a@, b@),
{
    let id = chars_of("id");
    let va = chars_of(a.as_str());
    let vb = chars_of(b.as_str());
    let ka: u8 = if chars_eq(&va, &id) {
        0
    } else {
        1
    };
    let kb: u8 = if chars_eq(&vb, &id) {
        0
    } else {
        1
    };
    ka < kb || (ka == kb && text_le_exec(&va, &vb))
}

proof fn lemma_counts_insert(prev: Seq<(Seq<char>, nat)>, p: int, x: (Seq<char>, nat), l: Seq<char>)
    requires
        0 <= p <= prev.len(),
        forall|j: int| p <= j < prev.len() ==> !lang_before(#[trigger] prev[j].0, x.0),
    ensures
        counts_for(prev.insert(p, x), l) == (if x.0 == l {
            counts_for(prev, l).push(x)
        } else {
            counts_for(prev, l)
        }),
{
    let pred = lang_is(l);
    let a = prev.take(p);
    let b = prev.skip(p);
    assert(prev =~= a + b);
    assert(prev.insert(p, x) =~= a.push(x) + b);
    Seq::filter_distributes_over_add(a.push(x), b, pred);
    Seq::filter_distributes_over_add(a, b, pred);
    a.lemma_filter_push(x, pred);
    if x.0 == l {
        assert(b.all(|q: (Seq<char>, nat)| !pred(q))) by {
            assert forall|j: int| 0 <= j < b.len() implies !pred(#[trigger] b[j]) by {
                assert(b[j] == prev[p + j]);
                assert(!lang_before(prev[p + j].0, x.0));
                if b[j].0 == l {
                    lemma_text_le_total(x.0, x.0);
                }
            }
        }
        b.lemma_all_neg_filter_empty(pred);
        assert(b.filter(pred) =~= Seq::<(Seq<char>, nat)>::empty());
        assert(counts_for(prev, l) =~= a.filter(pred));
        assert(counts_for(prev.insert(p, x), l) =~= a.filter(pred).push(x));
    }
}

/// The per-language breakdown of an extraction run: one line per entry,
/// `id` first and the other languages by name; entries for one language
/// keep their order (a stable sort).
pub fn lang_breakdown(counts: &[(String, usize)]) -> (r: Vec<String>)
    ensures
        exists|sorted: Seq<(Seq<char>, nat)>|
            {
                &&& counts_sorted(sorted)
                &&& sorted.to_multiset() == counts_view(counts@).to_multiset()
                &&& forall|l: Seq<char>| #[trigger]
                    counts_for(sorted, l) == counts_for(counts_view(counts@), l)
                &&& r@.map_values(|s: String| s@) == sorted.map_values(
                    |p: (Seq<char>, nat)| breakdown_line(p.0, p.1),
                )
            },
{
    broadcast use vstd::seq_lib::group_to_multiset_ensures, vstd::multiset::group_multiset_axioms;

    let ghost orig = counts_view(counts@);
    let mut out: Vec<(String, usize)> = Vec::new();
    let mut k: usize = 0;
    while k < counts.len()
        invariant
            k <= counts@.len(),
            orig == counts_view(counts@),
            counts_sorted(counts_view(out@)),
            counts_view(out@).to_multiset() == orig.take(k as int).to_multiset(),
            forall|l: Seq<char>|
                #[trigger] counts_for(counts_view(out@), l) == counts_for(orig.take(k as int), l),
        decreases counts@.len() - k,
    {
        let x = (counts[k].0.clone(), counts[k].1);
        let ghost xv = (x.0@, x.1 as nat);
        assert(xv == orig[k as int]);
        let mut p: usize = out.len();
        while p > 0 && !lang_before_exec(&out[p - 1].0, &x.0)
            invariant
                p <= out@.len(),
                counts_sorted(counts_view(out@)),
                forall|j: int| p <= j < out@.len() ==> !lang_before(#[trigger] out@[j].0@, x.0@),
            decreases p,
        {
            p = p - 1;
        }
        let ghost prev = counts_view(out@);
        proof {
            if p > 0 {
                assert(lang_before(prev[p - 1].0, xv.0));
            }
        }
        out.insert(p, x);
        proof {
            let cur = counts_view(out@);
            assert(cur =~= prev.insert(p as int, xv));
            assert forall|i: int, j: int| 0 <= i < j < cur.len() implies lang_before(
                cur[i].0,
                cur[j].0,
            ) by {
                if j < p {
                    assert(cur[i] == prev[i] && cur[j] == prev[j]);
                } else if j == p {
                    assert(cur[i] == prev[i]);
                    if i < p - 1 {
                        lemma_lang_before_trans(prev[i].0, prev[p - 1].0, xv.0);
                    }
                } else if i == p {
                    assert(cur[j] == prev[j - 1]);
                    assert(!lang_before(prev[j - 1].0, xv.0));
                    lemma_lang_before_total(prev[j - 1].0, xv.0);
                } else if i < p {
                    assert(cur[i] == prev[i] && cur[j] == prev[j - 1]);
                } else {
                    assert(cur[i] == prev[i - 1] && cur[j] == prev[j - 1]);
                }
            }
            assert(orig.take(k + 1) =~= orig.take(k as int).push(orig[k as int]));
            orig.take(k as int).to_multiset_ensures();
            assert(orig.take(k + 1).to_multiset() =~= orig.take(k as int).to_multiset().insert(
                orig[k as int],
            ));
            assert(cur.remove(p as int) =~= prev);
            cur.to_multiset_ensures();
            assert(cur.remove(p as int).to_multiset() =~= cur.to_multiset().remove(cur[p as int]));
            assert(cur.contains(xv));
            assert(cur.to_multiset().count(xv) > 0);
            assert(cur.to_multiset() =~= prev.to_multiset().insert(orig[k as int]));
            assert forall|l: Seq<char>|
                #[trigger] counts_for(cur, l) == counts_for(orig.take(k + 1), l) by {
                lemma_counts_insert(prev, p as int, xv, l);
                orig.take(k as int).lemma_filter_push(orig[k as int], lang_is(l));
            }
        }
        k = k + 1;
    }
    assert(orig.take(counts@.len() as int) =~= orig);
    let ghost sorted = counts_view(out@);
    let mut lines: Vec<String> = Vec::new();
    let mut i: usize = 0;
    while i < out.len()
        invariant
            i <= out@.len(),
            sorted == counts_view(out@),
            lines@.map_values(|s: String| s@) == sorted.take(i as int).map_values(
                |p: (Seq<char>, nat)| breakdown_line(p.0, p.1),
            ),
        decreases out@.len() - i,
    {
        let l = &out[i].0;
        let mut v: Vec<char> = Vec::new();
        push_str(&mut v, "  - ");
        push_str(&mut v, l.as_str());
        push_str(&mut v, ": ");
        push_count(&mut v, out[i].1);
        push_str(&mut v, " subtitle(s) -> ");
        if chars_eq(&chars_of(l.as_str()), &chars_of("id")) {
            push_str(&mut v, "main folder");
        } else {
            push_str(&mut v, "subfolder (");
            push_str(&mut v, l.as_str());
            push_str(&mut v, "/)");
        }
        assert(v@ =~= breakdown_line(sorted[i as int].0, sorted[i as int].1));
        let ghost before = lines@.map_values(|s: String| s@);
        lines.push(string_of(&v));
        assert(lines@.map_values(|s: String| s@) =~= before.push(v@));
        assert(sorted.take(i + 1) =~= sorted.take(i as int).push(sorted[i as int]));
        assert(sorted.take(i + 1).map_values(|p: (Seq<char>, nat)| breakdown_line(p.0, p.1))
            =~= sorted.take(i as int).map_values(|p: (Seq<char>, nat)| breakdown_line(p.0, p.1)).push(
            breakdown_line(sorted[i as int].0, sorted[i as int].1),
        ));
        i = i + 1;
    }
    assert(sorted.take(out@.len() as int) =~= sorted);
    lines
}

} // verus!
