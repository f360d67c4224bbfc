use std::path::{Path, PathBuf};

use subx::commands::clean::{clean_ext_ok, clean_one, CleanArgs};
use subx::commands::extract::{
    audio_ext, audio_label, audio_output, ext_for_codec, output_stem, parse_exts, problem,
    sort_tracks, status_line, sub_output, track_label, SubTrack,
};
use subx::commands::fetch;
use subx::commands::mux::{
    build_args, escape_filter_path, ext_of, file_kind, matches_stem, sub_lang_639_2, FileKind,
    MuxArg, MuxPlan,
};
use subx::commands::shift::{shift_one, ShiftArgs};
use subx::subs::{srt, SubFormat};

fn stem_of(p: &str) -> String {
    Path::new(p)
        .file_stem()
        .and_then(|s| s.to_str())
        .unwrap_or("")
        .to_string()
}

fn lang_of(p: &str) -> Option<String> {
    Path::new(p)
        .file_stem()
        .and_then(|s| s.to_str())
        .and_then(sub_lang_639_2)
}

fn track(index: i32, lang: &str) -> SubTrack {
    SubTrack {
        index,
        lang: lang.into(),
        codec: "subrip".into(),
        title: String::new(),
    }
}

/// Renders mux arguments with the given paths in place of the path slots.
fn render(args: &[MuxArg], video: &str, audios: &[&str], subs: &[&str], out: &str) -> Vec<String> {
    args.iter()
        .map(|a| match a {
            MuxArg::Text(s) => s.clone(),
            MuxArg::Video => video.to_string(),
            MuxArg::Audio(i) => audios[*i].to_string(),
            MuxArg::Sub(i) => subs[*i].to_string(),
            MuxArg::Out => out.to_string(),
        })
        .collect()
}

#[test]
fn parses_ext_list() {
    assert_eq!(parse_exts("mkv,mp4,mka"), ["mkv", "mp4", "mka"]);
    assert_eq!(parse_exts("MKV, .mp4 ,"), ["mkv", "mp4"]);
    assert!(parse_exts("").is_empty());
}

#[test]
fn maps_codec_to_extension() {
    assert_eq!(ext_for_codec("ass"), "ass");
    assert_eq!(ext_for_codec("ssa"), "ass");
    assert_eq!(ext_for_codec("subrip"), "srt");
    assert_eq!(ext_for_codec("mov_text"), "srt");
    assert_eq!(ext_for_codec("webvtt"), "vtt");
    assert_eq!(ext_for_codec("hdmv_pgs_subtitle"), "sup");
    assert_eq!(ext_for_codec("dvd_subtitle"), "sup");
    assert_eq!(ext_for_codec("something_new"), "srt");
}

#[test]
fn codec_names_are_case_insensitive() {
    assert_eq!(ext_for_codec("ASS"), "ass");
    assert_eq!(audio_ext("AAC"), "m4a");
}

#[test]
fn maps_audio_codec_to_container() {
    assert_eq!(audio_ext("aac"), "m4a");
    assert_eq!(audio_ext("alac"), "m4a");
    assert_eq!(audio_ext("mp3"), "mp3");
    assert_eq!(audio_ext("opus"), "opus");
    assert_eq!(audio_ext("vorbis"), "ogg");
    assert_eq!(audio_ext("flac"), "flac");
    assert_eq!(audio_ext("ac3"), "ac3");
    assert_eq!(audio_ext("eac3"), "eac3");
    assert_eq!(audio_ext("dts"), "dts");
    assert_eq!(audio_ext("pcm_s16le"), "wav");
    assert_eq!(audio_ext("truehd"), "thd");
    assert_eq!(audio_ext("something_new"), "mka");
}

#[test]
fn builds_output_stems() {
    assert_eq!(output_stem("Show_01", 'S', 2, ""), "Show_01.S2");
    assert_eq!(output_stem("Show_01", 'S', 2, "Forced"), "Show_01.S2.Forced");
    assert_eq!(output_stem("Show_01", 'A', 4, ""), "Show_01.A4");
    assert_eq!(output_stem("Show_01", 'S', 2, "..."), "Show_01.S2");
    let long = "t".repeat(80);
    assert_eq!(
        output_stem("Show_01", 'S', 2, &long).chars().count(),
        "Show_01.S2.".chars().count() + 50
    );
}

#[test]
fn output_stems_are_capped() {
    let safe = "s".repeat(160);
    assert_eq!(output_stem(&safe, 'S', -1, "").chars().count(), 150);
    assert_eq!(output_stem("x", 'S', -3, ""), "x.S-3");
}

#[test]
fn sorts_id_first_then_index() {
    let mut tracks = vec![track(3, "en"), track(2, "id"), track(1, "unknown")];
    sort_tracks(&mut tracks);
    let order: Vec<i32> = tracks.iter().map(|t| t.index).collect();
    assert_eq!(order, [2, 1, 3]);
}

#[test]
fn names_outputs_and_status_lines() {
    let mut t = track(2, "en");
    t.title = "Signs".into();
    assert_eq!(track_label(&t), "S2:'en'[subrip] (Signs)");
    assert_eq!(audio_label(&track(1, "ja")), "A1:'ja'[subrip]");
    assert_eq!(
        sub_output("Ep", &t),
        (Some("en".to_string()), "Ep.S2.Signs.en.srt".to_string())
    );
    assert_eq!(sub_output("Ep", &track(3, "id")), (None, "Ep.S3.id.srt".to_string()));
    let mut a = track(1, "ja");
    a.codec = "aac".into();
    assert_eq!(audio_output("Ep", &a), "Ep.A1.ja.m4a");
    assert_eq!(problem('S', 4, "skipped(exists)"), "S4:skipped(exists)");
    let line = status_line(
        "Ep.mkv",
        1,
        2,
        Some((1, 1)),
        &["S2:'en'[subrip]".to_string(), "S3:'id'[ass]".to_string()],
        &["S3:empty_output".to_string()],
    );
    assert_eq!(
        line,
        "Ep.mkv OK 1/2 subtitle(s) + 1/1 audio [S2:'en'[subrip] | S3:'id'[ass]] -- S3:empty_output"
    );
    assert_eq!(status_line("x", 0, 0, None, &[], &[]), "x OK 0/0 subtitle(s) []");
}

#[test]
fn builds_ytdlp_args() {
    let a = fetch::build_args("URL", "id", "srt/ass", "Subs");
    assert_eq!(
        a,
        [
            "--yes-playlist",
            "--skip-download",
            "--write-subs",
            "--write-auto-subs",
            "--sub-lang",
            "id",
            "--sub-format",
            "srt/ass",
            "-o",
            "Subs/%(uploader)s - %(title)s [%(id)s].%(ext)s",
            "--no-warnings",
            "URL"
        ]
    );
}

#[test]
fn builds_softmux_args() {
    let plan = MuxPlan {
        audios: 1,
        sub_langs: vec![Some("eng".to_string())],
        hardsub: None,
        title: Some("T".to_string()),
    };
    let built = render(&build_args(&plan), "v.mkv", &["a.mka"], &["ep.en.srt"], "o.mkv");
    assert_eq!(
        built,
        [
            "-y", "-i", "v.mkv", "-i", "a.mka", "-i", "ep.en.srt", "-map", "0:v", "-map", "0:a?",
            "-map", "1:a", "-map", "2:s", "-metadata:s:s:0", "language=eng", "-metadata", "title=T",
            "-c", "copy", "o.mkv"
        ]
    );
}

#[test]
fn builds_hardsub_args() {
    let plan = MuxPlan {
        audios: 0,
        sub_langs: vec![],
        hardsub: Some("sub.ass".to_string()),
        title: None,
    };
    let a = render(&build_args(&plan), "v.mkv", &[], &[], "o.mkv");
    assert!(a.contains(&"-vf".to_string()));
    let vf = &a[a.iter().position(|x| x == "-vf").unwrap() + 1];
    assert!(vf.starts_with("subtitles=") && vf.ends_with("sub.ass"));
    for flag in ["libx264", "18", "fast"] {
        assert!(a.contains(&flag.to_string()), "missing {flag}");
    }
}

#[test]
fn escapes_filter_paths() {
    assert_eq!(escape_filter_path("C:\\A'B:C.ass"), "C\\\\:/A\\\\'B\\\\:C.ass");
    assert_eq!(escape_filter_path("Ep 01 [480p].ass"), "Ep 01 \\\\[480p\\\\].ass");
    assert_eq!(escape_filter_path("plain.ass"), "plain.ass");
}

#[test]
fn derives_sub_languages() {
    assert_eq!(lang_of("Ep01.id.ass"), Some("ind".to_string()));
    assert_eq!(lang_of("Ep01.ENG.srt"), Some("eng".to_string()));
    assert_eq!(lang_of("Show - 01 [480p].srt"), None);
    assert_eq!(lang_of("noext"), None);
}

#[test]
fn matches_episode_stems() {
    let v = Path::new("Ep01.mkv");
    let m = |c: &str| matches_stem(&stem_of(c), "Ep01", Path::new(c) == v);
    assert!(m("Ep01.id.ass"));
    assert!(m("Ep01.mka"));
    assert!(!m("Ep02.id.ass"));
    assert!(!m("Ep01.mkv"));
}

#[test]
fn classifies_batch_files() {
    assert_eq!(file_kind(&ext_of(Some("MKV"))), FileKind::Video);
    assert_eq!(file_kind("sup"), FileKind::Subtitle);
    assert_eq!(file_kind("opus"), FileKind::Audio);
    assert_eq!(file_kind(&ext_of(None)), FileKind::Other);
}

#[test]
fn shift_one_moves_and_drops() {
    let mut file = srt::parse("1\n00:00:02,000 --> 00:00:03,000\nHi\n\n2\n00:00:04,000 --> 00:00:05,000\n{\\i1}\n\n").unwrap();
    let args = ShiftArgs {
        input: PathBuf::from("in.srt"),
        output: PathBuf::from("out.srt"),
        shift_ms: -1500,
        no_clean: false,
        keep_tag_only: false,
        recursive: false,
        ext: ".srt".into(),
    };
    let s = shift_one(&mut file, &args);
    assert_eq!((s.before, s.after, s.removed), (2, 1, 1));
    assert_eq!((file.events[0].start_ms, file.events[0].end_ms), (500, 1500));
}

#[test]
fn clean_one_rebuilds_the_header() {
    assert!(clean_ext_ok("SSA"));
    assert!(!clean_ext_ok("srt"));
    let file = srt::parse("1\n00:00:01,000 --> 00:00:02,000\nVisit example.com\n\n2\n00:00:03,000 --> 00:00:04,000\n{\\i1}Hello there{\\i0}\n\n").unwrap();
    let args = CleanArgs {
        input: PathBuf::from("in.ass"),
        output: PathBuf::from("out.ass"),
        keep_karaoke: true,
        drop_junk: true,
        font: "Arial".into(),
        shift_ms: 0,
        in_place: false,
        recursive: false,
    };
    let (out, stats) = clean_one(&file, &args);
    assert_eq!(out.format, SubFormat::Ass);
    assert_eq!((stats.dialogs, stats.karaoke), (1, 0));
    assert_eq!(out.events[0].text, "Hello there");
    assert_eq!(out.header[1], "Title: Cleaned Dialogs Keep Karaoke");
}

fn sibling(stem: &str, ext: &str, is_video: bool) -> subx::commands::mux::Sibling {
    subx::commands::mux::Sibling { stem: stem.into(), ext: ext.into(), is_video }
}

#[test]
fn picks_episode_tracks_by_stem_and_kind() {
    let sibs = vec![
        sibling("Ep01", "mkv", true),
        sibling("Ep01.id", "ASS", false),
        sibling("Ep01.jp", "mka", false),
        sibling("Ep010", "srt", false),
        sibling("Ep02.id", "ass", false),
        sibling("ep01.en", "srt", false),
        sibling("Ep01", "txt", false),
        sibling("Ep01", "", false),
    ];
    let (audios, subs) = subx::commands::mux::episode_files("Ep01", &sibs);
    assert_eq!(audios, [2]);
    assert_eq!(subs, [1, 5]);
}

#[test]
fn existing_outputs_are_skipped_unless_overwriting() {
    assert!(subx::commands::extract::skip_existing(true, false));
    assert!(!subx::commands::extract::skip_existing(true, true));
    assert!(!subx::commands::extract::skip_existing(false, false));
}
