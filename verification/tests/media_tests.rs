use subx::commands::extract::{
    audio_tracks, subtitle_tracks, track_of, try_audio_tracks, try_subtitle_tracks,
};
use subx::media::probe::{Chapter, Stream};

/// The library's view of one stream object of an ffprobe JSON report.
fn stream_of(v: &serde_json::Value) -> Stream {
    let text = |key: &str| v.get(key).and_then(|x| x.as_str()).map(str::to_string);
    let pairs = |key: &str| -> Vec<(String, serde_json::Value)> {
        v.get(key)
            .and_then(|x| x.as_object())
            .map(|o| o.iter().map(|(k, x)| (k.clone(), x.clone())).collect())
            .unwrap_or_default()
    };
    Stream {
        index: v["index"].as_i64().unwrap() as i32,
        codec_name: text("codec_name"),
        codec_type: text("codec_type"),
        tags: pairs("tags")
            .into_iter()
            .map(|(k, x)| (k, x.as_str().unwrap_or("").to_string()))
            .collect(),
        disposition: pairs("disposition").into_iter().map(|(k, x)| (k, x.as_i64())).collect(),
    }
}

fn streams_of(json: &str) -> Vec<Stream> {
    let v: serde_json::Value = serde_json::from_str(json).unwrap();
    v["streams"].as_array().unwrap().iter().map(stream_of).collect()
}

const SAMPLE: &str = r#"{
    "streams": [
        {"index": 0, "codec_name": "h264", "codec_type": "video", "tags": {}},
        {"index": 1, "codec_name": "aac", "codec_type": "audio"},
        {"index": 2, "codec_name": "subrip", "codec_type": "subtitle",
         "tags": {"language": "eng", "title": "Full"}},
        {"index": 3, "codec_name": "ass", "codec_type": "subtitle", "tags": {}}
    ]
}"#;

#[test]
fn parses_ffprobe_sample() {
    let streams = streams_of(SAMPLE);
    assert_eq!(streams.len(), 4);

    let subs: Vec<&Stream> = streams.iter().filter(|s| s.is_subtitle()).collect();
    assert_eq!(subs.len(), 2);
    assert_eq!(subs[0].language_raw(), "eng");
    assert_eq!(subs[0].title_raw(), "Full");
    // Missing tags default to empty.
    assert_eq!(subs[1].language_raw(), "");
    assert_eq!(streams[1].language_raw(), "");
}

#[test]
fn reads_disposition_flags() {
    let s = stream_of(
        &serde_json::from_str(
            r#"{"index": 5, "codec_type": "subtitle", "disposition": {"default": 1, "forced": 0}}"#,
        )
        .unwrap(),
    );
    assert!(s.is_default());
    assert!(!s.is_forced());
    let none = stream_of(&serde_json::from_str(r#"{"index": 6}"#).unwrap());
    assert!(!none.is_default() && !none.is_subtitle() && !none.is_audio());
}

#[test]
fn chapter_title_defaults_to_empty() {
    let named = Chapter {
        start_time: Some("0.000000".into()),
        end_time: Some("90.000000".into()),
        tags: vec![("title".into(), "Prologue".into())],
    };
    assert_eq!(named.title(), "Prologue");
    let bare = Chapter { start_time: None, end_time: None, tags: vec![] };
    assert_eq!(bare.title(), "");
}

#[test]
fn selects_tracks_by_kind_in_stream_order() {
    let streams = streams_of(SAMPLE);
    let subs = subtitle_tracks(&streams);
    assert_eq!(subs.len(), 2);
    assert_eq!((subs[0].index, subs[0].lang.as_str(), subs[0].codec.as_str()), (2, "en", "subrip"));
    assert_eq!(subs[0].title, "Full");
    assert_eq!((subs[1].index, subs[1].lang.as_str(), subs[1].title.as_str()), (3, "unknown", ""));
    let audio = audio_tracks(&streams);
    assert_eq!(audio.len(), 1);
    assert_eq!((audio[0].index, audio[0].codec.as_str()), (1, "aac"));
    let t = track_of(&streams[0]);
    assert_eq!((t.index, t.codec.as_str(), t.lang.as_str()), (0, "h264", "unknown"));
}

#[test]
fn breakdown_lists_id_first_then_by_name() {
    let counts = vec![
        ("ja".to_string(), 2usize),
        ("en".to_string(), 5),
        ("id".to_string(), 3),
        ("unknown".to_string(), 1),
    ];
    let lines = subx::commands::extract::lang_breakdown(&counts);
    assert_eq!(
        lines,
        [
            "  - id: 3 subtitle(s) -> main folder",
            "  - en: 5 subtitle(s) -> subfolder (en/)",
            "  - ja: 2 subtitle(s) -> subfolder (ja/)",
            "  - unknown: 1 subtitle(s) -> subfolder (unknown/)",
        ]
    );
    assert!(subx::commands::extract::lang_breakdown(&[]).is_empty());
}

fn plain_stream(index: i32, kind: &str, codec: &str, lang: &str) -> Stream {
    Stream {
        index,
        codec_name: Some(codec.to_string()),
        codec_type: Some(kind.to_string()),
        tags: vec![("language".to_string(), lang.to_string())],
        disposition: Vec::new(),
    }
}

#[test]
fn track_lists_are_refused_when_a_language_cannot_be_cut() {
    let ok = vec![
        plain_stream(0, "video", "h264", "und"),
        plain_stream(1, "audio", "aac", "JPN"),
        plain_stream(2, "subtitle", "ass", " Indonesian "),
        plain_stream(3, "subtitle", "subrip", "fra"),
    ];
    let subs = try_subtitle_tracks(&ok).unwrap();
    let langs: Vec<(i32, &str)> = subs.iter().map(|t| (t.index, t.lang.as_str())).collect();
    assert_eq!(langs, vec![(2, "id"), (3, "fr")]);
    let audio = try_audio_tracks(&ok).unwrap();
    assert_eq!((audio.len(), audio[0].index, audio[0].lang.as_str()), (1, 1, "ja"));
    // "añx": its first two bytes end inside the "ñ".
    let mut bad = ok;
    bad.push(plain_stream(4, "subtitle", "subrip", "a\u{f1}x"));
    assert!(try_subtitle_tracks(&bad).is_none());
    assert_eq!(try_audio_tracks(&bad).unwrap().len(), 1);
}
