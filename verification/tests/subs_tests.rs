use std::path::Path;

use subx::subs::ass;
use subx::subs::batch::{load_any, parse_ext_list, save_any, LoadError};
use subx::subs::clean::{clean_events, clean_normal_text, default_header, is_karaoke_vertical};
use subx::subs::convert::{convert, convert_file, target_format, ConvertError};
use subx::subs::filter::{compile_keywords, filter_events};
use subx::subs::shift::{drop_empty, shift_events};
use subx::subs::srt;
use subx::subs::stats::timing;
use subx::subs::vtt;
use subx::subs::{plaintext, standard_columns, supported_exts, Event, ParseError, SubFile, SubFormat};
use subx::time::{
    clamp_non_negative, format_ass_time, format_srt_time, format_vtt_time, parse_ass_time,
    parse_srt_time, parse_vtt_time,
};

const ASS_SAMPLE: &str = "[Script Info]\nTitle: Sample\nScriptType: v4.00+\n\n[V4+ Styles]\nFormat: Name, Fontname, Fontsize, PrimaryColour, SecondaryColour, OutlineColour, BackColour, Bold, Italic, Underline, StrikeOut, ScaleX, ScaleY, Spacing, Angle, BorderStyle, Outline, Shadow, Alignment, MarginL, MarginR, MarginV, Encoding\nStyle: Default,Arial,20,&H00FFFFFF,&H000000FF,&H00000000,&H00000000,0,0,0,0,100,100,0,0,1,2,2,2,10,10,10,1\n\n[Events]\nFormat: Layer, Start, End, Style, Name, MarginL, MarginR, MarginV, Effect, Text\nDialogue: 0,0:00:01.00,0:00:03.00,Default,,0,0,0,,Hello {\\i1}world\nComment: 0,0:00:02.00,0:00:03.00,Default,,0,0,0,,kept as header\nDialogue: 1,0:00:04.50,0:00:06.00,Karaoke,,10,10,20,,{\\k40}la\n";

const SRT_SAMPLE: &str = "1\n00:00:01,000 --> 00:00:03,500\nHello {\\i1}world{\\i0}\n\n2\n00:00:04,000 --> 00:00:06,000\nSecond\\Nline\n\n";

const VTT_SAMPLE: &str = "WEBVTT\n\n00:00:01.000 --> 00:00:03.500 align:center\nHello <i>world</i>\n\n00:14.250 --> 00:16.000\nSecond cue\n\n";

fn event(start: i64, end: i64, text: &str) -> Event {
    Event {
        start_ms: start,
        end_ms: end,
        text: text.to_string(),
        ..Default::default()
    }
}

fn ext(p: &str) -> &str {
    Path::new(p).extension().and_then(|e| e.to_str()).unwrap_or("")
}

#[test]
fn parses_dialogues() {
    let file = ass::parse(ASS_SAMPLE).unwrap();
    assert_eq!(file.events.len(), 2);
    assert_eq!(file.events[0].start_ms, 1000);
    assert_eq!(file.events[0].text, "Hello {\\i1}world");
    assert_eq!(file.events[1].layer, 1);
    assert_eq!(file.events[1].margins, ["10", "10", "20"]);
    assert!(file.header.iter().any(|l| l.starts_with("Comment:")));
}

#[test]
fn roundtrips_standard_layout() {
    let file = ass::parse(ASS_SAMPLE).unwrap();
    let text = ass::serialize(&file);
    assert!(text.contains("Comment: 0,0:00:02.00"));
    let d1 = "Dialogue: 0,0:00:01.00,0:00:03.00,Default,,0,0,0,,Hello {\\i1}world";
    let d2 = "Dialogue: 1,0:00:04.50,0:00:06.00,Karaoke,,10,10,20,,{\\k40}la";
    let p1 = text.find(d1).expect("first dialogue");
    let p2 = text.find(d2).expect("second dialogue");
    assert!(p1 < p2);
    let reparsed = ass::parse(&text).unwrap();
    assert_eq!(reparsed.events, file.events);
}

#[test]
fn ass_without_dialogues_is_rejected() {
    let r = ass::parse("[Script Info]\nTitle: x\n");
    assert_eq!(r.err(), Some(ParseError::NoAssDialogues));
}

#[test]
fn detects_karaoke() {
    assert!(is_karaoke_vertical("{\\k40}ka{\\k30}ra"));
    assert!(is_karaoke_vertical("{\\K10}x"));
    assert!(!is_karaoke_vertical("{\\i1}Hello world"));
}

#[test]
fn many_tiny_lines_count_as_karaoke() {
    assert!(is_karaoke_vertical("a\nb\nc\nd\ne\nf"));
    assert!(!is_karaoke_vertical("a\nb\nc\nd\ne"));
}

#[test]
fn scrubs_dialogues() {
    assert_eq!(
        clean_normal_text("{\\i1}Hello{\\i0} world"),
        Some("Hello world".into())
    );
    assert_eq!(clean_normal_text("Visit example.com"), None);
    assert_eq!(clean_normal_text("Subbed by DeathFans"), None);
    assert_eq!(clean_normal_text("Sync and Title by XYZ"), None);
    assert_eq!(clean_normal_text("m 0 0 l 100 100"), None);
    assert_eq!(clean_normal_text("***"), None);
    assert_eq!(clean_normal_text(""), None);
    assert_eq!(
        clean_normal_text("Just a normal line here"),
        Some("Just a normal line here".into())
    );
}

#[test]
fn cleans_events_and_counts() {
    let file = ass::parse(ASS_SAMPLE).unwrap();
    let (events, stats) = clean_events(&file.events, "Arial", 0);
    assert_eq!(stats.dialogs, 2);
    assert_eq!(stats.karaoke, 1);
    assert_eq!(events[0].style, "Default");
    assert_eq!(events[1].style, "Karaoke");
    let header = default_header("Verdana");
    assert!(header.iter().any(|l| l.starts_with("Style: Default,Verdana,20")));
}

#[test]
fn srt_to_ass_maps_breaks_and_style() {
    let file = srt::parse("1\n00:00:01,000 --> 00:00:02,000\nLine1\nLine2\n\n").unwrap();
    let out = convert(file, SubFormat::Ass);
    assert_eq!(out.events[0].text, "Line1\\NLine2");
    assert_eq!(out.events[0].style, "Default");
    let text = ass::serialize(&out);
    assert!(text.contains("Title: Converted"));
    let back = ass::parse(&text).unwrap();
    assert_eq!(
        (back.events[0].start_ms, back.events[0].end_ms),
        (1000, 2000)
    );
}

#[test]
fn ass_to_srt_restores_breaks() {
    let file = ass::parse(
        "[Script Info]\nTitle: x\n\n[Events]\nFormat: Layer, Start, End, Style, Name, MarginL, MarginR, MarginV, Effect, Text\nDialogue: 0,0:00:01.00,0:00:02.00,Default,,0,0,0,,{\\i1}A\\NB{\\i0}\n",
    )
    .unwrap();
    let out = convert(file, SubFormat::Srt);
    assert_eq!(out.events[0].text, "A\nB");
}

#[test]
fn vtt_to_srt_strips_tags() {
    let file = vtt::parse(
        "WEBVTT\n\n00:00:01.000 --> 00:00:02.000\n<v Speaker>Hello <i>world</i>\n\n",
    )
    .unwrap();
    let out = convert(file, SubFormat::Srt);
    assert_eq!(out.events[0].text, "Hello world");
}

#[test]
fn rejects_bad_target() {
    assert!(target_format(ext("out.txt")).is_err());
}

#[test]
fn converting_to_the_same_format_changes_nothing() {
    let file = srt::parse(SRT_SAMPLE).unwrap();
    let before = srt::serialize(&file);
    let out = convert(file, SubFormat::Srt);
    assert_eq!(srt::serialize(&out), before);
}

#[test]
fn convert_file_reports_formats() {
    let (text, s) = convert_file("SRT", SRT_SAMPLE, "vtt").unwrap();
    assert_eq!((s.events, s.from, s.to), (2, "srt", "vtt"));
    assert!(text.starts_with("WEBVTT\n\n00:00:01.000 --> 00:00:03.500\n"));
    match convert_file("srt", SRT_SAMPLE, "txt") {
        Err(ConvertError::UnsupportedTarget(e)) => assert_eq!(e, "txt"),
        other => panic!("unexpected {:?}", other.map(|(t, _)| t)),
    }
    match convert_file("doc", SRT_SAMPLE, "vtt") {
        Err(ConvertError::Load(LoadError::Unsupported(e))) => assert_eq!(e, "doc"),
        other => panic!("unexpected {:?}", other.map(|(t, _)| t)),
    }
}

#[test]
fn loads_by_extension_and_saves_in_own_format() {
    let f = load_any("Ssa", ASS_SAMPLE).unwrap();
    assert_eq!(f.format, SubFormat::Ass);
    assert_eq!(save_any(&f), ass::serialize(&f));
    match load_any("vtt", SRT_SAMPLE) {
        Err(LoadError::Parse(e)) => assert_eq!(e, ParseError::MissingVttHeader),
        other => panic!("unexpected {:?}", other.map(|f| f.events.len())),
    }
}

#[test]
fn splits_extension_lists() {
    assert_eq!(parse_ext_list(".SRT, ass,,..vtt "), ["srt", "ass", "vtt"]);
    assert!(parse_ext_list("").is_empty());
    assert_eq!(supported_exts(), ["srt", "ass", "ssa", "vtt"]);
}

#[test]
fn filters_case_insensitively() {
    let res = compile_keywords(&["opening".to_string(), "end.*song".to_string()]).unwrap();
    let events = vec![
        event(0, 0, "Here comes the OPENING theme"),
        event(0, 0, "Just a normal line"),
        event(0, 0, "EndCredit Song starts"),
    ];
    let (kept, removed) = filter_events(events, &res);
    assert_eq!(kept.len(), 1);
    assert_eq!(kept[0].text, "Just a normal line");
    assert_eq!(removed, 2);
}

#[test]
fn rejects_bad_regex() {
    assert!(compile_keywords(&["(unclosed".to_string()]).is_err());
}

#[test]
fn shifts_and_clamps() {
    let mut events = vec![event(2000, 3000, "a"), event(500, 800, "b")];
    shift_events(&mut events, -1500);
    assert_eq!((events[0].start_ms, events[0].end_ms), (500, 1500));
    assert_eq!((events[1].start_ms, events[1].end_ms), (0, 0));
}

#[test]
fn drops_empty_plaintext() {
    let events = vec![
        event(0, 1000, "Hello"),
        event(0, 1000, ""),
        event(0, 1000, "{\\i1}{\\i0}"),
        event(0, 1000, "\\N"),
    ];
    let (kept, removed) = drop_empty(events, true);
    assert_eq!(kept.len(), 1);
    assert_eq!(removed, 3);
}

#[test]
fn keeps_tag_only_when_asked() {
    let events = vec![event(0, 1000, "{\\i1}{\\i0}"), event(0, 1000, "")];
    let (kept, removed) = drop_empty(events, false);
    assert_eq!(kept.len(), 1);
    assert_eq!(removed, 1);
}

#[test]
fn srt_parses_cues() {
    let file = srt::parse(SRT_SAMPLE).unwrap();
    assert_eq!(file.events.len(), 2);
    assert_eq!(file.events[0].start_ms, 1000);
    assert_eq!(file.events[0].end_ms, 3500);
    assert_eq!(file.events[0].text, "Hello {\\i1}world{\\i0}");
    assert_eq!(file.events[1].text, "Second\\Nline");
}

#[test]
fn srt_roundtrips() {
    let file = srt::parse(SRT_SAMPLE).unwrap();
    assert_eq!(srt::serialize(&file), SRT_SAMPLE);
}

#[test]
fn rejects_garbage() {
    assert!(srt::parse("just some text\nno timings here\n").is_err());
}

#[test]
fn srt_accepts_crlf_and_bom() {
    let file = srt::parse("\u{FEFF}1\r\n00:00:01,000 --> 00:00:02,000\r\nHi\r\n\r\n").unwrap();
    assert_eq!(file.events[0].text, "Hi");
}

#[test]
fn clamps_negative_to_zero() {
    assert_eq!(clamp_non_negative(-1500), 0);
    assert_eq!(clamp_non_negative(42), 42);
}

#[test]
fn ass_roundtrip() {
    assert_eq!(parse_ass_time("0:00:01.00"), Some(1000));
    assert_eq!(parse_ass_time("1:02:03.45"), Some(3723450));
    assert_eq!(format_ass_time(3723450), "1:02:03.45");
    assert_eq!(parse_ass_time("bogus"), None);
    assert_eq!(parse_ass_time("0:00:61.00"), None);
}

#[test]
fn srt_roundtrip() {
    assert_eq!(parse_srt_time("00:00:01,500"), Some(1500));
    assert_eq!(format_srt_time(1500), "00:00:01,500");
    assert_eq!(parse_srt_time("00:00:01.500"), Some(1500));
    assert_eq!(parse_srt_time("00:00:01,5"), None);
}

#[test]
fn vtt_roundtrip() {
    assert_eq!(parse_vtt_time("00:01:02.500"), Some(62500));
    assert_eq!(parse_vtt_time("01:02.500"), Some(62500));
    assert_eq!(format_vtt_time(62500), "00:01:02.500");
}

#[test]
fn time_edge_cases() {
    assert_eq!(format_ass_time(-5), "0:00:00.00");
    assert_eq!(format_srt_time(360000000), "100:00:00,000");
    assert_eq!(parse_ass_time("0:00:01.5"), Some(1500));
    assert_eq!(parse_vtt_time("1:2:3:4.000"), None);
}

#[test]
fn vtt_parses_cues() {
    let file = vtt::parse(VTT_SAMPLE).unwrap();
    assert_eq!(file.events.len(), 2);
    assert_eq!(file.events[0].start_ms, 1000);
    assert_eq!(file.events[0].extra, "align:center");
    assert_eq!(file.events[1].start_ms, 14250);
}

#[test]
fn vtt_roundtrips() {
    let file = vtt::parse(VTT_SAMPLE).unwrap();
    let text = vtt::serialize(&file);
    assert!(text.contains("00:00:14.250 --> 00:00:16.000"));
    let reparsed = vtt::parse(&text).unwrap();
    assert_eq!(reparsed.events.len(), 2);
}

#[test]
fn rejects_non_vtt() {
    assert!(vtt::parse("1\n00:00:01,000 --> 00:00:02,000\nHi\n").is_err());
}

#[test]
fn vtt_header_without_cues() {
    assert_eq!(vtt::parse("WEBVTT\n\n").err(), Some(ParseError::NoVttCues));
}

#[test]
fn plaintext_strips_tags_and_breaks() {
    assert_eq!(plaintext("{\\i1}A\\Nb{\\b1}c\\h"), "Abc");
    let f = SubFile::new(SubFormat::Srt);
    assert_eq!(f.ass_columns, standard_columns());
}

#[test]
fn timing_reports_durations_and_overlaps() {
    let events = vec![
        event(0, 1000, "12345678901234567890"),
        event(900, 1900, "123456789012345678901234567890"),
        event(2000, 4000, "ok"),
    ];
    let t = timing(&events);
    assert_eq!(t.events, 3);
    assert_eq!(t.min_dur_ms, 1000);
    assert_eq!(t.max_dur_ms, 2000);
    assert_eq!(t.visible_chars, [20, 30, 2]);
    assert_eq!(t.overlaps, [(1, 2)]);
    let empty = timing(&[]);
    assert_eq!((empty.events, empty.min_dur_ms, empty.max_dur_ms), (0, 0, 0));
}

#[test]
fn vtt_first_cue_keeps_its_identifier() {
    let text = "WEBVTT\n\n1\n00:00:01.000 --> 00:00:02.000\nA\n\n2\n00:00:03.000 --> 00:00:04.000\nB\n";
    let f = vtt::parse(text).unwrap();
    assert_eq!(f.header, ["WEBVTT"]);
    assert_eq!(f.events.len(), 2);
    assert_eq!((f.events[0].name.as_str(), f.events[0].text.as_str()), ("1", "A"));
    assert_eq!((f.events[1].name.as_str(), f.events[1].text.as_str()), ("2", "B"));
    let back = vtt::parse(&vtt::serialize(&f)).unwrap();
    assert_eq!(back.events, f.events);
    assert_eq!(back.header, f.header);
}

#[test]
fn vtt_header_line_right_before_the_first_cue_stays_header() {
    let f = vtt::parse("\nWEBVTT\n00:00:01.000 --> 00:00:02.000\nA\n").unwrap();
    assert_eq!(f.header, ["", "WEBVTT"]);
    assert_eq!(f.events[0].name, "");
    let back = vtt::parse(&vtt::serialize(&f)).unwrap();
    assert_eq!(back.header, f.header);
    assert_eq!(back.events, f.events);
}

#[test]
fn upper_case_extensions_name_their_format() {
    let f = load_any("SRT", "1\n00:00:01,000 --> 00:00:02,000\nHi\n\n").unwrap();
    assert_eq!(f.format, SubFormat::Srt);
    assert_eq!(f.events.len(), 1);
    assert_eq!(target_format("Vtt").unwrap(), SubFormat::Vtt);
    assert!(matches!(load_any("TXT", ""), Err(LoadError::Unsupported(e)) if e == "txt"));
}
