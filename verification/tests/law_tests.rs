use subx::subs::shift::shift_events;
use subx::subs::srt;
use subx::subs::Event;
use subx::time::{format_ass_time, format_srt_time, format_vtt_time, parse_ass_time, parse_srt_time, parse_vtt_time};

fn event(start: i64, end: i64) -> Event {
    Event {
        start_ms: start,
        end_ms: end,
        text: "x".into(),
        ..Default::default()
    }
}

fn times(v: &[Event]) -> Vec<(i64, i64)> {
    v.iter().map(|e| (e.start_ms, e.end_ms)).collect()
}

#[test]
fn shifting_by_zero_keeps_times() {
    let mut v = vec![event(0, 10), event(500, 700)];
    shift_events(&mut v, 0);
    assert_eq!(times(&v), [(0, 10), (500, 700)]);
}

#[test]
fn delays_compose_and_undo() {
    let mut a = vec![event(100, 900)];
    shift_events(&mut a, 300);
    shift_events(&mut a, 200);
    let mut b = vec![event(100, 900)];
    shift_events(&mut b, 500);
    assert_eq!(times(&a), times(&b));
    shift_events(&mut a, -500);
    assert_eq!(times(&a), [(100, 900)]);
}

#[test]
fn shifted_events_stay_ordered() {
    let mut v = vec![event(100, 50), event(-10, -5)];
    shift_events(&mut v, -70);
    assert_eq!(times(&v), [(30, 30), (0, 0)]);
}

#[test]
fn formatted_times_parse_back() {
    for ms in [0i64, 1, 999, 1000, 59_999, 3_723_456, 36_000_000] {
        assert_eq!(parse_srt_time(&format_srt_time(ms)), Some(ms));
        assert_eq!(parse_vtt_time(&format_vtt_time(ms)), Some(ms));
        assert_eq!(parse_ass_time(&format_ass_time(ms)), Some(ms / 10 * 10));
    }
    assert_eq!(parse_srt_time(&format_srt_time(-40)), Some(0));
}

#[test]
fn serialized_srt_parses_back() {
    let events = vec![Event { text: "a\nb".into(), ..event(1000, 2000) }, event(3000, 4500)];
    let file = subx::subs::SubFile {
        format: subx::subs::SubFormat::Srt,
        events,
        header: vec![],
        ass_columns: subx::subs::standard_columns(),
    };
    let back = srt::parse(&srt::serialize(&file)).unwrap();
    assert_eq!(back.events, file.events);
}

#[test]
fn serialized_vtt_parses_back() {
    let events = vec![
        Event { text: "one\ntwo".into(), extra: "align:start".into(), ..event(1000, 2000) },
        Event { name: "cue-2".into(), ..event(62_500, 64_000) },
    ];
    let file = subx::subs::SubFile {
        format: subx::subs::SubFormat::Vtt,
        events,
        header: vec!["WEBVTT".into()],
        ass_columns: subx::subs::standard_columns(),
    };
    let back = subx::subs::vtt::parse(&subx::subs::vtt::serialize(&file)).unwrap();
    assert_eq!(back.events, file.events);
    assert_eq!(back.header, file.header);
}

#[test]
fn serialized_ass_parses_back() {
    let header: Vec<String> = [
        "[Script Info]",
        "Title: t",
        "",
        "[Events]",
        "Format: Layer, Start, End, Style, Name, MarginL, MarginR, MarginV, Effect, Text",
    ]
    .iter()
    .map(|s| s.to_string())
    .collect();
    let events = vec![
        Event {
            style: "Default".into(),
            text: "Hello, {\\i1}world".into(),
            layer: -2,
            margins: ["0".into(), "10".into(), "20".into()],
            ..event(1230, 4560)
        },
        Event { name: "Bob".into(), effect: "fade".into(), ..event(0, 3_723_450) },
    ];
    let file = subx::subs::SubFile {
        format: subx::subs::SubFormat::Ass,
        events,
        header,
        ass_columns: subx::subs::standard_columns(),
    };
    let back = subx::subs::ass::parse(&subx::subs::ass::serialize(&file)).unwrap();
    assert_eq!(back.events, file.events);
    assert_eq!(back.header, file.header);
    assert_eq!(back.ass_columns, file.ass_columns);
}

#[test]
fn cleaning_keeps_karaoke_verbatim() {
    let karaoke = Event {
        style: "Song".into(),
        effect: "fx".into(),
        text: "{\\k40}ka{\\k30}ra".into(),
        ..event(1000, 2000)
    };
    let normal = Event { text: "{\\i1}Hi{\\i0} there".into(), effect: "fx".into(), ..event(3000, 4000) };
    let junk = Event { text: "Visit example.com".into(), ..event(5000, 6000) };
    let (out, stats) = subx::subs::clean::clean_events(&[karaoke, normal, junk], "Arial", 500);
    assert_eq!(out.len(), 2);
    assert_eq!(stats.karaoke, 1);
    assert_eq!(out[0].text, "{\\k40}ka{\\k30}ra");
    assert_eq!(out[0].style, "Karaoke");
    assert_eq!((out[0].start_ms, out[0].end_ms), (1500, 2500));
    assert_eq!(out[0].effect, "");
    assert_eq!(out[1].text, "Hi there");
    assert_eq!(out[1].style, "Default");
    assert_eq!(out[1].effect, "");
}

#[test]
fn srt_text_survives_a_trip_through_ass() {
    let mut file = subx::subs::SubFile::new(subx::subs::SubFormat::Srt);
    file.events.push(Event { text: "first line\nsecond, line!".into(), ..event(1000, 2500) });
    file.events.push(Event { text: "plain".into(), ..event(3000, 4000) });
    let ass = subx::subs::convert::convert(file.clone(), subx::subs::SubFormat::Ass);
    assert_eq!(ass.events[0].text, "first line\\Nsecond, line!");
    let back = subx::subs::convert::convert(ass, subx::subs::SubFormat::Srt);
    assert_eq!(back.events[0].text, "first line\nsecond, line!");
    assert_eq!(back.events[1].text, "plain");
    assert_eq!(times(&back.events), times(&file.events));
}

#[test]
fn visible_text_has_no_tags_and_is_trimmed() {
    assert_eq!(subx::subs::plaintext("{\\i1}{\\i0}"), "");
    assert_eq!(subx::subs::plaintext("\\N"), "");
    assert_eq!(subx::subs::plaintext("  plain words  "), "plain words");
    let p = subx::subs::plaintext(" {\\b1}Hi{ there}\\hyou {x");
    assert!(!p.contains('{'));
    assert_eq!(p, p.trim());
}
