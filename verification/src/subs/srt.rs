//! SubRip (`.srt`) parsing and serialization.
use vstd::prelude::*;
use crate::num::{decimal, is_digit, lemma_decimal_digits, lemma_padded, padded, push_padded};
use crate::subs::{
    events_view, is_blank_chars, normalize_newlines, normalize_newlines_chars, plain_event, strip_bom,
    standard_columns_spec, Event, EventView, ParseError, SubFile, SubFormat,
};
use crate::text::{
    chars_of, copy_range, find_pattern, find_seq, is_blank, is_ws, join, join_range, lines,
    lines_of, push_all, push_str, string_of, vecs_view, no_char, split_char, trim, trim_start,
    trim_end, occurs_at, lemma_find_seq, lemma_find_seq_at, lemma_find_char_none,
    lemma_split_char_len, lemma_lines_line, lemma_lines_text, lemma_lines_append, lemma_join_split,
    lemma_replace_noop,
};
use crate::time::{
    as_i64, fit, hours_of, millis_of, minutes_of, parse_srt_time_chars, push_hms_ms, seconds_of,
    srt_time_spec, srt_time_text,
};

verus! {

/// Start and end of a `A --> B` timing line.
pub open spec fn srt_range_spec(line: Seq<char>) -> Option<(int, int)> {
    match find_seq(line, "-->"@) {
        None => None,
        Some(i) => match (fit(srt_time_spec(line.take(i))), fit(srt_time_spec(line.skip(i + 3)))) {
            (Some(a), Some(b)) => Some((a, b)),
            _ => None,
        },
    }
}

/// First index at or after `k` holding a blank line (or the end).
pub open spec fn body_end(ls: Seq<Seq<char>>, k: int) -> int
    decreases ls.len() - k,
{
    if k < 0 || k >= ls.len() || is_blank(ls[k]) {
        k
    } else {
        body_end(ls, k + 1)
    }
}

pub proof fn lemma_body_end(ls: Seq<Seq<char>>, k: int)
    requires
        0 <= k,
    ensures
        k <= body_end(ls, k) <= ls.len() || (k > ls.len() && body_end(ls, k) == k),
        forall|m: int| k <= m < body_end(ls, k) ==> !is_blank(#[trigger] ls[m]),
        body_end(ls, k) < ls.len() ==> is_blank(ls[body_end(ls, k)]),
    decreases ls.len() - k,
{
    if k < ls.len() && !is_blank(ls[k]) {
        lemma_body_end(ls, k + 1);
    }
}

/// Events of the SRT lines `ls` from line `i` on: blank lines are skipped,
/// an optional index line precedes the timing line, the body runs to the
/// next blank line; blocks whose timing line does not parse are skipped.
pub open spec fn srt_events(ls: Seq<Seq<char>>, i: int) -> Seq<EventView>
    decreases ls.len() - i,
{
    if i < 0 || i >= ls.len() {
        seq![]
    } else if is_blank(ls[i]) {
        srt_events(ls, i + 1)
    } else {
        let j = if find_seq(ls[i], "-->"@) is Some {
            i
        } else {
            i + 1
        };
        if j >= ls.len() {
            seq![]
        } else {
            match srt_range_spec(ls[j]) {
                None => srt_events(ls, j + 1),
                Some((a, b)) => {
                    let k = body_end(ls, j + 1);
                    proof {
                        lemma_body_end(ls, j + 1);
                    }
                    seq![plain_event(a, b, join(ls.subrange(j + 1, k), "\n"@))] + srt_events(
                        ls,
                        k,
                    )
                },
            }
        }
    }
}

/// The events SubRip text holds.
pub open spec fn srt_parse_spec(text: Seq<char>) -> Seq<EventView> {
    srt_events(lines(normalize_newlines(text)), 0)
}

fn parse_range(line: &[char]) -> (r: Option<(i64, i64)>)
    ensures
        match srt_range_spec(line@) {
            Some((a, b)) => r == Some((a as i64, b as i64)),
            None => r is None,
        },
{
    let arrow = chars_of("-->");
    proof {
        reveal_strlit("-->");
    }
    let i = match find_pattern(line, &arrow) {
        None => return None,
        Some(i) => i,
    };
    proof {
        crate::text::lemma_find_seq(line@, arrow@);
    }
    assert(arrow@.len() == 3);
    let n = line.len();
    assert(i + 3 <= n);
    let a = copy_range(line, 0, i);
    let b = copy_range(line, i + 3, n);
    assert(a@ =~= line@.take(i as int));
    assert(b@ =~= line@.skip(i + 3));
    let x = match parse_srt_time_chars(&a) {
        None => return None,
        Some(x) => x,
    };
    let y = match parse_srt_time_chars(&b) {
        None => return None,
        Some(y) => y,
    };
    Some((x, y))
}

/// Parses SubRip text into events. Block numbers are validated loosely so
/// slightly malformed files still load; only the timings must parse.
pub fn parse(text: &str) -> (r: Result<SubFile, ParseError>)
    ensures
        r is Ok <==> srt_parse_spec(text@).len() > 0,
        r matches Ok(f) ==> {
            &&& f@.format == SubFormat::Srt
            &&& f@.events == srt_parse_spec(text@)
            &&& f@.header.len() == 0
            &&& f@.ass_columns == standard_columns_spec()
        },
        r matches Err(e) ==> e == ParseError::NoSrtCues,
{
    let raw = chars_of(text);
    let norm = normalize_newlines_chars(&raw);
    let ls = lines_of(&norm);
    let ghost lsv = vecs_view(ls@);
    let arrow = chars_of("-->");
    let nl = chars_of("\n");
    let mut file = SubFile::new(SubFormat::Srt);
    let n = ls.len();
    let mut i: usize = 0;
    while i < n
        invariant
            i <= n == lsv.len(),
            lsv == vecs_view(ls@),
            arrow@ == "-->"@,
            nl@ == "\n"@,
            file@.format == SubFormat::Srt,
            file@.header.len() == 0,
            file@.ass_columns == standard_columns_spec(),
            file@.events + srt_events(lsv, i as int) == srt_events(lsv, 0),
        decreases n - i,
    {
        assert(ls@[i as int]@ == lsv[i as int]);
        if is_blank_chars(&ls[i]) {
            i = i + 1;
            continue;
        }
        let mut j = i;
        proof {
            reveal_strlit("-->");
        }
        if find_pattern(&ls[j], &arrow).is_none() {
            j = j + 1;
            if j >= n {
                assert(srt_events(lsv, i as int) == Seq::<EventView>::empty());
                assert(file@.events + Seq::<EventView>::empty() =~= file@.events);
                i = n;
                continue;
            }
        }
        assert(ls@[j as int]@ == lsv[j as int]);
        let range = match parse_range(&ls[j]) {
            Some(r) => r,
            None => {
                i = j + 1;
                continue;
            },
        };
        let start = j + 1;
        j = j + 1;
        proof {
            lemma_body_end(lsv, start as int);
        }
        while j < n && !is_blank_chars(&ls[j])
            invariant
                start <= j <= n == lsv.len(),
                lsv == vecs_view(ls@),
                body_end(lsv, start as int) == body_end(lsv, j as int),
            decreases n - j,
        {
            assert(ls@[j as int]@ == lsv[j as int]);
            j = j + 1;
        }
        proof {
            if j < n {
                assert(ls@[j as int]@ == lsv[j as int]);
            }
        }
        let body = join_range(&ls, start, j, &nl);
        let ev = Event::timed(range.0, range.1, string_of(&body));
        let ghost before = file@.events;
        file.events.push(ev);
        assert(file@.events =~= before + seq![ev@]);
        i = j;
    }
    assert(file@.events + srt_events(lsv, i as int) =~= file@.events);
    if file.events.len() == 0 {
        return Err(ParseError::NoSrtCues);
    }
    Ok(file)
}

/// One serialized cue: number, timing line, text, blank line.
pub open spec fn srt_block(number: nat, e: EventView) -> Seq<char> {
    decimal(number) + "\n"@ + srt_time_text(e.start_ms) + " --> "@ + srt_time_text(e.end_ms) + "\n"@
        + e.text + "\n\n"@
}

/// Canonical SubRip text of `evs`, numbered from 1.
pub open spec fn srt_text(evs: Seq<EventView>) -> Seq<char>
    decreases evs.len(),
{
    if evs.len() == 0 {
        seq![]
    } else {
        srt_text(evs.drop_last()) + srt_block(evs.len(), evs.last())
    }
}

fn push_block(out: &mut Vec<char>, number: u64, e: &Event)
    ensures
        final(out)@ == old(out)@ + srt_block(number as nat, e@),
{
    proof {
        crate::num::lemma_padded(number as nat, 0);
    }
    let mut b: Vec<char> = Vec::new();
    push_padded(&mut b, number, 0);
    push_str(&mut b, "\n");
    push_hms_ms(&mut b, e.start_ms, ',');
    push_str(&mut b, " --> ");
    push_hms_ms(&mut b, e.end_ms, ',');
    push_str(&mut b, "\n");
    push_str(&mut b, e.text.as_str());
    push_str(&mut b, "\n\n");
    assert(padded(number as nat, 0) == decimal(number as nat));
    assert(b@ =~= srt_block(number as nat, e@));
    push_all(out, &b);
}

/// Serializes back to canonical SubRip (renumbered from 1).
pub fn serialize(file: &SubFile) -> (r: String)
    ensures
        r@ == srt_text(file@.events),
{
    let mut out: Vec<char> = Vec::new();
    let mut k: usize = 0;
    while k < file.events.len()
        invariant
            k <= file.events@.len(),
            out@ == srt_text(file@.events.take(k as int)),
        decreases file.events@.len() - k,
    {
        let e = &file.events[k];
        let ghost pre = file@.events.take(k as int);
        let ghost post = file@.events.take(k + 1);
        assert(post.drop_last() =~= pre);
        assert(post.last() == e@);
        push_block(&mut out, (k + 1) as u64, e);
        assert(out@ =~= srt_text(post));
        k = k + 1;
    }
    assert(file@.events.take(k as int) =~= file@.events);
    string_of(&out)
}

/* ---------- round trip: serialize then parse gives the events back ---------- */

/// Cue text SubRip can carry unchanged: no carriage returns, and unless
/// empty, no blank line (a blank line ends a cue).
pub open spec fn srt_text_ok(t: Seq<char>) -> bool {
    &&& no_char(t, '\r')
    &&& (t.len() == 0 || forall|p: int|
        0 <= p < split_char(t, '\n').len() ==> !is_blank(#[trigger] split_char(t, '\n')[p]))
}

/// An event SubRip represents exactly: non-negative times, carriable text,
/// and no ASS/VTT-only fields.
pub open spec fn srt_event_ok(e: EventView) -> bool {
    &&& 0 <= e.start_ms <= i64::MAX
    &&& 0 <= e.end_ms <= i64::MAX
    &&& srt_text_ok(e.text)
    &&& e == plain_event(e.start_ms, e.end_ms, e.text)
}

pub open spec fn timing_line(e: EventView) -> Seq<char> {
    srt_time_text(e.start_ms) + " --> "@ + srt_time_text(e.end_ms)
}

pub open spec fn block_lines(number: nat, e: EventView) -> Seq<Seq<char>> {
    seq![decimal(number), timing_line(e)] + split_char(e.text, '\n') + seq![Seq::<char>::empty()]
}

pub proof fn lemma_body_end_shift(p: Seq<Seq<char>>, r: Seq<Seq<char>>, k: int)
    requires
        0 <= k,
    ensures
        body_end(p + r, p.len() + k) == p.len() + body_end(r, k),
    decreases r.len() - k,
{
    if k < r.len() {
        assert((p + r)[p.len() + k] == r[k]);
        if !is_blank(r[k]) {
            lemma_body_end_shift(p, r, k + 1);
        }
    }
}

#[verifier::spinoff_prover]
#[verifier::rlimit(40)]
proof fn lemma_srt_events_shift(p: Seq<Seq<char>>, r: Seq<Seq<char>>, i: int)
    requires
        0 <= i,
    ensures
        srt_events(p + r, p.len() + i) == srt_events(r, i),
    decreases r.len() - i,
{
    let ls = p + r;
    let o = p.len() as int;
    if i < r.len() {
        assert(ls[o + i] == r[i]);
        if is_blank(r[i]) {
            lemma_srt_events_shift(p, r, i + 1);
        } else {
            let j = if find_seq(r[i], "-->"@) is Some {
                i
            } else {
                i + 1
            };
            if j < r.len() {
                assert(ls[o + j] == r[j]);
                match srt_range_spec(r[j]) {
                    None => {
                        lemma_srt_events_shift(p, r, j + 1);
                    },
                    Some((a, b)) => {
                        lemma_body_end_shift(p, r, j + 1);
                        lemma_body_end(r, j + 1);
                        let k = body_end(r, j + 1);
                        assert(ls.subrange(o + j + 1, o + k) =~= r.subrange(j + 1, k));
                        lemma_srt_events_shift(p, r, k);
                    },
                }
            }
        }
    }
}

pub proof fn lemma_body_end_at(ls: Seq<Seq<char>>, k: int, e: int)
    requires
        0 <= k <= e < ls.len(),
        forall|m: int| k <= m < e ==> !is_blank(#[trigger] ls[m]),
        is_blank(ls[e]),
    ensures
        body_end(ls, k) == e,
    decreases e - k,
{
    if k < e {
        lemma_body_end_at(ls, k + 1, e);
    }
}

pub open spec fn timing_char(c: char) -> bool {
    is_digit(c) || c == ':' || c == ','
}

#[verifier::spinoff_prover]
#[verifier::rlimit(40)]
proof fn lemma_srt_time_chars(ms: int)
    requires
        0 <= ms <= i64::MAX,
    ensures
        srt_time_text(ms).len() > 0,
        forall|k: int| 0 <= k < srt_time_text(ms).len() ==> timing_char(#[trigger] srt_time_text(ms)[k]),
        is_digit(srt_time_text(ms)[0]),
        is_digit(srt_time_text(ms).last()),
{
    crate::time::law_srt_time_roundtrip(ms);
    let hp = padded(hours_of(ms), 2);
    let mp = padded(minutes_of(ms), 2);
    let sp = padded(seconds_of(ms), 2);
    let fp = padded(millis_of(ms), 3);
    lemma_padded(hours_of(ms), 2);
    lemma_padded(minutes_of(ms), 2);
    lemma_padded(seconds_of(ms), 2);
    lemma_padded(millis_of(ms), 3);
    let t = srt_time_text(ms);
    assert(t =~= hp + seq![':'] + mp + seq![':'] + sp + seq![','] + fp);
    assert forall|k: int| 0 <= k < t.len() implies timing_char(#[trigger] t[k]) by {
        let a = hp.len() as int;
        let b = a + 1 + mp.len();
        let c = b + 1 + sp.len();
        if k < a {
            assert(t[k] == hp[k]);
        } else if k == a {
        } else if k < b {
            assert(t[k] == mp[k - a - 1]);
        } else if k == b {
        } else if k < c {
            assert(t[k] == sp[k - b - 1]);
        } else if k == c {
        } else {
            assert(t[k] == fp[k - c - 1]);
        }
    }
    assert(t[0] == hp[0]);
    assert(t.last() == fp.last());
}

pub proof fn lemma_trim_pad_right(x: Seq<char>)
    requires
        x.len() > 0,
        !is_ws(x[0]),
        !is_ws(x.last()),
    ensures
        trim(x + seq![' ']) == x,
        trim(seq![' '] + x) == x,
        trim(x) == x,
{
    let a = x + seq![' '];
    assert(a[0] == x[0]);
    assert(trim_start(a) == a);
    assert(a.drop_last() =~= x);
    assert(trim_end(x) == x);
    assert(trim_end(a) == trim_end(x));
    let b = seq![' '] + x;
    assert(b.drop_first() =~= x);
    assert(trim_start(b) == trim_start(x));
    assert(trim_start(x) == x);
}

#[verifier::spinoff_prover]
#[verifier::rlimit(40)]
proof fn lemma_timing_line(e: EventView)
    requires
        0 <= e.start_ms <= i64::MAX,
        0 <= e.end_ms <= i64::MAX,
    ensures
        srt_range_spec(timing_line(e)) == Some((e.start_ms, e.end_ms)),
        no_char(timing_line(e), '\n'),
        no_char(timing_line(e), '\r'),
        !is_blank(timing_line(e)),
        find_seq(timing_line(e), "-->"@) is Some,
{
    reveal_strlit(" --> ");
    reveal_strlit("-->");
    let x = srt_time_text(e.start_ms);
    let y = srt_time_text(e.end_ms);
    lemma_srt_time_chars(e.start_ms);
    lemma_srt_time_chars(e.end_ms);
    let t = timing_line(e);
    let arrow = "-->"@;
    let l = x.len() as int;
    assert(t =~= x + seq![' ', '-', '-', '>', ' '] + y);
    assert forall|k: int| 0 <= k < t.len() implies t[k] != '\n' && t[k] != '\r' by {
        if k < l {
            assert(t[k] == x[k]);
            assert(timing_char(x[k]));
        } else if k >= l + 5 {
            assert(t[k] == y[k - l - 5]);
            assert(timing_char(y[k - l - 5]));
        }
    }
    assert(occurs_at(t, arrow, l + 1)) by {
        assert(t.subrange(l + 1, l + 4) =~= arrow);
    }
    assert forall|k: int| 0 <= k < l + 1 implies !occurs_at(t, arrow, k) by {
        if occurs_at(t, arrow, k) {
            assert(t.subrange(k, k + 3)[0] == '-');
            assert(t[k] == '-');
            if k < l {
                assert(t[k] == x[k]);
                assert(timing_char(x[k]));
            }
        }
    }
    lemma_find_seq_at(t, arrow, l + 1);
    assert(t.take(l + 1) =~= x + seq![' ']);
    assert(t.skip(l + 1 + 3) =~= seq![' '] + y);
    lemma_trim_pad_right(x);
    lemma_trim_pad_right(y);
    crate::time::law_srt_time_roundtrip(e.start_ms);
    crate::time::law_srt_time_roundtrip(e.end_ms);
    assert(srt_time_spec(x + seq![' ']) == srt_time_spec(x));
    assert(srt_time_spec(seq![' '] + y) == srt_time_spec(y));
    assert(t[0] == x[0]);
    assert(trim_start(t) == t);
    assert(t.last() == y.last());
    assert(trim_end(t) == t);
}

proof fn lemma_decimal_line(n: nat)
    ensures
        no_char(decimal(n), '\n'),
        no_char(decimal(n), '\r'),
        !is_blank(decimal(n)),
        find_seq(decimal(n), "-->"@) is None,
{
    reveal_strlit("-->");
    let d = decimal(n);
    lemma_decimal_digits(n);
    assert forall|k: int| 0 <= k < d.len() implies d[k] != '\n' && d[k] != '\r' && d[k] != '-' by {
        assert(is_digit(d[k]));
    }
    assert(is_digit(d[0]));
    assert(is_digit(d.last()));
    assert(trim_start(d) == d);
    assert(trim_end(d) == d);
    lemma_find_seq(d, "-->"@);
    if find_seq(d, "-->"@) is Some {
        let i = find_seq(d, "-->"@)->0;
        assert(d.subrange(i, i + 3)[0] == d[i]);
    }
}

#[verifier::rlimit(40)]
#[verifier::spinoff_prover]
proof fn lemma_block_text(number: nat, e: EventView, rest: Seq<char>)
    requires
        srt_event_ok(e),
    ensures
        lines(srt_block(number, e) + rest) == block_lines(number, e) + lines(rest),
{
    reveal_strlit("\n");
    reveal_strlit("\n\n");
    lemma_timing_line(e);
    lemma_decimal_line(number);
    let d = decimal(number);
    let t = timing_line(e);
    let x = e.text;
    let s = srt_block(number, e) + rest;
    assert(s =~= d + seq!['\n'] + (t + seq!['\n'] + (x + seq!['\n'] + (Seq::<char>::empty() + seq![
        '\n',
    ] + rest))));
    lemma_lines_line(d, t + seq!['\n'] + (x + seq!['\n'] + (Seq::<char>::empty() + seq!['\n']
        + rest)));
    lemma_lines_line(t, x + seq!['\n'] + (Seq::<char>::empty() + seq!['\n'] + rest));
    lemma_lines_text(x, Seq::<char>::empty() + seq!['\n'] + rest);
    lemma_lines_line(Seq::<char>::empty(), rest);
    assert(lines(s) =~= block_lines(number, e) + lines(rest));
}

pub proof fn lemma_blank_empty()
    ensures
        is_blank(Seq::<char>::empty()),
{
    assert(trim_start(Seq::<char>::empty()) =~= Seq::<char>::empty());
}

proof fn lemma_events_head(ls: Seq<Seq<char>>, a: int, b: int)
    requires
        ls.len() >= 2,
        !is_blank(ls[0]),
        find_seq(ls[0], "-->"@) is None,
        srt_range_spec(ls[1]) == Some((a, b)),
    ensures
        srt_events(ls, 0) == seq![plain_event(a, b, join(ls.subrange(2, body_end(ls, 2)), "\n"@))]
            + srt_events(ls, body_end(ls, 2)),
{
}

proof fn lemma_skip_blank(ls: Seq<Seq<char>>, i: int)
    requires
        0 <= i < ls.len(),
        is_blank(ls[i]),
    ensures
        srt_events(ls, i) == srt_events(ls, i + 1),
{
}

#[verifier::rlimit(40)]
#[verifier::spinoff_prover]
proof fn lemma_events_block(number: nat, e: EventView, r: Seq<Seq<char>>)
    requires
        srt_event_ok(e),
    ensures
        srt_events(block_lines(number, e) + r, 0) == seq![e] + srt_events(r, 0),
{
    lemma_timing_line(e);
    lemma_decimal_line(number);
    lemma_blank_empty();
    let pieces = split_char(e.text, '\n');
    lemma_split_char_len(e.text, '\n');
    let b = block_lines(number, e);
    let ls = b + r;
    let p = pieces.len() as int;
    assert(ls[0] == decimal(number));
    assert(ls[1] == timing_line(e));
    assert(b.len() == p + 3);
    lemma_events_head(ls, e.start_ms, e.end_ms);
    lemma_srt_events_shift(b, r, 0);
    assert(srt_events(ls, b.len() as int) == srt_events(r, 0));
    if e.text.len() == 0 {
        lemma_find_char_none(e.text, '\n');
        assert(e.text =~= Seq::<char>::empty());
        assert(pieces == seq![e.text]);
        assert(ls[2] == Seq::<char>::empty());
        assert(ls[3] == Seq::<char>::empty());
        lemma_body_end_at(ls, 2, 2);
        assert(ls.subrange(2, 2) =~= Seq::<Seq<char>>::empty());
        lemma_skip_blank(ls, 2);
        lemma_skip_blank(ls, 3);
        assert(join(ls.subrange(2, 2), "\n"@) == e.text);
        assert(body_end(ls, 2) == 2);
        assert(srt_events(ls, 2) == srt_events(ls, 4));
        assert(b.len() == 4);
    } else {
        assert forall|m: int| 2 <= m < 2 + p implies !is_blank(#[trigger] ls[m]) by {
            assert(ls[m] == pieces[m - 2]);
        }
        assert(ls[2 + p] == Seq::<char>::empty());
        lemma_body_end_at(ls, 2, 2 + p);
        assert(ls.subrange(2, 2 + p) =~= pieces);
        reveal_strlit("\n");
        lemma_join_split(e.text, '\n');
        assert("\n"@ == seq!['\n']);
        assert(join(ls.subrange(2, 2 + p), "\n"@) == e.text);
        lemma_skip_blank(ls, 2 + p);
        assert(srt_events(ls, 2 + p) == srt_events(ls, b.len() as int));
    }
    assert(plain_event(e.start_ms, e.end_ms, e.text) == e);
}

#[verifier::spinoff_prover]
#[verifier::rlimit(40)]
proof fn lemma_srt_text_shape(evs: Seq<EventView>)
    requires
        forall|k: int| 0 <= k < evs.len() ==> srt_event_ok(#[trigger] evs[k]),
    ensures
        no_char(srt_text(evs), '\r'),
        srt_text(evs).len() == 0 || srt_text(evs).last() == '\n',
        evs.len() > 0 ==> is_digit(srt_text(evs)[0]),
    decreases evs.len(),
{
    if evs.len() > 0 {
        reveal_strlit("\n");
        reveal_strlit("\n\n");
        reveal_strlit(" --> ");
        let pre = evs.drop_last();
        assert forall|k: int| 0 <= k < pre.len() implies srt_event_ok(#[trigger] pre[k]) by {
            assert(pre[k] == evs[k]);
        }
        lemma_srt_text_shape(pre);
        let e = evs.last();
        assert(srt_event_ok(evs[evs.len() - 1]));
        lemma_timing_line(e);
        lemma_decimal_line(evs.len());
        lemma_decimal_digits(evs.len());
        let blk = srt_block(evs.len(), e);
        let d = decimal(evs.len());
        let t = timing_line(e);
        assert(blk =~= d + seq!['\n'] + t + seq!['\n'] + e.text + seq!['\n', '\n']);
        assert forall|k: int| 0 <= k < blk.len() implies blk[k] != '\r' by {
            let a = d.len() as int;
            let b = a + 1 + t.len();
            let c = b + 1 + e.text.len();
            if k < a {
                assert(blk[k] == d[k]);
            } else if k == a {
            } else if k < b {
                assert(blk[k] == t[k - a - 1]);
            } else if k == b {
            } else if k < c {
                assert(blk[k] == e.text[k - b - 1]);
            }
        }
        let all = srt_text(evs);
        assert(all == srt_text(pre) + blk);
        assert forall|k: int| 0 <= k < all.len() implies all[k] != '\r' by {
            if k < srt_text(pre).len() {
                assert(all[k] == srt_text(pre)[k]);
            } else {
                assert(all[k] == blk[k - srt_text(pre).len()]);
            }
        }
        if pre.len() == 0 {
            assert(srt_text(pre) =~= Seq::<char>::empty());
            assert(all[0] == d[0]);
        } else {
            assert(all[0] == srt_text(pre)[0]);
        }
    }
}

#[verifier::spinoff_prover]
#[verifier::rlimit(40)]
proof fn lemma_srt_text_lines(evs: Seq<EventView>)
    requires
        evs.len() > 0,
        forall|k: int| 0 <= k < evs.len() ==> srt_event_ok(#[trigger] evs[k]),
    ensures
        lines(srt_text(evs)) == lines(srt_text(evs.drop_last())) + block_lines(
            evs.len(),
            evs.last(),
        ),
{
    let pre = evs.drop_last();
    let e = evs.last();
    assert forall|k: int| 0 <= k < pre.len() implies srt_event_ok(#[trigger] pre[k]) by {
        assert(pre[k] == evs[k]);
    }
    assert(srt_event_ok(evs[evs.len() - 1]));
    lemma_srt_text_shape(pre);
    let blk = srt_block(evs.len(), e);
    lemma_lines_append(srt_text(pre), blk);
    lemma_block_text(evs.len(), e, Seq::<char>::empty());
    assert(blk + Seq::<char>::empty() =~= blk);
    assert(lines(Seq::<char>::empty()) =~= Seq::<Seq<char>>::empty());
}

#[verifier::rlimit(60)]
#[verifier::spinoff_prover]
proof fn lemma_srt_events_all(evs: Seq<EventView>, r: Seq<Seq<char>>)
    requires
        forall|k: int| 0 <= k < evs.len() ==> srt_event_ok(#[trigger] evs[k]),
    ensures
        srt_events(lines(srt_text(evs)) + r, 0) == evs + srt_events(r, 0),
    decreases evs.len(),
{
    if evs.len() == 0 {
        assert(srt_text(evs) =~= Seq::<char>::empty());
        assert(lines(srt_text(evs)) + r =~= r);
    } else {
        let pre = evs.drop_last();
        let e = evs.last();
        assert forall|k: int| 0 <= k < pre.len() implies srt_event_ok(#[trigger] pre[k]) by {
            assert(pre[k] == evs[k]);
        }
        assert(srt_event_ok(evs[evs.len() - 1]));
        lemma_srt_text_lines(evs);
        let bl = block_lines(evs.len(), e);
        assert(lines(srt_text(evs)) + r =~= lines(srt_text(pre)) + (bl + r));
        lemma_srt_events_all(pre, bl + r);
        lemma_events_block(evs.len(), e, r);
        assert(evs =~= pre + seq![e]);
    }
}

/// Serializing events SubRip can represent and parsing the text back
/// gives exactly the same events.
pub proof fn law_srt_roundtrip(evs: Seq<EventView>)
    requires
        forall|k: int| 0 <= k < evs.len() ==> srt_event_ok(#[trigger] evs[k]),
    ensures
        srt_parse_spec(srt_text(evs)) == evs,
{
    lemma_srt_text_shape(evs);
    let t = srt_text(evs);
    reveal_strlit("\r\n");
    reveal_strlit("\r");
    if t.len() > 0 {
        assert(is_digit(t[0]));
    }
    assert(strip_bom(t) == t);
    lemma_replace_noop(t, "\r\n"@, "\n"@);
    lemma_replace_noop(t, "\r"@, "\n"@);
    assert(normalize_newlines(t) == t);
    lemma_srt_events_all(evs, Seq::<Seq<char>>::empty());
    assert(lines(t) + Seq::<Seq<char>>::empty() =~= lines(t));
    assert(evs + Seq::<EventView>::empty() =~= evs);
}

/// An event with everything SubRip does not carry cleared.
pub open spec fn srt_plain(e: EventView) -> EventView {
    plain_event(e.start_ms, e.end_ms, e.text)
}

proof fn lemma_srt_text_plain(evs: Seq<EventView>)
    ensures
        srt_text(evs) == srt_text(evs.map_values(|e: EventView| srt_plain(e))),
    decreases evs.len(),
{
    if evs.len() > 0 {
        lemma_srt_text_plain(evs.drop_last());
        assert(evs.map_values(|e: EventView| srt_plain(e)).drop_last() =~= evs.drop_last().map_values(
            |e: EventView| srt_plain(e),
        ));
    }
}

/// Writing any events as SubRip and parsing the text back gives their
/// start, end and text, in order, with the fields SubRip does not carry
/// (style, name, layer and the like) cleared; for non-negative times and
/// texts without carriage returns or blank lines.
pub proof fn law_srt_roundtrip_fields(evs: Seq<EventView>)
    requires
        forall|k: int|
            0 <= k < evs.len() ==> 0 <= (#[trigger] evs[k]).start_ms <= i64::MAX && 0 <= evs[k].end_ms
                <= i64::MAX && srt_text_ok(evs[k].text),
    ensures
        srt_parse_spec(srt_text(evs)) == evs.map_values(|e: EventView| srt_plain(e)),
{
    let ps = evs.map_values(|e: EventView| srt_plain(e));
    assert forall|k: int| 0 <= k < ps.len() implies srt_event_ok(#[trigger] ps[k]) by {
        assert(ps[k] == srt_plain(evs[k]));
    }
    lemma_srt_text_plain(evs);
    law_srt_roundtrip(ps);
}

} // verus!

