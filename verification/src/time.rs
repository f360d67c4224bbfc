//! Subtitle timestamps: parse and format ASS (`H:MM:SS.cc`), SRT
//! (`HH:MM:SS,mmm`) and VTT (`[HH:]MM:SS.mmm`) times in milliseconds.
use vstd::prelude::*;
use crate::num::{all_digits, digits_value, is_digit, padded, parse_i64, parse_i64_spec, push_padded};
use crate::text::{chars_of, copy_range, string_of, lemma_find_char_at, lemma_find_char_none, trim_start, find_char, find_char_from, lemma_find_char, lemma_split_char_len, split_char, trim, trim_bounds};

verus! {

pub open spec fn clamp_spec(ms: int) -> int {
    if ms < 0 {
        0
    } else {
        ms
    }
}

/// Keeps shifted times inside the valid range: negative values become 0.
pub fn clamp_non_negative(ms: i64) -> (r: i64)
    ensures
        r == clamp_spec(ms as int),
{
    if ms < 0 {
        0
    } else {
        ms
    }
}

/// A value kept only when it fits an `i64`.
pub open spec fn fit(o: Option<int>) -> Option<int> {
    match o {
        Some(v) => if i64::MIN <= v <= i64::MAX {
            Some(v)
        } else {
            None
        },
        None => None,
    }
}

/// Hours, minutes and seconds (each trimmed) to seconds; minutes and
/// seconds must lie in `0..60`, hours must not be negative.
pub open spec fn hms_spec(h: Seq<char>, m: Seq<char>, s: Seq<char>) -> Option<int> {
    match (parse_i64_spec(trim(h)), parse_i64_spec(trim(m)), parse_i64_spec(trim(s))) {
        (Some(h), Some(m), Some(s)) => if h < 0 || !(0 <= m < 60) || !(0 <= s < 60) {
            None
        } else {
            Some(h * 3600 + m * 60 + s)
        },
        _ => None,
    }
}

pub open spec fn pow10_3(len: int) -> int {
    if len == 1 {
        100
    } else if len == 2 {
        10
    } else {
        1
    }
}

/// `H:MM:SS.f` with 1 to 3 fraction digits (ASS centiseconds), in ms.
pub open spec fn ass_time_spec(s: Seq<char>) -> Option<int> {
    let t = trim(s);
    match find_char(t, '.') {
        None => None,
        Some(i) => {
            let parts = split_char(t.take(i), ':');
            let frac = trim(t.skip(i + 1));
            if parts.len() != 3 {
                None
            } else {
                match hms_spec(parts[0], parts[1], parts[2]) {
                    None => None,
                    Some(base) => if frac.len() == 0 || frac.len() > 3 || !all_digits(frac) {
                        None
                    } else {
                        Some(base * 1000 + digits_value(frac) * pow10_3(frac.len() as int))
                    },
                }
            }
        },
    }
}

/// `c` with every `.` turned into `,`.
pub open spec fn dots_to_commas(s: Seq<char>) -> Seq<char> {
    s.map_values(|c: char| if c == '.' { ',' } else { c })
}

/// `HH:MM:SS,mmm` (a `.` is accepted in place of the `,`), in ms.
pub open spec fn srt_time_spec(s: Seq<char>) -> Option<int> {
    let t = dots_to_commas(trim(s));
    match find_char(t, ',') {
        None => None,
        Some(i) => {
            let parts = split_char(t.take(i), ':');
            let ms = trim(t.skip(i + 1));
            if parts.len() != 3 {
                None
            } else {
                match hms_spec(parts[0], parts[1], parts[2]) {
                    None => None,
                    Some(base) => if ms.len() != 3 || !all_digits(ms) {
                        None
                    } else {
                        Some(base * 1000 + digits_value(ms))
                    },
                }
            }
        },
    }
}

/// `[HH:]MM:SS.mmm`, in ms.
pub open spec fn vtt_time_spec(s: Seq<char>) -> Option<int> {
    let t = trim(s);
    match find_char(t, '.') {
        None => None,
        Some(i) => {
            let parts = split_char(t.take(i), ':');
            let ms = trim(t.skip(i + 1));
            let base = if parts.len() == 3 {
                hms_spec(parts[0], parts[1], parts[2])
            } else if parts.len() == 2 {
                hms_spec(seq!['0'], parts[0], parts[1])
            } else {
                None
            };
            match base {
                None => None,
                Some(base) => if ms.len() != 3 || !all_digits(ms) {
                    None
                } else {
                    Some(base * 1000 + digits_value(ms))
                },
            }
        },
    }
}

/// The trimmed characters of `s[a..b]`.
fn trimmed_range(s: &[char], a: usize, b: usize) -> (v: Vec<char>)
    requires
        a <= b <= s@.len(),
    ensures
        v@ == trim(s@.subrange(a as int, b as int)),
{
    let part = copy_range(s, a, b);
    let (x, y) = trim_bounds(&part);
    copy_range(&part, x, y)
}

pub open spec fn as_i64(o: Option<int>) -> Option<i64> {
    match o {
        Some(v) => Some(v as i64),
        None => None,
    }
}

fn parse_hms(h: &[char], m: &[char], s: &[char]) -> (r: Option<i64>)
    ensures
        r == as_i64(fit(hms_spec(h@, m@, s@))),
        r matches Some(v) ==> v >= 0,
{
    let (a, b) = trim_bounds(h);
    let hv = copy_range(h, a, b);
    let (a, b) = trim_bounds(m);
    let mv = copy_range(m, a, b);
    let (a, b) = trim_bounds(s);
    let sv = copy_range(s, a, b);
    let hh = match parse_i64(&hv) {
        Some(x) => x,
        None => return None,
    };
    let mm = match parse_i64(&mv) {
        Some(x) => x,
        None => return None,
    };
    let ss = match parse_i64(&sv) {
        Some(x) => x,
        None => return None,
    };
    if hh < 0 || !(0 <= mm && mm < 60) || !(0 <= ss && ss < 60) {
        return None;
    }
    let total: i128 = (hh as i128) * 3600 + (mm as i128) * 60 + (ss as i128);
    if total > 9223372036854775807 {
        return None;
    }
    Some(total as i64)
}

/// Where `t` splits at `:`: the number of pieces (1, 2, 3, or 4 meaning
/// "more than three") and the positions of the first two separators.
fn colon_pieces(t: &[char]) -> (r: (usize, usize, usize))
    ensures
        1 <= r.0 <= 4,
        r.0 == 1 ==> split_char(t@, ':').len() == 1,
        r.0 == 2 ==> r.1 < t@.len() && split_char(t@, ':') =~= seq![
            t@.take(r.1 as int),
            t@.skip(r.1 + 1),
        ],
        r.0 == 3 ==> r.1 < r.2 < t@.len() && split_char(t@, ':') =~= seq![
            t@.take(r.1 as int),
            t@.subrange(r.1 + 1, r.2 as int),
            t@.skip(r.2 + 1),
        ],
        r.0 == 4 ==> split_char(t@, ':').len() > 3,
{
    let n = t.len();
    proof {
        assert(t@.skip(0) =~= t@);
        lemma_find_char(t@, ':');
    }
    let p1 = match find_char_from(t, ':', 0) {
        None => {
            return (1, 0, 0);
        },
        Some(p) => p,
    };
    assert(find_char(t@, ':') == Some(p1 as int));
    assert(p1 < n);
    let ghost t1 = t@.skip(p1 + 1);
    proof {
        lemma_find_char(t1, ':');
        assert(t@.skip(p1 + 1) =~= t1);
    }
    let p2 = match find_char_from(t, ':', p1 + 1) {
        None => {
            proof {
                assert(split_char(t1, ':') =~= seq![t1]);
            }
            return (2, p1, 0);
        },
        Some(p) => p,
    };
    let ghost t2 = t@.skip(p2 + 1);
    assert(find_char(t1, ':') == Some(p2 - p1 - 1));
    assert(split_char(t@, ':') == seq![t@.take(p1 as int)] + split_char(t1, ':'));
    proof {
        assert(t1.take(p2 - p1 - 1) =~= t@.subrange(p1 + 1, p2 as int));
        assert(t1.skip(p2 - p1) =~= t2);
        lemma_find_char(t2, ':');
        assert(split_char(t1, ':') == seq![t1.take(p2 - p1 - 1)] + split_char(t2, ':'));
    }
    match find_char_from(t, ':', p2 + 1) {
        None => {
            proof {
                assert(split_char(t2, ':') =~= seq![t2]);
            }
            (3, p1, p2)
        },
        Some(p3) => {
            proof {
                assert(find_char(t2, ':') == Some(p3 - p2 - 1));
                assert(split_char(t2, ':') == seq![t2.take(p3 - p2 - 1)] + split_char(
                    t2.skip(p3 - p2),
                    ':',
                ));
                lemma_split_char_len(t2.skip(p3 - p2), ':');
            }
            (4, p1, p2)
        },
    }
}

/// Whether every character of `v` is an ASCII digit.
pub fn all_digit_chars(v: &[char]) -> (b: bool)
    ensures
        b == all_digits(v@),
{
    let mut i: usize = 0;
    while i < v.len()
        invariant
            i <= v@.len(),
            forall|k: int| 0 <= k < i ==> is_digit(#[trigger] v@[k]),
        decreases v@.len() - i,
    {
        let c = v[i];
        if !((c as u32) >= 48 && (c as u32) <= 57) {
            assert(!is_digit(v@[i as int]));
            return false;
        }
        i = i + 1;
    }
    true
}

/// Value of a run of at most three ASCII digits.
fn small_digits(v: &[char]) -> (r: i64)
    requires
        1 <= v@.len() <= 3,
        all_digits(v@),
    ensures
        r == digits_value(v@),
        0 <= r < 1000,
{
    proof {
        assert(is_digit(v@[0]));
        crate::num::lemma_digits_value_nonneg(v@);
        lemma_digits_small(v@);
    }
    match parse_i64(v) {
        Some(x) => x,
        None => 0,
    }
}

proof fn lemma_digits_small(v: Seq<char>)
    requires
        v.len() <= 3,
        all_digits(v),
    ensures
        0 <= digits_value(v) < crate::time::pow10_len(v.len() as int),
    decreases v.len(),
{
    if v.len() > 0 {
        assert(all_digits(v.drop_last())) by {
            assert forall|i: int| 0 <= i < v.drop_last().len() implies is_digit(
                #[trigger] v.drop_last()[i],
            ) by {
                assert(v.drop_last()[i] == v[i]);
            }
        }
        lemma_digits_small(v.drop_last());
        assert(is_digit(v[v.len() - 1]));
    }
}

pub open spec fn pow10_len(len: int) -> int {
    if len <= 0 {
        1
    } else if len == 1 {
        10
    } else if len == 2 {
        100
    } else {
        1000
    }
}

/// Milliseconds from the three `:`-separated pieces of `hms` and the
/// fraction digits; the shared tail of all three timestamp parsers.
fn finish_time(base: i64, frac: &[char], scale: i64) -> (r: Option<i64>)
    requires
        base >= 0,
        1 <= frac@.len() <= 3,
        all_digits(frac@),
        scale == 1 || scale == 10 || scale == 100,
    ensures
        r == as_i64(fit(Some(base * 1000 + digits_value(frac@) * scale))),
{
    let f = small_digits(frac);
    let total: i128 = (base as i128) * 1000 + (f as i128) * (scale as i128);
    if total > 9223372036854775807 {
        None
    } else {
        Some(total as i64)
    }
}

/// ASS `H:MM:SS.cc` (1 to 3 fraction digits) to milliseconds.
pub fn parse_ass_time_chars(s: &[char]) -> (r: Option<i64>)
    ensures
        r == as_i64(fit(ass_time_spec(s@))),
{
    let (a, b) = trim_bounds(s);
    let t = copy_range(s, a, b);
    proof {
        assert(t@.skip(0) =~= t@);
        lemma_find_char(t@, '.');
    }
    let i = match find_char_from(&t, '.', 0) {
        None => return None,
        Some(i) => i,
    };
    let hms = copy_range(&t, 0, i);
    let frac = trimmed_range(&t, i + 1, t.len());
    proof {
        assert(hms@ =~= t@.take(i as int));
        assert(t@.subrange(i + 1, t@.len() as int) =~= t@.skip(i + 1));
    }
    let (cnt, p1, p2) = colon_pieces(&hms);
    if cnt != 3 {
        return None;
    }
    let h = copy_range(&hms, 0, p1);
    let m = copy_range(&hms, p1 + 1, p2);
    let sec = copy_range(&hms, p2 + 1, hms.len());
    proof {
        assert(h@ =~= hms@.take(p1 as int));
        assert(sec@ =~= hms@.skip(p2 + 1));
    }
    let base = match parse_hms(&h, &m, &sec) {
        None => {
            proof {
                if all_digits(frac@) {
                    crate::num::lemma_digits_value_nonneg(frac@);
                }
            }
            return None;
        },
        Some(b) => b,
    };
    if frac.len() == 0 || frac.len() > 3 || !all_digit_chars(&frac) {
        return None;
    }
    let scale: i64 = if frac.len() == 1 {
        100
    } else if frac.len() == 2 {
        10
    } else {
        1
    };
    finish_time(base, &frac, scale)
}

/// Parses `H:MM:SS.cc` (ASS centiseconds, 1-3 fraction digits) into milliseconds.
pub fn parse_ass_time(s: &str) -> (r: Option<i64>)
    ensures
        r == as_i64(fit(ass_time_spec(s@))),
{
    let v = chars_of(s);
    parse_ass_time_chars(&v)
}

/// SRT `HH:MM:SS,mmm` (or with `.`) to milliseconds.
pub fn parse_srt_time_chars(s: &[char]) -> (r: Option<i64>)
    ensures
        r == as_i64(fit(srt_time_spec(s@))),
{
    let (a, b) = trim_bounds(s);
    let mut t: Vec<char> = Vec::new();
    let mut k = a;
    while k < b
        invariant
            a <= k <= b <= s@.len(),
            t@ == dots_to_commas(s@.subrange(a as int, k as int)),
        decreases b - k,
    {
        let c = s[k];
        t.push(if c == '.' { ',' } else { c });
        k = k + 1;
        assert(t@ =~= dots_to_commas(s@.subrange(a as int, k as int)));
    }
    proof {
        assert(t@.skip(0) =~= t@);
        lemma_find_char(t@, ',');
    }
    let i = match find_char_from(&t, ',', 0) {
        None => return None,
        Some(i) => i,
    };
    let hms = copy_range(&t, 0, i);
    let ms = trimmed_range(&t, i + 1, t.len());
    proof {
        assert(hms@ =~= t@.take(i as int));
        assert(t@.subrange(i + 1, t@.len() as int) =~= t@.skip(i + 1));
    }
    let (cnt, p1, p2) = colon_pieces(&hms);
    if cnt != 3 {
        return None;
    }
    let h = copy_range(&hms, 0, p1);
    let m = copy_range(&hms, p1 + 1, p2);
    let sec = copy_range(&hms, p2 + 1, hms.len());
    proof {
        assert(h@ =~= hms@.take(p1 as int));
        assert(sec@ =~= hms@.skip(p2 + 1));
    }
    let base = match parse_hms(&h, &m, &sec) {
        None => {
            proof {
                if all_digits(ms@) {
                    crate::num::lemma_digits_value_nonneg(ms@);
                }
            }
            return None;
        },
        Some(b) => b,
    };
    if ms.len() != 3 || !all_digit_chars(&ms) {
        return None;
    }
    finish_time(base, &ms, 1)
}

/// Parses `HH:MM:SS,mmm` (SRT, `.` accepted as well) into milliseconds.
pub fn parse_srt_time(s: &str) -> (r: Option<i64>)
    ensures
        r == as_i64(fit(srt_time_spec(s@))),
{
    let v = chars_of(s);
    parse_srt_time_chars(&v)
}

/// VTT `[HH:]MM:SS.mmm` to milliseconds.
#[verifier::rlimit(40)]
pub fn parse_vtt_time_chars(s: &[char]) -> (r: Option<i64>)
    ensures
        r == as_i64(fit(vtt_time_spec(s@))),
{
    let (a, b) = trim_bounds(s);
    let t = copy_range(s, a, b);
    proof {
        assert(t@.skip(0) =~= t@);
        lemma_find_char(t@, '.');
    }
    let i = match find_char_from(&t, '.', 0) {
        None => return None,
        Some(i) => i,
    };
    let hms = copy_range(&t, 0, i);
    let ms = trimmed_range(&t, i + 1, t.len());
    proof {
        assert(hms@ =~= t@.take(i as int));
        assert(t@.subrange(i + 1, t@.len() as int) =~= t@.skip(i + 1));
    }
    let (cnt, p1, p2) = colon_pieces(&hms);
    let parsed = if cnt == 3 {
        let h = copy_range(&hms, 0, p1);
        let m = copy_range(&hms, p1 + 1, p2);
        let sec = copy_range(&hms, p2 + 1, hms.len());
        proof {
            assert(h@ =~= hms@.take(p1 as int));
            assert(sec@ =~= hms@.skip(p2 + 1));
        }
        parse_hms(&h, &m, &sec)
    } else if cnt == 2 {
        let zero: Vec<char> = vec!['0'];
        let m = copy_range(&hms, 0, p1);
        let sec = copy_range(&hms, p1 + 1, hms.len());
        proof {
            assert(zero@ =~= seq!['0']);
            assert(m@ =~= hms@.take(p1 as int));
            assert(sec@ =~= hms@.skip(p1 + 1));
        }
        parse_hms(&zero, &m, &sec)
    } else {
        return None;
    };
    let base = match parsed {
        None => {
            proof {
                if all_digits(ms@) {
                    crate::num::lemma_digits_value_nonneg(ms@);
                }
            }
            return None;
        },
        Some(b) => b,
    };
    if ms.len() != 3 || !all_digit_chars(&ms) {
        return None;
    }
    finish_time(base, &ms, 1)
}

/// Parses `[HH:]MM:SS.mmm` (VTT) into milliseconds.
pub fn parse_vtt_time(s: &str) -> (r: Option<i64>)
    ensures
        r == as_i64(fit(vtt_time_spec(s@))),
{
    let v = chars_of(s);
    parse_vtt_time_chars(&v)
}

/// Hours, minutes, seconds and milliseconds of a clamped time.
pub open spec fn hours_of(ms: int) -> nat {
    (clamp_spec(ms) / 1000 / 3600) as nat
}

pub open spec fn minutes_of(ms: int) -> nat {
    ((clamp_spec(ms) / 1000 / 60) % 60) as nat
}

pub open spec fn seconds_of(ms: int) -> nat {
    ((clamp_spec(ms) / 1000) % 60) as nat
}

pub open spec fn millis_of(ms: int) -> nat {
    (clamp_spec(ms) % 1000) as nat
}

/// `H:MM:SS.cc` text of `ms` (negative times print as zero).
pub open spec fn ass_time_text(ms: int) -> Seq<char> {
    padded(hours_of(ms), 0) + seq![':'] + padded(minutes_of(ms), 2) + seq![':'] + padded(
        seconds_of(ms),
        2,
    ) + seq!['.'] + padded(millis_of(ms) / 10, 2)
}

/// `HH:MM:SS<sep>mmm` text of `ms` (negative times print as zero).
pub open spec fn hms_ms_text(ms: int, sep: char) -> Seq<char> {
    padded(hours_of(ms), 2) + seq![':'] + padded(minutes_of(ms), 2) + seq![':'] + padded(
        seconds_of(ms),
        2,
    ) + seq![sep] + padded(millis_of(ms), 3)
}

pub open spec fn srt_time_text(ms: int) -> Seq<char> {
    hms_ms_text(ms, ',')
}

pub open spec fn vtt_time_text(ms: int) -> Seq<char> {
    hms_ms_text(ms, '.')
}

fn push_hms(out: &mut Vec<char>, ms: i64, hour_width: usize)
    ensures
        final(out)@ == old(out)@ + padded(hours_of(ms as int), hour_width as nat) + seq![':']
            + padded(minutes_of(ms as int), 2) + seq![':'] + padded(seconds_of(ms as int), 2),
{
    let m = clamp_non_negative(ms);
    let s = m / 1000;
    push_padded(out, (s / 3600) as u64, hour_width);
    out.push(':');
    push_padded(out, ((s / 60) % 60) as u64, 2);
    out.push(':');
    push_padded(out, (s % 60) as u64, 2);
    assert(final_eq(out@, old(out)@, ms as int, hour_width as nat));
}

spec fn final_eq(now: Seq<char>, before: Seq<char>, ms: int, hw: nat) -> bool {
    now =~= before + padded(hours_of(ms), hw) + seq![':'] + padded(minutes_of(ms), 2) + seq![':']
        + padded(seconds_of(ms), 2)
}

/// Appends the ASS text of `ms`.
pub fn push_ass_time(out: &mut Vec<char>, ms: i64)
    ensures
        final(out)@ == old(out)@ + ass_time_text(ms as int),
{
    push_hms(out, ms, 0);
    out.push('.');
    let m = clamp_non_negative(ms);
    push_padded(out, ((m % 1000) / 10) as u64, 2);
    assert(out@ =~= old(out)@ + ass_time_text(ms as int));
}

/// Appends the SRT (`sep == ','`) or VTT (`sep == '.'`) text of `ms`.
pub fn push_hms_ms(out: &mut Vec<char>, ms: i64, sep: char)
    ensures
        final(out)@ == old(out)@ + hms_ms_text(ms as int, sep),
{
    push_hms(out, ms, 2);
    out.push(sep);
    let m = clamp_non_negative(ms);
    push_padded(out, (m % 1000) as u64, 3);
    assert(out@ =~= old(out)@ + hms_ms_text(ms as int, sep));
}

/// Formats milliseconds as ASS `H:MM:SS.cc`.
pub fn format_ass_time(ms: i64) -> (r: String)
    ensures
        r@ == ass_time_text(ms as int),
{
    let mut out: Vec<char> = Vec::new();
    push_ass_time(&mut out, ms);
    assert(out@ =~= ass_time_text(ms as int));
    string_of(&out)
}

/// Formats milliseconds as SRT `HH:MM:SS,mmm`.
pub fn format_srt_time(ms: i64) -> (r: String)
    ensures
        r@ == srt_time_text(ms as int),
{
    let mut out: Vec<char> = Vec::new();
    push_hms_ms(&mut out, ms, ',');
    assert(out@ =~= srt_time_text(ms as int));
    string_of(&out)
}

/// Formats milliseconds as VTT `HH:MM:SS.mmm`.
pub fn format_vtt_time(ms: i64) -> (r: String)
    ensures
        r@ == vtt_time_text(ms as int),
{
    let mut out: Vec<char> = Vec::new();
    push_hms_ms(&mut out, ms, '.');
    assert(out@ =~= vtt_time_text(ms as int));
    string_of(&out)
}

proof fn lemma_trim_digits(d: Seq<char>)
    requires
        all_digits(d),
    ensures
        trim(d) == d,
{
    if d.len() > 0 {
        assert(is_digit(d[0]));
        assert(is_digit(d[d.len() - 1]));
    }
    assert(trim_start(d) == d);
}

proof fn lemma_parse_digits(d: Seq<char>)
    requires
        all_digits(d),
        d.len() >= 1,
        digits_value(d) <= i64::MAX,
    ensures
        parse_i64_spec(d) == Some(digits_value(d)),
        parse_i64_spec(trim(d)) == Some(digits_value(d)),
{
    assert(is_digit(d[0]));
    crate::num::lemma_digits_value_nonneg(d);
    lemma_trim_digits(d);
}

proof fn lemma_digits_no(d: Seq<char>, c: char)
    requires
        all_digits(d),
        !is_digit(c),
    ensures
        forall|k: int| 0 <= k < d.len() ==> d[k] != c,
{
    assert forall|k: int| 0 <= k < d.len() implies d[k] != c by {
        assert(is_digit(d[k]));
    }
}

proof fn lemma_find_after(a: Seq<char>, c: char, b: Seq<char>)
    requires
        forall|k: int| 0 <= k < a.len() ==> a[k] != c,
    ensures
        find_char(a + seq![c] + b, c) == Some(a.len() as int),
        (a + seq![c] + b).take(a.len() as int) == a,
        (a + seq![c] + b).skip(a.len() as int + 1) == b,
{
    let s = a + seq![c] + b;
    assert forall|k: int| 0 <= k < a.len() implies s[k] != c by {
        assert(s[k] == a[k]);
    }
    assert(s[a.len() as int] == c);
    lemma_find_char_at(s, c, a.len() as int);
    assert(s.take(a.len() as int) =~= a);
    assert(s.skip(a.len() as int + 1) =~= b);
}

proof fn lemma_split_three(a: Seq<char>, b: Seq<char>, d: Seq<char>, c: char)
    requires
        forall|k: int| 0 <= k < a.len() ==> a[k] != c,
        forall|k: int| 0 <= k < b.len() ==> b[k] != c,
        forall|k: int| 0 <= k < d.len() ==> d[k] != c,
    ensures
        split_char(a + seq![c] + b + seq![c] + d, c) == seq![a, b, d],
{
    let s = a + seq![c] + b + seq![c] + d;
    assert(s =~= a + seq![c] + (b + seq![c] + d));
    lemma_find_after(a, c, b + seq![c] + d);
    lemma_find_after(b, c, d);
    lemma_find_char_none(d, c);
    assert(split_char(d, c) =~= seq![d]);
    assert(split_char(b + seq![c] + d, c) =~= seq![b] + seq![d]);
    assert(split_char(s, c) =~= seq![a] + (seq![b] + seq![d]));
}

proof fn lemma_split_seconds(m: int)
    requires
        m >= 0,
    ensures
        (m / 1000 / 3600) * 3600 + ((m / 1000 / 60) % 60) * 60 + (m / 1000) % 60 == m / 1000,
        (m / 1000) * 1000 + m % 1000 == m,
        ((m % 1000) / 10) * 10 == m % 1000 - m % 10,
        m % 1000 < 1000,
        (m / 1000 / 60) % 60 < 60,
        (m / 1000) % 60 < 60,
        m / 1000 / 3600 <= m,
{
    let s = m / 1000;
    assert(s / 3600 == (s / 60) / 60) by {
        vstd::arithmetic::div_mod::lemma_div_denominator(s, 60, 60);
    }
    vstd::arithmetic::div_mod::lemma_fundamental_div_mod(s, 60);
    vstd::arithmetic::div_mod::lemma_fundamental_div_mod(s / 60, 60);
    vstd::arithmetic::div_mod::lemma_fundamental_div_mod(m, 1000);
    vstd::arithmetic::div_mod::lemma_fundamental_div_mod(m % 1000, 10);
    assert((m % 1000) % 10 == m % 10) by {
        vstd::arithmetic::div_mod::lemma_mod_mod(m, 10, 100);
    }
}

/// Hours, minutes and seconds pieces of a formatted time, common to the
/// three round trips.
proof fn lemma_hms_pieces(ms: int, hw: nat)
    requires
        ms <= i64::MAX,
    ensures
        hms_spec(padded(hours_of(ms), hw), padded(minutes_of(ms), 2), padded(seconds_of(ms), 2))
            == Some(clamp_spec(ms) / 1000),
        all_digits(padded(hours_of(ms), hw)),
        all_digits(padded(minutes_of(ms), 2)),
        all_digits(padded(seconds_of(ms), 2)),
{
    let m = clamp_spec(ms);
    lemma_split_seconds(m);
    crate::num::lemma_padded(hours_of(ms), hw);
    crate::num::lemma_padded(minutes_of(ms), 2);
    crate::num::lemma_padded(seconds_of(ms), 2);
    lemma_parse_digits(padded(hours_of(ms), hw));
    lemma_parse_digits(padded(minutes_of(ms), 2));
    lemma_parse_digits(padded(seconds_of(ms), 2));
}

/// ASS text parses back to the time truncated to centiseconds.
pub proof fn law_ass_time_roundtrip(ms: int)
    requires
        ms <= i64::MAX,
    ensures
        fit(ass_time_spec(ass_time_text(ms))) == Some(clamp_spec(ms) / 10 * 10),
{
    let m = clamp_spec(ms);
    lemma_split_seconds(m);
    lemma_hms_pieces(ms, 0);
    let hp = padded(hours_of(ms), 0);
    let mp = padded(minutes_of(ms), 2);
    let sp = padded(seconds_of(ms), 2);
    let cp = padded(millis_of(ms) / 10, 2);
    crate::num::lemma_padded(millis_of(ms) / 10, 2);
    let hms = hp + seq![':'] + mp + seq![':'] + sp;
    let t = ass_time_text(ms);
    assert(t =~= hms + seq!['.'] + cp);
    lemma_digits_no(hp, ':');
    lemma_digits_no(mp, ':');
    lemma_digits_no(sp, ':');
    lemma_digits_no(hp, '.');
    lemma_digits_no(mp, '.');
    lemma_digits_no(sp, '.');
    assert forall|k: int| 0 <= k < hms.len() implies hms[k] != '.' by {
        if k < hp.len() {
            assert(hms[k] == hp[k]);
        } else if k == hp.len() {
        } else if k < hp.len() + 1 + mp.len() {
            assert(hms[k] == mp[k - hp.len() - 1]);
        } else if k == hp.len() + 1 + mp.len() {
        } else {
            assert(hms[k] == sp[k - hp.len() - 2 - mp.len()]);
        }
    }
    assert(is_digit(hms[0])) by {
        assert(hms[0] == hp[0]);
    }
    assert(is_digit(t.last())) by {
        assert(t.last() == cp[cp.len() - 1]);
    }
    assert(trim_start(t) == t);
    lemma_find_after(hms, '.', cp);
    lemma_split_three(hp, mp, sp, ':');
    lemma_trim_digits(cp);
    assert(cp.len() == 2);
    assert(pow10_3(2) == 10);
}

/// SRT or VTT text (`HH:MM:SS<sep>mmm`) pieces.
proof fn lemma_hms_ms_shape(ms: int, sep: char)
    requires
        ms <= i64::MAX,
        !is_digit(sep),
        sep != ':',
        sep != '.' ==> sep == ',',
    ensures
        ({
            let hp = padded(hours_of(ms), 2);
            let mp = padded(minutes_of(ms), 2);
            let sp = padded(seconds_of(ms), 2);
            let hms = hp + seq![':'] + mp + seq![':'] + sp;
            &&& hms_ms_text(ms, sep) == hms + seq![sep] + padded(millis_of(ms), 3)
            &&& trim(hms_ms_text(ms, sep)) == hms_ms_text(ms, sep)
            &&& forall|k: int| 0 <= k < hms.len() ==> hms[k] != sep && hms[k] != '.'
            &&& split_char(hms, ':') == seq![hp, mp, sp]
            &&& all_digits(padded(millis_of(ms), 3))
            &&& padded(millis_of(ms), 3).len() == 3
            &&& trim(padded(millis_of(ms), 3)) == padded(millis_of(ms), 3)
        }),
{
    let m = clamp_spec(ms);
    lemma_split_seconds(m);
    lemma_hms_pieces(ms, 2);
    let hp = padded(hours_of(ms), 2);
    let mp = padded(minutes_of(ms), 2);
    let sp = padded(seconds_of(ms), 2);
    let fp = padded(millis_of(ms), 3);
    crate::num::lemma_padded(millis_of(ms), 3);
    crate::num::lemma_padded(hours_of(ms), 2);
    let hms = hp + seq![':'] + mp + seq![':'] + sp;
    let t = hms_ms_text(ms, sep);
    assert(t =~= hms + seq![sep] + fp);
    lemma_digits_no(hp, ':');
    lemma_digits_no(mp, ':');
    lemma_digits_no(sp, ':');
    assert forall|k: int| 0 <= k < hms.len() implies hms[k] != sep && hms[k] != '.' by {
        if k < hp.len() {
            assert(hms[k] == hp[k]);
            assert(is_digit(hp[k]));
        } else if k == hp.len() {
        } else if k < hp.len() + 1 + mp.len() {
            assert(hms[k] == mp[k - hp.len() - 1]);
            assert(is_digit(mp[k - hp.len() - 1]));
        } else if k == hp.len() + 1 + mp.len() {
        } else {
            assert(hms[k] == sp[k - hp.len() - 2 - mp.len()]);
            assert(is_digit(sp[k - hp.len() - 2 - mp.len()]));
        }
    }
    assert(is_digit(t[0])) by {
        assert(t[0] == hp[0]);
    }
    assert(is_digit(t.last())) by {
        assert(t.last() == fp[fp.len() - 1]);
    }
    assert(trim_start(t) == t);
    lemma_split_three(hp, mp, sp, ':');
    lemma_trim_digits(fp);
}

/// SRT text parses back to the (clamped) time.
pub proof fn law_srt_time_roundtrip(ms: int)
    requires
        ms <= i64::MAX,
    ensures
        fit(srt_time_spec(srt_time_text(ms))) == Some(clamp_spec(ms)),
{
    let m = clamp_spec(ms);
    lemma_split_seconds(m);
    lemma_hms_ms_shape(ms, ',');
    lemma_hms_pieces(ms, 2);
    let hp = padded(hours_of(ms), 2);
    let mp = padded(minutes_of(ms), 2);
    let sp = padded(seconds_of(ms), 2);
    let fp = padded(millis_of(ms), 3);
    let hms = hp + seq![':'] + mp + seq![':'] + sp;
    let t = srt_time_text(ms);
    crate::num::lemma_padded(millis_of(ms), 3);
    assert(dots_to_commas(t) =~= t) by {
        assert forall|k: int| 0 <= k < t.len() implies t[k] != '.' by {
            if k < hms.len() {
                assert(t[k] == hms[k]);
            } else if k > hms.len() {
                assert(t[k] == fp[k - hms.len() - 1]);
                assert(is_digit(fp[k - hms.len() - 1]));
            }
        }
    }
    lemma_find_after(hms, ',', fp);
    assert(trim(t) == t);
    assert(find_char(t, ',') == Some(hms.len() as int));
    assert(split_char(hms, ':') == seq![hp, mp, sp]);
    assert(hms_spec(hp, mp, sp) == Some(m / 1000));
    assert(digits_value(fp) == millis_of(ms));
}

/// VTT text parses back to the (clamped) time.
pub proof fn law_vtt_time_roundtrip(ms: int)
    requires
        ms <= i64::MAX,
    ensures
        fit(vtt_time_spec(vtt_time_text(ms))) == Some(clamp_spec(ms)),
{
    let m = clamp_spec(ms);
    lemma_split_seconds(m);
    lemma_hms_ms_shape(ms, '.');
    lemma_hms_pieces(ms, 2);
    let hp = padded(hours_of(ms), 2);
    let mp = padded(minutes_of(ms), 2);
    let sp = padded(seconds_of(ms), 2);
    let fp = padded(millis_of(ms), 3);
    let hms = hp + seq![':'] + mp + seq![':'] + sp;
    crate::num::lemma_padded(millis_of(ms), 3);
    lemma_find_after(hms, '.', fp);
    let t = vtt_time_text(ms);
    assert(trim(t) == t);
    assert(find_char(t, '.') == Some(hms.len() as int));
    assert(t.take(hms.len() as int) == hms);
    assert(t.skip(hms.len() as int + 1) == fp);
    assert(split_char(hms, ':') == seq![hp, mp, sp]);
    assert(hms_spec(hp, mp, sp) == Some(m / 1000));
    assert(digits_value(fp) == millis_of(ms));
}

} // verus!



