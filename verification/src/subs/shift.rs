//! Retiming (shift by milliseconds) and removal of empty events.
use vstd::prelude::*;
use crate::subs::{events_view, plaintext_chars, plaintext_spec, Event, EventView};
use crate::text::{chars_of, is_blank, trim};
use crate::time::clamp_spec;

verus! {

/// `e` moved by `d` ms: negative times clamp to zero and an inverted range
/// collapses onto its start.
pub open spec fn shifted(e: EventView, d: int) -> EventView {
    let s = clamp_spec(e.start_ms + d);
    let t = clamp_spec(e.end_ms + d);
    EventView { start_ms: s, end_ms: if t < s { s } else { t }, ..e }
}

/// Shifting every event by `d` stays within the `i64` range.
pub open spec fn shift_fits(evs: Seq<EventView>, d: int) -> bool {
    forall|k: int| 0 <= k < evs.len() ==> shift_fits_one(#[trigger] evs[k], d)
}

pub open spec fn shift_fits_one(e: EventView, d: int) -> bool {
    i64::MIN <= e.start_ms + d <= i64::MAX && i64::MIN <= e.end_ms + d <= i64::MAX
}

/// Shifts every event by `shift_ms` (positive delays, negative advances).
/// Negative results clamp to zero and inverted ranges collapse.
pub fn shift_events(events: &mut Vec<Event>, shift_ms: i32)
    requires
        shift_fits(events_view(old(events)@), shift_ms as int),
    ensures
        events_view(final(events)@) == events_view(old(events)@).map_values(
            |e: EventView| shifted(e, shift_ms as int),
        ),
{
    let ghost orig = events_view(events@);
    let mut k: usize = 0;
    while k < events.len()
        invariant
            k <= events@.len() == orig.len(),
            shift_fits(orig, shift_ms as int),
            forall|m: int| 0 <= m < k ==> (#[trigger] events@[m])@ == shifted(orig[m], shift_ms as int),
            forall|m: int| k <= m < events@.len() ==> (#[trigger] events@[m])@ == orig[m],
        decreases events@.len() - k,
    {
        let mut e = events[k].duplicate();
        assert(e@ == orig[k as int]);
        assert(shift_fits_one(orig[k as int], shift_ms as int));
        let d = shift_ms as i64;
        let s = e.start_ms + d;
        let s = if s < 0 {
            0
        } else {
            s
        };
        let t = e.end_ms + d;
        let t = if t < 0 {
            0
        } else {
            t
        };
        e.start_ms = s;
        e.end_ms = if t < s {
            s
        } else {
            t
        };
        let ghost before = events@;
        events.set(k, e);
        assert(events@[k as int]@ == shifted(orig[k as int], shift_ms as int));
        assert forall|m: int| 0 <= m < events@.len() && m != k implies events@[m] == before[m] by {}
        k = k + 1;
    }
    assert(events_view(events@) =~= orig.map_values(|e: EventView| shifted(e, shift_ms as int)));
}

/// Whether an event shows text: its visible text (or, without
/// `use_plaintext`, its raw text) is not blank.
pub open spec fn has_text(e: EventView, use_plaintext: bool) -> bool {
    if use_plaintext {
        !is_blank(plaintext_spec(e.text))
    } else {
        !is_blank(e.text)
    }
}

/// The events that show text, in order.
pub open spec fn with_text(evs: Seq<EventView>, use_plaintext: bool) -> Seq<EventView>
    decreases evs.len(),
{
    if evs.len() == 0 {
        seq![]
    } else if has_text(evs.last(), use_plaintext) {
        with_text(evs.drop_last(), use_plaintext).push(evs.last())
    } else {
        with_text(evs.drop_last(), use_plaintext)
    }
}

pub proof fn lemma_with_text_len(evs: Seq<EventView>, up: bool)
    ensures
        with_text(evs, up).len() <= evs.len(),
    decreases evs.len(),
{
    if evs.len() > 0 {
        lemma_with_text_len(evs.drop_last(), up);
    }
}

fn event_has_text(e: &Event, use_plaintext: bool) -> (b: bool)
    ensures
        b == has_text(e@, use_plaintext),
{
    let t = chars_of(e.text.as_str());
    if use_plaintext {
        let p = plaintext_chars(&t);
        !crate::subs::is_blank_chars(&p)
    } else {
        !crate::subs::is_blank_chars(&t)
    }
}

/// Drops events without visible text. With `use_plaintext` (default) events
/// holding only formatting tags count as empty; otherwise only truly
/// text-less events are dropped. Returns the kept events plus drop count.
pub fn drop_empty(events: Vec<Event>, use_plaintext: bool) -> (r: (Vec<Event>, usize))
    ensures
        events_view(r.0@) == with_text(events_view(events@), use_plaintext),
        r.1 == events@.len() - r.0@.len(),
{
    let ghost evs = events_view(events@);
    let mut kept: Vec<Event> = Vec::new();
    let mut k: usize = 0;
    while k < events.len()
        invariant
            k <= events@.len() == evs.len(),
            evs == events_view(events@),
            events_view(kept@) == with_text(evs.take(k as int), use_plaintext),
        decreases events@.len() - k,
    {
        let ghost post = evs.take(k + 1);
        assert(post.drop_last() =~= evs.take(k as int));
        assert(post.last() == events@[k as int]@);
        if event_has_text(&events[k], use_plaintext) {
            let ghost before = kept@;
            kept.push(events[k].duplicate());
            assert(events_view(kept@) =~= events_view(before).push(events@[k as int]@));
        }
        k = k + 1;
    }
    assert(evs.take(k as int) =~= evs);
    proof {
        lemma_with_text_len(evs, use_plaintext);
    }
    let removed = events.len() - kept.len();
    (kept, removed)
}

/// Shifting by zero leaves well-ordered, non-negative events unchanged.
pub proof fn law_shift_zero(e: EventView)
    requires
        0 <= e.start_ms <= e.end_ms,
    ensures
        shifted(e, 0) == e,
{
}

/// After a shift every event starts at or after zero and ends no earlier
/// than it starts.
pub proof fn law_shift_ordered(e: EventView, d: int)
    ensures
        0 <= shifted(e, d).start_ms <= shifted(e, d).end_ms,
{
}

/// Two delays in a row equal one delay by their sum.
pub proof fn law_shift_compose(e: EventView, a: int, b: int)
    requires
        0 <= e.start_ms <= e.end_ms,
        a >= 0,
        b >= 0,
    ensures
        shifted(shifted(e, a), b) == shifted(e, a + b),
{
}

/// A delay followed by the equal advance gives the event back.
pub proof fn law_shift_undo(e: EventView, d: int)
    requires
        0 <= e.start_ms <= e.end_ms,
        d >= 0,
    ensures
        shifted(shifted(e, d), -d) == e,
{
}

} // verus!
