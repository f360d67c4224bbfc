//! Timing QC in whole numbers: durations, visible character counts and
//! overlapping neighbours (reading speeds are derived from these).
use vstd::prelude::*;
use crate::subs::{events_view, plaintext, plaintext_spec, Event, EventView};

verus! {

/// Duration of an event, negative ranges counted as zero.
pub open spec fn duration(e: EventView) -> int {
    if e.end_ms - e.start_ms > 0 {
        e.end_ms - e.start_ms
    } else {
        0
    }
}

/// The overlapping neighbour pairs among the first `k` events, as 1-based
/// (earlier, later) numbers: event `i+1` starts before event `i` ends.
pub open spec fn overlaps_spec(evs: Seq<EventView>, k: nat) -> Seq<(int, int)>
    decreases k,
{
    if k == 0 {
        seq![]
    } else {
        let i = k - 1;
        let rest = overlaps_spec(evs, (k - 1) as nat);
        if i + 1 < evs.len() && evs[i + 1].start_ms < evs[i].end_ms {
            rest.push((i + 1, i + 2))
        } else {
            rest
        }
    }
}

/// The overlap list names exactly the neighbour pairs where the later
/// event starts strictly before the earlier one ends (cues that only touch
/// are not reported), each once, as 1-based (earlier, later) numbers in
/// increasing order.
pub proof fn law_overlaps_are_strict(evs: Seq<EventView>, k: nat)
    requires
        k <= evs.len(),
    ensures
        forall|i: int|
            0 <= i && i + 1 < evs.len() ==> (overlaps_spec(evs, k).contains((i + 1, i + 2)) <==> (i
                < k && (#[trigger] evs[i + 1]).start_ms < evs[i].end_ms)),
        forall|j: int|
            0 <= j < overlaps_spec(evs, k).len() ==> {
                let p = #[trigger] overlaps_spec(evs, k)[j];
                &&& 1 <= p.0 < evs.len()
                &&& p.1 == p.0 + 1
            },
        forall|a: int, b: int|
            0 <= a < b < overlaps_spec(evs, k).len() ==> (#[trigger] overlaps_spec(evs, k)[a]).0
                < (#[trigger] overlaps_spec(evs, k)[b]).0,
        forall|j: int| 0 <= j < overlaps_spec(evs, k).len() ==> (#[trigger] overlaps_spec(evs, k)[j]).0 <= k,
    decreases k,
{
    if k > 0 {
        let i0 = k - 1;
        law_overlaps_are_strict(evs, (k - 1) as nat);
        let rest = overlaps_spec(evs, (k - 1) as nat);
        let all = overlaps_spec(evs, k);
        if i0 + 1 < evs.len() && evs[i0 + 1].start_ms < evs[i0].end_ms {
            assert(all == rest.push((i0 + 1, i0 + 2)));
            assert forall|i: int|
                0 <= i && i + 1 < evs.len() implies (all.contains((i + 1, i + 2)) <==> (i < k && (
                #[trigger] evs[i + 1]).start_ms < evs[i].end_ms)) by {
                if all.contains((i + 1, i + 2)) {
                    let j = choose|j: int| 0 <= j < all.len() && all[j] == (i + 1, i + 2);
                    if j < rest.len() {
                        assert(rest[j] == all[j]);
                        assert(rest.contains((i + 1, i + 2)));
                    }
                }
                if i < k && evs[i + 1].start_ms < evs[i].end_ms {
                    if i < i0 {
                        assert(rest.contains((i + 1, i + 2)));
                        let j = choose|j: int| 0 <= j < rest.len() && rest[j] == (i + 1, i + 2);
                        assert(all[j] == rest[j]);
                    } else {
                        assert(all[rest.len() as int] == (i + 1, i + 2));
                    }
                }
            }
            assert forall|j: int| 0 <= j < all.len() implies {
                let p = #[trigger] all[j];
                &&& 1 <= p.0 < evs.len()
                &&& p.1 == p.0 + 1
            } by {
                if j < rest.len() {
                    assert(all[j] == rest[j]);
                }
            }
            assert forall|j: int| 0 <= j < all.len() implies (#[trigger] all[j]).0 <= k by {
                if j < rest.len() {
                    assert(all[j] == rest[j]);
                }
            }
            assert forall|a: int, b: int| 0 <= a < b < all.len() implies (#[trigger] all[a]).0 < (
            #[trigger] all[b]).0 by {
                assert(all[a] == rest[a]);
                if b < rest.len() {
                    assert(all[b] == rest[b]);
                } else {
                    assert(rest[a].0 <= k - 1);
                }
            }
        } else {
            assert(all == rest);
            assert forall|i: int|
                0 <= i && i + 1 < evs.len() implies (all.contains((i + 1, i + 2)) <==> (i < k && (
                #[trigger] evs[i + 1]).start_ms < evs[i].end_ms)) by {
                if all.contains((i + 1, i + 2)) {
                    assert(rest.contains((i + 1, i + 2)));
                }
            }
        }
    }
}

/// Per-file timing numbers.
pub struct Timing {
    pub events: usize,
    pub min_dur_ms: i64,
    pub max_dur_ms: i64,
    /// Duration of each event (negative ranges as zero).
    pub durations: Vec<i64>,
    /// Visible characters of each event (tags and breaks removed).
    pub visible_chars: Vec<usize>,
    /// Overlapping pairs as 1-based (earlier, later) event numbers.
    pub overlaps: Vec<(usize, usize)>,
}

/// Every event's duration fits in an `i64`.
pub open spec fn durations_fit(evs: Seq<EventView>) -> bool {
    forall|i: int| 0 <= i < evs.len() ==> i64::MIN <= (#[trigger] evs[i]).end_ms - evs[i].start_ms <= i64::MAX
}

/// Timing QC: the duration and visible length of each event, the shortest
/// and longest duration (both zero without events) and the overlapping
/// neighbours.
pub fn timing(events: &[Event]) -> (r: Timing)
    requires
        durations_fit(events_view(events@)),
    ensures
        r.events == events@.len(),
        r.durations@.len() == events@.len(),
        r.visible_chars@.len() == events@.len(),
        forall|i: int| 0 <= i < events@.len() ==> r.durations@[i] == duration(#[trigger] events@[i]@),
        forall|i: int|
            0 <= i < events@.len() ==> r.visible_chars@[i] == plaintext_spec(
                (#[trigger] events@[i]@).text,
            ).len(),
        events@.len() == 0 ==> r.min_dur_ms == 0 && r.max_dur_ms == 0,
        events@.len() > 0 ==> (exists|i: int| 0 <= i < events@.len() && r.min_dur_ms == duration(events@[i]@)),
        events@.len() > 0 ==> (exists|i: int| 0 <= i < events@.len() && r.max_dur_ms == duration(events@[i]@)),
        forall|i: int| 0 <= i < events@.len() ==> r.min_dur_ms <= duration(#[trigger] events@[i]@) <= r.max_dur_ms,
        r.overlaps@.map_values(|p: (usize, usize)| (p.0 as int, p.1 as int)) == overlaps_spec(
            events_view(events@),
            events@.len(),
        ),
{
    let ghost evs = events_view(events@);
    let n = events.len();
    let mut durations: Vec<i64> = Vec::new();
    let mut visible: Vec<usize> = Vec::new();
    let mut overlaps: Vec<(usize, usize)> = Vec::new();
    let mut min_d: i64 = i64::MAX;
    let mut max_d: i64 = 0;
    let mut i: usize = 0;
    while i < n
        invariant
            i <= n == events@.len() == evs.len(),
            evs == events_view(events@),
            durations_fit(evs),
            durations@.len() == i,
            visible@.len() == i,
            forall|j: int| 0 <= j < i ==> durations@[j] == duration(#[trigger] events@[j]@),
            forall|j: int|
                0 <= j < i ==> visible@[j] == plaintext_spec((#[trigger] events@[j]@).text).len(),
            forall|j: int| 0 <= j < i ==> min_d <= duration(#[trigger] events@[j]@) <= max_d,
            i > 0 ==> exists|j: int| 0 <= j < i && min_d == duration(events@[j]@),
            i > 0 ==> exists|j: int| 0 <= j < i && max_d == duration(events@[j]@),
            i == 0 ==> min_d == i64::MAX && max_d == 0,
            overlaps@.map_values(|p: (usize, usize)| (p.0 as int, p.1 as int)) == overlaps_spec(
                evs,
                i as nat,
            ),
        decreases n - i,
    {
        let e = &events[i];
        assert(evs[i as int] == e@);
        let raw = e.end_ms - e.start_ms;
        let dur = if raw > 0 {
            raw
        } else {
            0
        };
        if i == 0 {
            min_d = dur;
            max_d = dur;
        } else {
            if dur < min_d {
                min_d = dur;
            }
            if dur > max_d {
                max_d = dur;
            }
        }
        durations.push(dur);
        let t = plaintext(e.text.as_str());
        visible.push(t.as_str().unicode_len());
        let ghost prev = overlaps@;
        if i + 1 < n && events[i + 1].start_ms < e.end_ms {
            overlaps.push((i + 1, i + 2));
            assert(overlaps@.map_values(|p: (usize, usize)| (p.0 as int, p.1 as int)) =~= prev.map_values(
                |p: (usize, usize)| (p.0 as int, p.1 as int),
            ).push(((i + 1) as int, (i + 2) as int)));
        }
        i = i + 1;
    }
    if n == 0 {
        min_d = 0;
    }
    Timing { events: n, min_dur_ms: min_d, max_dur_ms: max_d, durations, visible_chars: visible, overlaps }
}

} // verus!
