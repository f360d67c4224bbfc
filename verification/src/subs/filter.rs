//! Removing events whose visible text matches user keywords.
use vstd::prelude::*;
use crate::pattern::{regex_compiles, regex_is_match, Pattern};
use crate::subs::{events_view, plaintext, plaintext_spec, Event, EventView};
use crate::text::str_to_string;

verus! {

/// Why the keywords could not be used.
#[derive(Debug, Clone, PartialEq, Eq)]
pub enum FilterError {
    /// This keyword is not a valid regular expression.
    InvalidKeyword(String),
}

pub open spec fn patterns_view(ps: Seq<Pattern>) -> Seq<(Seq<char>, bool)> {
    ps.map_values(|p: Pattern| p@)
}

/// Compiles user keywords into case-insensitive regular expressions
/// (grep -E flavor); the first one that does not compile is reported.
pub fn compile_keywords(keywords: &[String]) -> (r: Result<Vec<Pattern>, FilterError>)
    ensures
        (forall|k: int| 0 <= k < keywords@.len() ==> regex_compiles(#[trigger] keywords@[k]@, true))
            ==> (r matches Ok(ps) && patterns_view(ps@) == keywords@.map_values(
            |s: String| (s@, true),
        )),
        r matches Err(FilterError::InvalidKeyword(bad)) ==> exists|k: int|
            0 <= k < keywords@.len() && bad@ == keywords@[k]@ && !regex_compiles(keywords@[k]@, true)
                && forall|m: int| 0 <= m < k ==> regex_compiles(#[trigger] keywords@[m]@, true),
{
    let ghost want = keywords@.map_values(|s: String| (s@, true));
    let mut out: Vec<Pattern> = Vec::new();
    let mut k: usize = 0;
    while k < keywords.len()
        invariant
            k <= keywords@.len(),
            want == keywords@.map_values(|s: String| (s@, true)),
            patterns_view(out@) == want.take(k as int),
            forall|m: int| 0 <= m < k ==> regex_compiles(#[trigger] keywords@[m]@, true),
        decreases keywords@.len() - k,
    {
        match Pattern::new(keywords[k].as_str(), true) {
            Ok(p) => {
                let ghost prev = out@;
                assert(p@ == (keywords@[k as int]@, true));
                out.push(p);
                assert(patterns_view(out@) =~= patterns_view(prev).push(p@));
                assert(want[k as int] == (keywords@[k as int]@, true));
                assert(patterns_view(out@) =~= want.take(k + 1));
            },
            Err(_) => {
                return Err(FilterError::InvalidKeyword(str_to_string(keywords[k].as_str())));
            },
        }
        k = k + 1;
    }
    assert(want.take(keywords@.len() as int) =~= want);
    Ok(out)
}

/// Some keyword matches the visible text of `e`.
pub open spec fn hit(e: EventView, ps: Seq<(Seq<char>, bool)>) -> bool {
    exists|k: int| 0 <= k < ps.len() && regex_is_match(ps[k].0, ps[k].1, plaintext_spec(e.text))
}

/// The events no keyword matches, in order.
pub open spec fn kept_events(evs: Seq<EventView>, ps: Seq<(Seq<char>, bool)>) -> Seq<EventView>
    decreases evs.len(),
{
    if evs.len() == 0 {
        seq![]
    } else {
        let rest = kept_events(evs.drop_last(), ps);
        if hit(evs.last(), ps) {
            rest
        } else {
            rest.push(evs.last())
        }
    }
}

/// Filtering keeps, in order, exactly the events whose visible text (the
/// text with override blocks and breaks removed) no keyword matches; so
/// two events with the same visible text are kept or dropped together,
/// whatever tags they carry.
pub proof fn law_filter_by_visible_text(evs: Seq<EventView>, ps: Seq<(Seq<char>, bool)>)
    ensures
        kept_events(evs, ps) == evs.filter(
            |e: EventView|
                !(exists|k: int|
                    0 <= k < ps.len() && regex_is_match(ps[k].0, ps[k].1, plaintext_spec(e.text))),
        ),
        forall|e1: EventView, e2: EventView|
            #![trigger kept_events(seq![e1], ps), kept_events(seq![e2], ps)]
            plaintext_spec(e1.text) == plaintext_spec(e2.text) ==> kept_events(seq![e1], ps).len()
                == kept_events(seq![e2], ps).len(),
    decreases evs.len(),
{
    reveal(Seq::filter);
    if evs.len() > 0 {
        law_filter_by_visible_text(evs.drop_last(), ps);
    }
    assert forall|e1: EventView, e2: EventView|
        #![trigger kept_events(seq![e1], ps), kept_events(seq![e2], ps)]
        plaintext_spec(e1.text) == plaintext_spec(e2.text) implies kept_events(seq![e1], ps).len()
            == kept_events(seq![e2], ps).len() by {
        assert(seq![e1].drop_last() =~= Seq::<EventView>::empty());
        assert(seq![e2].drop_last() =~= Seq::<EventView>::empty());
        assert(hit(e1, ps) == hit(e2, ps));
    }
}

proof fn lemma_kept_len(evs: Seq<EventView>, ps: Seq<(Seq<char>, bool)>)
    ensures
        kept_events(evs, ps).len() <= evs.len(),
    decreases evs.len(),
{
    if evs.len() > 0 {
        lemma_kept_len(evs.drop_last(), ps);
    }
}

fn any_match(ps: &[Pattern], t: &str) -> (b: bool)
    ensures
        b == exists|k: int| 0 <= k < ps@.len() && regex_is_match(ps@[k]@.0, ps@[k]@.1, t@),
{
    let mut k: usize = 0;
    while k < ps.len()
        invariant
            k <= ps@.len(),
            forall|j: int| 0 <= j < k ==> !regex_is_match(ps@[j]@.0, ps@[j]@.1, t@),
        decreases ps@.len() - k,
    {
        if ps[k].is_match(t) {
            return true;
        }
        k = k + 1;
    }
    false
}

/// Drops events whose visible text matches any keyword. Returns the kept
/// events plus the drop count.
pub fn filter_events(events: Vec<Event>, patterns: &[Pattern]) -> (r: (Vec<Event>, usize))
    ensures
        events_view(r.0@) == kept_events(events_view(events@), patterns_view(patterns@)),
        r.1 == events@.len() - r.0@.len(),
{
    let ghost evs = events_view(events@);
    let ghost pv = patterns_view(patterns@);
    let mut kept: Vec<Event> = Vec::new();
    let mut k: usize = 0;
    while k < events.len()
        invariant
            k <= events@.len() == evs.len(),
            evs == events_view(events@),
            pv == patterns_view(patterns@),
            events_view(kept@) == kept_events(evs.take(k as int), pv),
        decreases events@.len() - k,
    {
        let ghost post = evs.take(k + 1);
        assert(post.drop_last() =~= evs.take(k as int));
        assert(post.last() == events@[k as int]@);
        let t = plaintext(events[k].text.as_str());
        let h = any_match(patterns, t.as_str());
        assert(h == hit(evs[k as int], pv)) by {
            if h {
                let j = choose|j: int| 0 <= j < patterns@.len() && regex_is_match(patterns@[j]@.0, patterns@[j]@.1, t@);
                assert(pv[j] == patterns@[j]@);
            }
            if hit(evs[k as int], pv) {
                let j = choose|j: int| 0 <= j < pv.len() && regex_is_match(pv[j].0, pv[j].1, plaintext_spec(evs[k as int].text));
                assert(pv[j] == patterns@[j]@);
            }
        }
        if !h {
            let ghost before = kept@;
            kept.push(events[k].duplicate());
            assert(events_view(kept@) =~= events_view(before).push(events@[k as int]@));
        }
        k = k + 1;
    }
    assert(evs.take(k as int) =~= evs);
    proof {
        lemma_kept_len(evs, pv);
    }
    let removed = events.len() - kept.len();
    (kept, removed)
}

} // verus!
