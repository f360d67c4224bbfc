//! Translating the events of a file: cache lookup, one engine batch for
//! the misses, placeholder restore and glossary post-replacement. The
//! engine call itself happens between [`begin_translation`] and
//! [`finish_translation`].
use vstd::prelude::*;
use crate::pattern::Pattern;
use crate::subs::{events_view, Event, EventView, SubFile, SubFileView};
use crate::text::{chars_eq, chars_of, eq_ignore_ascii_case, eq_ignore_ascii_case_chars, trim, trim_bounds};
use crate::translate::cache::{key_spec, Cache};
use crate::translate::prompt::{apply_glossary, compiled_view, glossary_applied, strs};
use crate::translate::segment::{protect, protect_spec, restore, restore_spec};
use crate::translate::LangPair;

verus! {

/// Options shared by every file of a run.
pub struct PipeOpts {
    pub pair: LangPair,
    pub glossary_pairs: Vec<(String, String)>,
    pub glossary_re: Vec<(Pattern, String)>,
    pub translate_karaoke: bool,
}

/// Event counts of one file.
#[derive(Debug, Clone, Copy, PartialEq, Eq, Structural)]
pub struct TranslateStats {
    pub total: usize,
    pub fresh: usize,
    pub cached: usize,
    pub skipped: usize,
}

impl Default for TranslateStats {
    fn default() -> (s: TranslateStats)
        ensures
            s == (TranslateStats { total: 0, fresh: 0, cached: 0, skipped: 0 }),
    {
        TranslateStats { total: 0, fresh: 0, cached: 0, skipped: 0 }
    }
}

/// An event that missed the cache: its index, protected text, tag table
/// and cache key.
pub struct Pending {
    pub index: usize,
    pub protected: String,
    pub table: Vec<String>,
    pub key: String,
}

pub struct PendingView {
    pub index: int,
    pub protected: Seq<char>,
    pub table: Seq<Seq<char>>,
    pub key: Seq<char>,
}

impl View for Pending {
    type V = PendingView;

    open spec fn view(&self) -> PendingView {
        PendingView {
            index: self.index as int,
            protected: self.protected@,
            table: strs(self.table@),
            key: self.key@,
        }
    }
}

pub open spec fn pendings_view(p: Seq<Pending>) -> Seq<PendingView> {
    p.map_values(|x: Pending| x@)
}

/// Karaoke and effect lines are left alone unless asked for.
pub open spec fn skipped_spec(e: EventView, translate_karaoke: bool) -> bool {
    !translate_karaoke && (eq_ignore_ascii_case(e.style, "karaoke"@) || trim(e.effect).len() > 0)
}

/// What the engines and the cache see of a run: engine, model, languages.
pub struct Job {
    pub engine: Seq<char>,
    pub model: Seq<char>,
    pub from: Seq<char>,
    pub to: Seq<char>,
}

/// The cache key of an event's protected text.
pub open spec fn event_key(e: EventView, j: Job) -> Seq<char> {
    key_spec(j.engine, j.model, j.from, j.to, protect_spec(e.text).0)
}

/// State after planning a prefix of the events.
pub struct Planned {
    pub events: Seq<EventView>,
    pub pending: Seq<PendingView>,
    pub cached: nat,
    pub skipped: nat,
}

/// Planning the first `k` events: skipped ones counted, cache hits
/// rewritten in place (restored, then the glossary applied), misses
/// queued.
pub open spec fn plan(
    evs: Seq<EventView>,
    k: nat,
    cache: Map<Seq<char>, Seq<char>>,
    j: Job,
    gv: Seq<((Seq<char>, bool), Seq<char>)>,
    tk: bool,
) -> Planned
    decreases k,
{
    if k == 0 {
        Planned { events: evs, pending: seq![], cached: 0, skipped: 0 }
    } else {
        let p = plan(evs, (k - 1) as nat, cache, j, gv, tk);
        let i = k - 1;
        let e = evs[i];
        if skipped_spec(e, tk) {
            Planned { skipped: p.skipped + 1, ..p }
        } else {
            let key = event_key(e, j);
            if cache.dom().contains(key) {
                let text = glossary_applied(restore_spec(cache[key], protect_spec(e.text).1), gv);
                Planned {
                    events: p.events.update(i, EventView { text, ..e }),
                    cached: p.cached + 1,
                    ..p
                }
            } else {
                Planned {
                    pending: p.pending.push(
                        PendingView {
                            index: i,
                            protected: protect_spec(e.text).0,
                            table: protect_spec(e.text).1,
                            key,
                        },
                    ),
                    ..p
                }
            }
        }
    }
}

proof fn lemma_plan_shape(
    evs: Seq<EventView>,
    k: nat,
    cache: Map<Seq<char>, Seq<char>>,
    j: Job,
    gv: Seq<((Seq<char>, bool), Seq<char>)>,
    tk: bool,
)
    requires
        k <= evs.len(),
    ensures
        plan(evs, k, cache, j, gv, tk).events.len() == evs.len(),
        plan(evs, k, cache, j, gv, tk).cached + plan(evs, k, cache, j, gv, tk).skipped
            + plan(evs, k, cache, j, gv, tk).pending.len() == k,
        forall|m: int|
            0 <= m < plan(evs, k, cache, j, gv, tk).pending.len() ==> 0 <= (#[trigger] plan(
                evs,
                k,
                cache,
                j,
                gv,
                tk,
            ).pending[m]).index < k,
    decreases k,
{
    if k > 0 {
        lemma_plan_shape(evs, (k - 1) as nat, cache, j, gv, tk);
    }
}

/// Starts translating `events`: skips karaoke/effect lines (unless
/// asked), fills cache hits in place and returns the misses to send to
/// the engine, in order.
pub fn begin_translation(
    events: &mut Vec<Event>,
    cache: &Cache,
    engine: &str,
    model: &str,
    opts: &PipeOpts,
) -> (r: (TranslateStats, Vec<Pending>))
    requires
        cache.wf(),
    ensures
        ({
            let p = plan(
                events_view(old(events)@),
                old(events)@.len(),
                cache@,
                Job { engine: engine@, model: model@, from: opts.pair.from@, to: opts.pair.to@ },
                compiled_view(opts.glossary_re@),
                opts.translate_karaoke,
            );
            &&& events_view(final(events)@) == p.events
            &&& pendings_view(r.1@) == p.pending
            &&& r.0 == TranslateStats {
                total: old(events)@.len() as usize,
                fresh: 0,
                cached: p.cached as usize,
                skipped: p.skipped as usize,
            }
        }),
{
    let ghost evs = events_view(events@);
    let ghost job = Job { engine: engine@, model: model@, from: opts.pair.from@, to: opts.pair.to@ };
    let ghost gv = compiled_view(opts.glossary_re@);
    let tk = opts.translate_karaoke;
    let n = events.len();
    let karaoke = chars_of("karaoke");
    let mut pending: Vec<Pending> = Vec::new();
    let mut cached: usize = 0;
    let mut skipped: usize = 0;
    let mut i: usize = 0;
    while i < n
        invariant
            i <= n == events@.len() == evs.len(),
            karaoke@ == "karaoke"@,
            cache.wf(),
            tk == opts.translate_karaoke,
            gv == compiled_view(opts.glossary_re@),
            job == (Job { engine: engine@, model: model@, from: opts.pair.from@, to: opts.pair.to@ }),
            ({
                let p = plan(evs, i as nat, cache@, job, gv, tk);
                &&& events_view(events@) == p.events
                &&& pendings_view(pending@) == p.pending
                &&& cached == p.cached
                &&& skipped == p.skipped
            }),
        decreases n - i,
    {
        proof {
            lemma_plan_shape(evs, i as nat, cache@, job, gv, tk);
            lemma_plan_shape(evs, (i + 1) as nat, cache@, job, gv, tk);
        }
        let ghost p = plan(evs, i as nat, cache@, job, gv, tk);
        assert(events@[i as int]@ == evs[i as int]) by {
            assert(events_view(events@)[i as int] == p.events[i as int]);
            lemma_plan_unchanged(evs, i as nat, cache@, job, gv, tk, i as int);
        }
        let style = chars_of(events[i].style.as_str());
        let effect = chars_of(events[i].effect.as_str());
        let (a, b) = trim_bounds(&effect);
        let skip = !tk && (eq_ignore_ascii_case_chars(&style, &karaoke) || a < b);
        if skip {
            skipped = skipped + 1;
        } else {
            let (protected, table) = protect(events[i].text.as_str());
            let key = Cache::key(engine, model, opts.pair.from.as_str(), opts.pair.to.as_str(), protected.as_str());
            match cache.get(key.as_str()) {
                Some(hit) => {
                    let restored = restore(hit.as_str(), table.as_slice());
                    let text = apply_glossary(restored.as_str(), opts.glossary_re.as_slice());
                    let mut ev = events[i].duplicate();
                    ev.text = text;
                    let ghost before = events@;
                    events.set(i, ev);
                    assert(events_view(events@) =~= events_view(before).update(i as int, ev@));
                    cached = cached + 1;
                },
                None => {
                    let ghost before = pending@;
                    pending.push(Pending { index: i, protected, table, key });
                    assert(pendings_view(pending@) =~= pendings_view(before).push(pending@.last()@));
                },
            }
        }
        i = i + 1;
    }
    (TranslateStats { total: n, fresh: 0, cached, skipped }, pending)
}

proof fn lemma_plan_unchanged(
    evs: Seq<EventView>,
    k: nat,
    cache: Map<Seq<char>, Seq<char>>,
    j: Job,
    gv: Seq<((Seq<char>, bool), Seq<char>)>,
    tk: bool,
    m: int,
)
    requires
        k <= m < evs.len(),
    ensures
        plan(evs, k, cache, j, gv, tk).events[m] == evs[m],
    decreases k,
{
    if k > 0 {
        lemma_plan_unchanged(evs, (k - 1) as nat, cache, j, gv, tk, m);
        lemma_plan_shape(evs, (k - 1) as nat, cache, j, gv, tk);
    }
}

/// State after using the first `m` engine replies.
pub open spec fn finished(
    evs: Seq<EventView>,
    cache: Map<Seq<char>, Seq<char>>,
    pend: Seq<PendingView>,
    outs: Seq<Seq<char>>,
    gv: Seq<((Seq<char>, bool), Seq<char>)>,
    m: nat,
) -> (Seq<EventView>, Map<Seq<char>, Seq<char>>)
    decreases m,
{
    if m == 0 {
        (evs, cache)
    } else {
        let prev = finished(evs, cache, pend, outs, gv, (m - 1) as nat);
        let p = pend[m - 1];
        let raw = restore_spec(outs[m - 1], p.table);
        (
            prev.0.update(p.index, EventView { text: glossary_applied(raw, gv), ..prev.0[p.index] }),
            prev.1.insert(p.key, raw),
        )
    }
}

/// Finishes the translation with the engine's replies `outs` (one per
/// pending event, in order; extra items on either side are ignored):
/// each reply has its placeholders restored, is cached raw, and lands in
/// its event with the glossary applied.
pub fn finish_translation(
    events: &mut Vec<Event>,
    cache: &mut Cache,
    pending: &[Pending],
    outs: &[String],
    glossary_re: &[(Pattern, String)],
    stats: TranslateStats,
) -> (r: TranslateStats)
    requires
        old(cache).wf(),
        forall|m: int| 0 <= m < pending@.len() ==> (#[trigger] pending@[m]).index < old(events)@.len(),
        stats.fresh + pending@.len() <= usize::MAX,
    ensures
        final(cache).wf(),
        final(cache).path_view() == old(cache).path_view(),
        ({
            let m = if pending@.len() <= outs@.len() {
                pending@.len()
            } else {
                outs@.len()
            };
            let f = finished(
                events_view(old(events)@),
                old(cache)@,
                pendings_view(pending@),
                strs(outs@),
                compiled_view(glossary_re@),
                m,
            );
            &&& events_view(final(events)@) == f.0
            &&& final(cache)@ == f.1
            &&& r == TranslateStats { fresh: (stats.fresh + m) as usize, ..stats }
        }),
{
    let ghost evs = events_view(events@);
    let ghost c0 = cache@;
    let ghost pv = pendings_view(pending@);
    let ghost ov = strs(outs@);
    let ghost gv = compiled_view(glossary_re@);
    let m = if pending.len() <= outs.len() {
        pending.len()
    } else {
        outs.len()
    };
    let mut st = stats;
    let mut j: usize = 0;
    while j < m
        invariant
            j <= m <= pending@.len(),
            m <= outs@.len(),
            pv == pendings_view(pending@),
            ov == strs(outs@),
            gv == compiled_view(glossary_re@),
            cache.wf(),
            cache.path_view() == old(cache).path_view(),
            events@.len() == evs.len(),
            forall|q: int| 0 <= q < pending@.len() ==> (#[trigger] pending@[q]).index < evs.len(),
            stats.fresh + pending@.len() <= usize::MAX,
            events_view(events@) == finished(evs, c0, pv, ov, gv, j as nat).0,
            cache@ == finished(evs, c0, pv, ov, gv, j as nat).1,
            st == (TranslateStats { fresh: (stats.fresh + j) as usize, ..stats }),
        decreases m - j,
    {
        let p = &pending[j];
        let idx = p.index;
        let restored = restore(outs[j].as_str(), p.table.as_slice());
        cache.put(p.key.clone(), restored.clone());
        let text = apply_glossary(restored.as_str(), glossary_re);
        let mut ev = events[idx].duplicate();
        ev.text = text;
        let ghost before = events@;
        events.set(idx, ev);
        assert(events_view(events@) =~= events_view(before).update(idx as int, ev@));
        st.fresh = st.fresh + 1;
        j = j + 1;
    }
    st
}

proof fn lemma_finished_keys(
    evs: Seq<EventView>,
    cache: Map<Seq<char>, Seq<char>>,
    pend: Seq<PendingView>,
    outs: Seq<Seq<char>>,
    gv: Seq<((Seq<char>, bool), Seq<char>)>,
    m: nat,
)
    requires
        m <= pend.len(),
    ensures
        forall|key: Seq<char>|
            cache.dom().contains(key) ==> #[trigger] finished(evs, cache, pend, outs, gv, m).1.dom().contains(key),
        forall|q: int|
            0 <= q < m ==> finished(evs, cache, pend, outs, gv, m).1.dom().contains(
                (#[trigger] pend[q]).key,
            ),
    decreases m,
{
    if m > 0 {
        lemma_finished_keys(evs, cache, pend, outs, gv, (m - 1) as nat);
        let prev = finished(evs, cache, pend, outs, gv, (m - 1) as nat).1;
        let cur = finished(evs, cache, pend, outs, gv, m).1;
        assert forall|key: Seq<char>| cache.dom().contains(key) implies #[trigger] cur.dom().contains(key) by {
            assert(prev.dom().contains(key));
        }
        assert forall|q: int| 0 <= q < m implies cur.dom().contains((#[trigger] pend[q]).key) by {
            if q < m - 1 {
                assert(prev.dom().contains(pend[q].key));
            }
        }
    }
}

proof fn lemma_plan_pending_keys(
    evs: Seq<EventView>,
    k: nat,
    cache: Map<Seq<char>, Seq<char>>,
    j: Job,
    gv: Seq<((Seq<char>, bool), Seq<char>)>,
    tk: bool,
    i: int,
)
    requires
        0 <= i < k <= evs.len(),
        !skipped_spec(evs[i], tk),
        !cache.dom().contains(event_key(evs[i], j)),
    ensures
        exists|q: int|
            0 <= q < plan(evs, k, cache, j, gv, tk).pending.len() && (#[trigger] plan(
                evs,
                k,
                cache,
                j,
                gv,
                tk,
            ).pending[q]).key == event_key(evs[i], j),
    decreases k,
{
    let p = plan(evs, (k - 1) as nat, cache, j, gv, tk);
    if i < k - 1 {
        lemma_plan_pending_keys(evs, (k - 1) as nat, cache, j, gv, tk, i);
        let q = choose|q: int| 0 <= q < p.pending.len() && (#[trigger] p.pending[q]).key == event_key(evs[i], j);
        assert(plan(evs, k, cache, j, gv, tk).pending[q] == p.pending[q]);
    } else {
        let q = p.pending.len() as int;
        assert(plan(evs, k, cache, j, gv, tk).pending[q].key == event_key(evs[i], j));
    }
}

proof fn lemma_plan_no_pending(
    evs: Seq<EventView>,
    k: nat,
    cache: Map<Seq<char>, Seq<char>>,
    j: Job,
    gv: Seq<((Seq<char>, bool), Seq<char>)>,
    tk: bool,
)
    requires
        k <= evs.len(),
        forall|i: int|
            0 <= i < k && !skipped_spec(evs[i], tk) ==> cache.dom().contains(
                #[trigger] event_key(evs[i], j),
            ),
    ensures
        plan(evs, k, cache, j, gv, tk).pending.len() == 0,
    decreases k,
{
    if k > 0 {
        lemma_plan_no_pending(evs, (k - 1) as nat, cache, j, gv, tk);
        let i = k - 1;
        if !skipped_spec(evs[i], tk) {
            assert(cache.dom().contains(event_key(evs[i], j)));
        }
    }
}

proof fn lemma_plan_skipped(
    evs: Seq<EventView>,
    k: nat,
    cache: Map<Seq<char>, Seq<char>>,
    j: Job,
    gv: Seq<((Seq<char>, bool), Seq<char>)>,
    tk: bool,
    i: int,
)
    requires
        k <= evs.len(),
        0 <= i < evs.len(),
        skipped_spec(evs[i], tk),
    ensures
        plan(evs, k, cache, j, gv, tk).events[i] == evs[i],
        forall|m: int|
            0 <= m < plan(evs, k, cache, j, gv, tk).pending.len() ==> (#[trigger] plan(
                evs,
                k,
                cache,
                j,
                gv,
                tk,
            ).pending[m]).index != i,
    decreases k,
{
    if k > 0 {
        lemma_plan_skipped(evs, (k - 1) as nat, cache, j, gv, tk, i);
        lemma_plan_shape(evs, (k - 1) as nat, cache, j, gv, tk);
        if i >= k {
            lemma_plan_unchanged(evs, k, cache, j, gv, tk, i);
        }
    }
}

proof fn lemma_finished_untouched(
    evs: Seq<EventView>,
    cache: Map<Seq<char>, Seq<char>>,
    pend: Seq<PendingView>,
    outs: Seq<Seq<char>>,
    gv: Seq<((Seq<char>, bool), Seq<char>)>,
    m: nat,
    i: int,
)
    requires
        m <= pend.len(),
        0 <= i < evs.len(),
        forall|q: int| 0 <= q < pend.len() ==> 0 <= (#[trigger] pend[q]).index < evs.len(),
        forall|q: int| 0 <= q < pend.len() ==> (#[trigger] pend[q]).index != i,
    ensures
        finished(evs, cache, pend, outs, gv, m).0.len() == evs.len(),
        finished(evs, cache, pend, outs, gv, m).0[i] == evs[i],
    decreases m,
{
    if m > 0 {
        lemma_finished_untouched(evs, cache, pend, outs, gv, (m - 1) as nat, i);
        assert(pend[m - 1].index != i);
    }
}

/// Karaoke and effect lines are left alone unless asked for: such a line
/// is never sent to the engine, and it comes out of a run unchanged
/// whatever the cache holds and whatever the engine replies.
#[verifier::spinoff_prover]
pub proof fn law_skipped_lines_untouched(
    evs: Seq<EventView>,
    cache: Map<Seq<char>, Seq<char>>,
    j: Job,
    gv: Seq<((Seq<char>, bool), Seq<char>)>,
    tk: bool,
    outs: Seq<Seq<char>>,
    i: int,
)
    requires
        0 <= i < evs.len(),
        skipped_spec(evs[i], tk),
    ensures
        ({
            let p = plan(evs, evs.len(), cache, j, gv, tk);
            let m = if p.pending.len() <= outs.len() {
                p.pending.len()
            } else {
                outs.len()
            };
            &&& forall|q: int| 0 <= q < p.pending.len() ==> (#[trigger] p.pending[q]).index != i
            &&& p.events[i] == evs[i]
            &&& finished(p.events, cache, p.pending, outs, gv, m).0[i] == evs[i]
        }),
{
    let p = plan(evs, evs.len(), cache, j, gv, tk);
    lemma_plan_skipped(evs, evs.len(), cache, j, gv, tk, i);
    lemma_plan_shape(evs, evs.len(), cache, j, gv, tk);
    let m = if p.pending.len() <= outs.len() {
        p.pending.len()
    } else {
        outs.len()
    };
    let pe = p.events;
    let pp = p.pending;
    assert(pe.len() == evs.len());
    assert(forall|q: int| 0 <= q < pp.len() ==> 0 <= (#[trigger] pp[q]).index < pe.len());
    assert(forall|q: int| 0 <= q < pp.len() ==> (#[trigger] pp[q]).index != i);
    lemma_finished_untouched(pe, cache, pp, outs, gv, m, i);
}

/// A finished run never pays twice: once every miss has been answered
/// and cached, planning the same events again with the updated cache
/// leaves nothing to send to the engine.
pub proof fn law_second_run_all_cached(
    evs: Seq<EventView>,
    cache: Map<Seq<char>, Seq<char>>,
    j: Job,
    gv: Seq<((Seq<char>, bool), Seq<char>)>,
    tk: bool,
    outs: Seq<Seq<char>>,
)
    requires
        outs.len() >= plan(evs, evs.len(), cache, j, gv, tk).pending.len(),
    ensures
        plan(
            evs,
            evs.len(),
            finished(
                plan(evs, evs.len(), cache, j, gv, tk).events,
                cache,
                plan(evs, evs.len(), cache, j, gv, tk).pending,
                outs,
                gv,
                plan(evs, evs.len(), cache, j, gv, tk).pending.len(),
            ).1,
            j,
            gv,
            tk,
        ).pending.len() == 0,
{
    let p = plan(evs, evs.len(), cache, j, gv, tk);
    let m = p.pending.len();
    let c2 = finished(p.events, cache, p.pending, outs, gv, m).1;
    lemma_finished_keys(p.events, cache, p.pending, outs, gv, m);
    assert forall|i: int|
        0 <= i < evs.len() && !skipped_spec(evs[i], tk) implies c2.dom().contains(
        #[trigger] event_key(evs[i], j),
    ) by {
        if !cache.dom().contains(event_key(evs[i], j)) {
            lemma_plan_pending_keys(evs, evs.len(), cache, j, gv, tk, i);
            let q = choose|q: int| 0 <= q < p.pending.len() && (#[trigger] p.pending[q]).key == event_key(evs[i], j);
            assert(c2.dom().contains(p.pending[q].key));
        }
    }
    lemma_plan_no_pending(evs, evs.len(), c2, j, gv, tk);
}

/// The cache holds raw replies and the glossary is applied afterwards, so
/// editing the glossary changes no cache key and sends nothing new to the
/// engine: the misses, hits and skips of a plan do not depend on it.
pub proof fn law_glossary_edits_need_no_calls(
    evs: Seq<EventView>,
    k: nat,
    cache: Map<Seq<char>, Seq<char>>,
    j: Job,
    gv1: Seq<((Seq<char>, bool), Seq<char>)>,
    gv2: Seq<((Seq<char>, bool), Seq<char>)>,
    tk: bool,
)
    ensures
        plan(evs, k, cache, j, gv1, tk).pending == plan(evs, k, cache, j, gv2, tk).pending,
        plan(evs, k, cache, j, gv1, tk).cached == plan(evs, k, cache, j, gv2, tk).cached,
        plan(evs, k, cache, j, gv1, tk).skipped == plan(evs, k, cache, j, gv2, tk).skipped,
    decreases k,
{
    if k > 0 {
        law_glossary_edits_need_no_calls(evs, (k - 1) as nat, cache, j, gv1, gv2, tk);
    }
}

/// Lines per request when none is asked for: 10 for the AI engine, 20
/// otherwise.
pub fn batch_size(requested: Option<usize>, engine: &str) -> (r: usize)
    ensures
        r == match requested {
            Some(n) => n as int,
            None => if engine@ == "ai"@ {
                10int
            } else {
                20int
            },
        },
{
    match requested {
        Some(n) => n,
        None => if chars_eq(&chars_of(engine), &chars_of("ai")) {
            10
        } else {
            20
        },
    }
}

/// Size estimate of a dry run.
#[derive(Debug, Clone, Copy, PartialEq, Eq, Structural)]
pub struct Estimate {
    pub events: usize,
    pub chars: usize,
    /// About four characters per token.
    pub tokens: usize,
    pub requests: usize,
}

/// Characters of the texts of `evs`.
pub open spec fn text_chars(evs: Seq<EventView>) -> nat
    decreases evs.len(),
{
    if evs.len() == 0 {
        0
    } else {
        text_chars(evs.drop_last()) + evs.last().text.len()
    }
}

pub open spec fn files_view(fs: Seq<SubFile>) -> Seq<SubFileView> {
    fs.map_values(|f: SubFile| f@)
}

/// Events over all files.
pub open spec fn files_events(fs: Seq<SubFileView>) -> nat
    decreases fs.len(),
{
    if fs.len() == 0 {
        0
    } else {
        files_events(fs.drop_last()) + fs.last().events.len()
    }
}

/// Text characters over all files.
pub open spec fn files_chars(fs: Seq<SubFileView>) -> nat
    decreases fs.len(),
{
    if fs.len() == 0 {
        0
    } else {
        files_chars(fs.drop_last()) + text_chars(fs.last().events)
    }
}

/// Requests for `events` lines in batches of `batch`: the batches needed
/// to hold them all, and at least one.
pub open spec fn requests_for(events: nat, batch: nat) -> nat
    recommends
        batch >= 1,
{
    let n = events / batch + if events % batch != 0 {
        1nat
    } else {
        0nat
    };
    if n == 0 {
        1
    } else {
        n
    }
}

proof fn lemma_text_chars_prefix(evs: Seq<EventView>, j: int)
    requires
        0 <= j <= evs.len(),
    ensures
        text_chars(evs.take(j)) <= text_chars(evs),
    decreases evs.len() - j,
{
    if j < evs.len() {
        lemma_text_chars_prefix(evs, j + 1);
        assert(evs.take(j + 1).drop_last() =~= evs.take(j));
    } else {
        assert(evs.take(j) =~= evs);
    }
}

proof fn lemma_files_prefix(fs: Seq<SubFileView>, i: int)
    requires
        0 <= i <= fs.len(),
    ensures
        files_events(fs.take(i)) <= files_events(fs),
        files_chars(fs.take(i)) <= files_chars(fs),
    decreases fs.len() - i,
{
    if i < fs.len() {
        lemma_files_prefix(fs, i + 1);
        assert(fs.take(i + 1).drop_last() =~= fs.take(i));
    } else {
        assert(fs.take(i) =~= fs);
    }
}

/// The dry-run estimate of translating `files` in batches of `batch`.
pub fn dry_run_estimate(files: &[SubFile], batch: usize) -> (r: Estimate)
    requires
        batch >= 1,
        files_events(files_view(files@)) <= usize::MAX,
        files_chars(files_view(files@)) <= usize::MAX,
    ensures
        r.events == files_events(files_view(files@)),
        r.chars == files_chars(files_view(files@)),
        r.tokens == r.chars / 4,
        r.requests == requests_for(r.events as nat, batch as nat),
{
    let ghost fs = files_view(files@);
    let mut events: usize = 0;
    let mut chars: usize = 0;
    let mut i: usize = 0;
    while i < files.len()
        invariant
            i <= files@.len(),
            fs == files_view(files@),
            files_events(fs) <= usize::MAX,
            files_chars(fs) <= usize::MAX,
            events == files_events(fs.take(i as int)),
            chars == files_chars(fs.take(i as int)),
        decreases files@.len() - i,
    {
        let evs = &files[i].events;
        let ghost ev = events_view(evs@);
        assert(fs.take(i + 1).drop_last() =~= fs.take(i as int));
        assert(fs.take(i + 1).last() == files@[i as int]@);
        proof {
            lemma_files_prefix(fs, i + 1);
        }
        events = events + evs.len();
        let mut j: usize = 0;
        while j < evs.len()
            invariant
                j <= evs@.len(),
                ev == events_view(evs@),
                chars == files_chars(fs.take(i as int)) + text_chars(ev.take(j as int)),
                files_chars(fs.take(i as int)) + text_chars(ev) <= usize::MAX,
            decreases evs@.len() - j,
        {
            proof {
                lemma_text_chars_prefix(ev, j + 1);
                assert(ev.take(j + 1).drop_last() =~= ev.take(j as int));
            }
            let n = chars_of(evs[j].text.as_str()).len();
            chars = chars + n;
            j = j + 1;
        }
        assert(ev.take(j as int) =~= ev);
        i = i + 1;
    }
    assert(fs.take(i as int) =~= fs);
    let b = batch;
    let mut n: usize = events / b;
    if events % b != 0 {
        proof {
            assert(events / b < events) by (nonlinear_arith)
                requires
                    b >= 1,
                    events % b != 0,
            ;
        }
        n = n + 1;
    }
    if n == 0 {
        n = 1;
    }
    Estimate { events, chars, tokens: chars / 4, requests: n }
}

} // verus!
