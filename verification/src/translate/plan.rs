//! Decisions of the translation engines: batching with context windows,
//! API key resolution, retry pacing and reply status handling.
use vstd::prelude::*;
use crate::text::{
    ascii_lowercase_known, chars_of, contains_seq, copy_range, find_pattern, is_blank, is_ws_char, lowercase_spec,
    string_of, str_to_string, to_lowercase,
};
use crate::translate::prompt::strs;
use vstd::arithmetic::power2::{lemma_pow2, lemma_pow2_strictly_increases, lemma_pow2_unfold, pow2};
use vstd::arithmetic::mul::lemma_mul_inequality;

verus! {

/// One batch for the AI engine: the lines to translate and the context
/// lines before and after them.
pub struct Chunk {
    pub targets: Vec<String>,
    pub before: Vec<String>,
    pub after: Vec<String>,
}

/// Batch bounds `(start, end, context_from, context_to)` from `start` on,
/// `b` lines per batch and `c` context lines on each side.
pub open spec fn chunk_bounds(start: nat, n: nat, b: nat, c: nat) -> Seq<(nat, nat, nat, nat)>
    decreases n - start,
{
    if b == 0 || start >= n {
        seq![]
    } else {
        let end: nat = if start + b <= n {
            start + b
        } else {
            n
        };
        let from: nat = if start >= c {
            (start - c) as nat
        } else {
            0
        };
        let to: nat = if end + c <= n {
            end + c
        } else {
            n
        };
        seq![(start, end, from, to)] + chunk_bounds(end, n, b, c)
    }
}

/// A chunk's three parts as character sequences.
pub open spec fn chunk_view(ch: Chunk) -> (Seq<Seq<char>>, Seq<Seq<char>>, Seq<Seq<char>>) {
    (strs(ch.targets@), strs(ch.before@), strs(ch.after@))
}

/// The chunk the bounds `bd` cut from `t`.
pub open spec fn cut(t: Seq<Seq<char>>, bd: (nat, nat, nat, nat)) -> (
    Seq<Seq<char>>,
    Seq<Seq<char>>,
    Seq<Seq<char>>,
) {
    (
        t.subrange(bd.0 as int, bd.1 as int),
        t.subrange(bd.2 as int, bd.0 as int),
        t.subrange(bd.1 as int, bd.3 as int),
    )
}

proof fn lemma_bounds_valid(start: nat, n: nat, b: nat, c: nat)
    ensures
        forall|i: int|
            0 <= i < chunk_bounds(start, n, b, c).len() ==> {
                let bd = #[trigger] chunk_bounds(start, n, b, c)[i];
                &&& start <= bd.2 + c
                &&& bd.2 <= bd.0 < bd.1 <= bd.3 <= n
                &&& bd.0 >= start
            },
    decreases n - start,
{
    if b == 0 || start >= n {
    } else {
        let end: nat = if start + b <= n {
            start + b
        } else {
            n
        };
        lemma_bounds_valid(end, n, b, c);
        let s = chunk_bounds(start, n, b, c);
        assert forall|i: int| 0 <= i < s.len() implies {
            let bd = #[trigger] s[i];
            &&& start <= bd.2 + c
            &&& bd.2 <= bd.0 < bd.1 <= bd.3 <= n
            &&& bd.0 >= start
        } by {
            if i > 0 {
                assert(s[i] == chunk_bounds(end, n, b, c)[i - 1]);
            }
        }
    }
}

/// Cuts `texts` into batches of `batch_size` lines, each with up to
/// `context` lines of context on either side (only targets are
/// translated).
pub fn chunk_texts(texts: &[String], batch_size: usize, context: usize) -> (r: Vec<Chunk>)
    requires
        batch_size >= 1,
    ensures
        r@.len() == chunk_bounds(0, texts@.len(), batch_size as nat, context as nat).len(),
        forall|i: int|
            0 <= i < r@.len() ==> chunk_view(#[trigger] r@[i]) == cut(
                strs(texts@),
                chunk_bounds(0, texts@.len(), batch_size as nat, context as nat)[i],
            ),
{
    let n = texts.len();
    let ghost t = strs(texts@);
    let ghost all = chunk_bounds(0, n as nat, batch_size as nat, context as nat);
    let mut out: Vec<Chunk> = Vec::new();
    let mut start: usize = 0;
    proof {
        lemma_bounds_valid(0, n as nat, batch_size as nat, context as nat);
    }
    while start < n
        invariant
            start <= n == texts@.len(),
            batch_size >= 1,
            t == strs(texts@),
            all == chunk_bounds(0, n as nat, batch_size as nat, context as nat),
            all == all.take(out@.len() as int) + chunk_bounds(
                start as nat,
                n as nat,
                batch_size as nat,
                context as nat,
            ),
            out@.len() <= all.len(),
            forall|i: int|
                0 <= i < out@.len() ==> chunk_view(#[trigger] out@[i]) == cut(t, all[i]),
        decreases n - start,
    {
        let end = if batch_size <= n - start {
            start + batch_size
        } else {
            n
        };
        let from = if start >= context {
            start - context
        } else {
            0
        };
        let to = if context <= n - end {
            end + context
        } else {
            n
        };
        let ghost bd = (start as nat, end as nat, from as nat, to as nat);
        let ghost rest = chunk_bounds(end as nat, n as nat, batch_size as nat, context as nat);
        assert(chunk_bounds(start as nat, n as nat, batch_size as nat, context as nat) == seq![bd]
            + rest);
        let targets = copy_strings(texts, start, end);
        let before = copy_strings(texts, from, start);
        let after = copy_strings(texts, end, to);
        let ghost prev = out@;
        out.push(Chunk { targets, before, after });
        proof {
            assert(all[prev.len() as int] == bd);
            assert(all.take(out@.len() as int) =~= all.take(prev.len() as int).push(bd));
            assert(all =~= all.take(out@.len() as int) + rest);
            assert forall|i: int| 0 <= i < out@.len() implies chunk_view(#[trigger] out@[i]) == cut(
                t,
                all[i],
            ) by {
                if i < prev.len() {
                    assert(out@[i] == prev[i]);
                }
            }
        }
        start = end;
    }
    assert(chunk_bounds(start as nat, n as nat, batch_size as nat, context as nat) =~= Seq::<
        (nat, nat, nat, nat),
    >::empty());
    assert(all.take(out@.len() as int) =~= all);
    out
}

fn copy_strings(v: &[String], a: usize, b: usize) -> (r: Vec<String>)
    requires
        a <= b <= v@.len(),
    ensures
        strs(r@) == strs(v@).subrange(a as int, b as int),
{
    let mut r: Vec<String> = Vec::new();
    let mut i = a;
    while i < b
        invariant
            a <= i <= b <= v@.len(),
            strs(r@) == strs(v@).subrange(a as int, i as int),
        decreases b - i,
    {
        let ghost prev = r@;
        r.push(v[i].clone());
        assert(strs(r@) =~= strs(prev).push(v@[i as int]@));
        assert(strs(v@).subrange(a as int, i + 1) =~= strs(v@).subrange(a as int, i as int).push(
            v@[i as int]@,
        ));
        i = i + 1;
    }
    r
}

/// All parts laid end to end.
pub open spec fn flat(parts: Seq<Seq<Seq<char>>>) -> Seq<Seq<char>>
    decreases parts.len(),
{
    if parts.len() == 0 {
        seq![]
    } else {
        parts[0] + flat(parts.drop_first())
    }
}

/// The targets of the batches from `start` on.
pub open spec fn targets_from(t: Seq<Seq<char>>, start: nat, b: nat, c: nat) -> Seq<Seq<Seq<char>>> {
    chunk_bounds(start, t.len(), b, c).map_values(
        |bd: (nat, nat, nat, nat)| t.subrange(bd.0 as int, bd.1 as int),
    )
}

proof fn lemma_targets_cover(t: Seq<Seq<char>>, start: nat, b: nat, c: nat)
    requires
        b >= 1,
        start <= t.len(),
    ensures
        flat(targets_from(t, start, b, c)) == t.subrange(start as int, t.len() as int),
    decreases t.len() - start,
{
    let n = t.len();
    if start >= n {
        assert(targets_from(t, start, b, c) =~= Seq::<Seq<Seq<char>>>::empty());
        assert(t.subrange(start as int, n as int) =~= Seq::<Seq<char>>::empty());
    } else {
        let end: nat = if start + b <= n {
            start + b
        } else {
            n
        };
        lemma_targets_cover(t, end, b, c);
        let ts = targets_from(t, start, b, c);
        assert(ts.drop_first() =~= targets_from(t, end, b, c));
        assert(ts[0] == t.subrange(start as int, end as int));
        assert(t.subrange(start as int, n as int) =~= t.subrange(start as int, end as int)
            + t.subrange(end as int, n as int));
    }
}

/// Batching loses and repeats nothing: the targets of all batches, in
/// order, are exactly the input lines.
pub proof fn law_chunks_cover(t: Seq<Seq<char>>, b: nat, c: nat)
    requires
        b >= 1,
    ensures
        flat(targets_from(t, 0, b, c)) == t,
{
    lemma_targets_cover(t, 0, b, c);
    assert(t.subrange(0, t.len() as int) =~= t);
}

/// Batch results laid end to end in batch order.
pub fn concat_parts(parts: Vec<Vec<String>>) -> (r: Vec<String>)
    ensures
        strs(r@) == flat(parts@.map_values(|p: Vec<String>| strs(p@))),
{
    let ghost pv = parts@.map_values(|p: Vec<String>| strs(p@));
    let mut out: Vec<String> = Vec::new();
    let mut j: usize = 0;
    while j < parts.len()
        invariant
            j <= parts@.len(),
            pv == parts@.map_values(|p: Vec<String>| strs(p@)),
            strs(out@) == flat(pv.take(j as int)),
        decreases parts@.len() - j,
    {
        proof {
            lemma_flat_push(pv.take(j as int), pv[j as int]);
            assert(pv.take(j + 1) =~= pv.take(j as int).push(pv[j as int]));
        }
        let mut i: usize = 0;
        let ghost start = out@;
        while i < parts[j].len()
            invariant
                j < parts@.len(),
                i <= parts@[j as int]@.len(),
                pv == parts@.map_values(|p: Vec<String>| strs(p@)),
                strs(out@) == strs(start) + pv[j as int].take(i as int),
            decreases parts@[j as int]@.len() - i,
        {
            let ghost prev = out@;
            out.push(parts[j][i].clone());
            assert(strs(out@) =~= strs(prev).push(parts@[j as int]@[i as int]@));
            assert(pv[j as int].take(i + 1) =~= pv[j as int].take(i as int).push(
                parts@[j as int]@[i as int]@,
            ));
            i = i + 1;
        }
        assert(pv[j as int].take(i as int) =~= pv[j as int]);
        j = j + 1;
    }
    assert(pv.take(parts@.len() as int) =~= pv);
    out
}

proof fn lemma_flat_push(ps: Seq<Seq<Seq<char>>>, x: Seq<Seq<char>>)
    ensures
        flat(ps.push(x)) == flat(ps) + x,
    decreases ps.len(),
{
    if ps.len() == 0 {
        assert(ps.push(x).drop_first() =~= Seq::<Seq<Seq<char>>>::empty());
        assert(flat(ps.push(x).drop_first()) =~= Seq::<Seq<char>>::empty());
        assert(ps.push(x)[0] == x);
        assert(flat(ps.push(x)) =~= x);
    } else {
        assert(ps.push(x).drop_first() =~= ps.drop_first().push(x));
        lemma_flat_push(ps.drop_first(), x);
    }
}

fn has(s: &[char], p: &str) -> (b: bool)
    requires
        p@.len() > 0,
    ensures
        b == contains_seq(s@, p@),
{
    let pv = chars_of(p);
    find_pattern(s, &pv).is_some()
}

/// The environment variables a provider's key is looked up in, by the
/// lower-cased base URL.
pub open spec fn provider_key_names(lower: Seq<char>) -> Seq<Seq<char>> {
    if contains_seq(lower, "openrouter"@) {
        seq!["OPENROUTER_API_KEY"@]
    } else if contains_seq(lower, "deepseek"@) {
        seq!["DEEPSEEK_API_KEY"@]
    } else if contains_seq(lower, "google"@) || contains_seq(lower, "gemini"@) {
        seq!["GEMINI_API_KEY"@, "GOOGLE_API_KEY"@]
    } else if contains_seq(lower, "openai"@) {
        seq!["OPENAI_API_KEY"@]
    } else {
        seq![]
    }
}

/// All variables consulted, in order: the provider's, then `SUBX_API_KEY`.
pub open spec fn key_names_spec(base_url: Seq<char>) -> Seq<Seq<char>> {
    provider_key_names(lowercase_spec(base_url)).push("SUBX_API_KEY"@)
}

/// The environment variables to consult for an API key, in order.
pub fn key_env_names(base_url: &str) -> (r: Vec<&'static str>)
    ensures
        r@.map_values(|x: &'static str| x@) == key_names_spec(base_url@),
        ascii_lowercase_known(base_url@),
{
    proof {
        reveal_strlit("openrouter");
        reveal_strlit("deepseek");
        reveal_strlit("google");
        reveal_strlit("gemini");
        reveal_strlit("openai");
    }
    let b = chars_of(base_url);
    let lower = to_lowercase(&b);
    let mut r: Vec<&'static str> = if has(&lower, "openrouter") {
        vec!["OPENROUTER_API_KEY"]
    } else if has(&lower, "deepseek") {
        vec!["DEEPSEEK_API_KEY"]
    } else if has(&lower, "google") || has(&lower, "gemini") {
        vec!["GEMINI_API_KEY", "GOOGLE_API_KEY"]
    } else if has(&lower, "openai") {
        vec!["OPENAI_API_KEY"]
    } else {
        Vec::new()
    };
    r.push("SUBX_API_KEY");
    assert(r@.map_values(|x: &'static str| x@) =~= key_names_spec(base_url@));
    r
}

/// A local server (localhost, 127.0.0.1, [::1]) needs no key.
pub open spec fn is_local_spec(base_url: Seq<char>) -> bool {
    let lower = lowercase_spec(base_url);
    contains_seq(lower, "localhost"@) || contains_seq(lower, "127.0.0.1"@) || contains_seq(
        lower,
        "[::1]"@,
    )
}

pub fn is_local(base_url: &str) -> (b: bool)
    ensures
        b == is_local_spec(base_url@),
        ascii_lowercase_known(base_url@),
{
    proof {
        reveal_strlit("localhost");
        reveal_strlit("127.0.0.1");
        reveal_strlit("[::1]");
    }
    let v = chars_of(base_url);
    let lower = to_lowercase(&v);
    has(&lower, "localhost") || has(&lower, "127.0.0.1") || has(&lower, "[::1]")
}

/// Why no API key could be found.
#[derive(Debug, Clone, PartialEq, Eq)]
pub enum KeyError {
    /// No key was given; the named variable is the one to set.
    Missing(String),
}

/// A usable key: present and not blank.
pub open spec fn usable(k: Option<Seq<char>>) -> bool {
    k matches Some(v) && !is_blank(v)
}

pub open spec fn opt_view(o: Option<String>) -> Option<Seq<char>> {
    match o {
        Some(s) => Some(s@),
        None => None,
    }
}

/// Index of the first usable value, if any.
pub open spec fn first_usable(vals: Seq<Option<Seq<char>>>) -> Option<int>
    decreases vals.len(),
{
    if vals.len() == 0 {
        None
    } else if usable(vals[0]) {
        Some(0)
    } else {
        match first_usable(vals.drop_first()) {
            Some(i) => Some(i + 1),
            None => None,
        }
    }
}

proof fn lemma_first_usable(vals: Seq<Option<Seq<char>>>)
    ensures
        match first_usable(vals) {
            Some(i) => 0 <= i < vals.len() && usable(vals[i]) && forall|j: int|
                0 <= j < i ==> !usable(#[trigger] vals[j]),
            None => forall|j: int| 0 <= j < vals.len() ==> !usable(#[trigger] vals[j]),
        },
    decreases vals.len(),
{
    if vals.len() > 0 && !usable(vals[0]) {
        lemma_first_usable(vals.drop_first());
        assert forall|j: int| 1 <= j < vals.len() implies vals[j] == vals.drop_first()[j - 1] by {}
    }
}

/// The key outcome: the explicit key, else the first usable environment
/// value, else none for a local server, else the variable to set.
pub open spec fn resolve_spec(
    explicit: Option<Seq<char>>,
    env_values: Seq<Option<Seq<char>>>,
    config_key: Option<Seq<char>>,
    base_url: Seq<char>,
) -> Result<Option<Seq<char>>, Seq<char>> {
    if usable(explicit) {
        Ok(explicit)
    } else {
        match first_usable(env_values) {
            Some(i) => Ok(env_values[i]),
            None => if usable(config_key) {
                Ok(config_key)
            } else if is_local_spec(base_url) {
                Ok(None)
            } else {
                Err(key_names_spec(base_url)[0])
            },
        }
    }
}

/// Key resolution order: a usable `--api-key` wins; otherwise the first
/// usable environment value, provider variable first and `SUBX_API_KEY`
/// last; otherwise a usable `ai_api_key` from the config file; with none,
/// a local server needs no key, and any other service reports its provider
/// variable as missing.
pub proof fn law_key_resolution_order(
    explicit: Option<Seq<char>>,
    env_values: Seq<Option<Seq<char>>>,
    config_key: Option<Seq<char>>,
    base_url: Seq<char>,
    i: int,
)
    requires
        env_values.len() == key_names_spec(base_url).len(),
    ensures
        key_names_spec(base_url).last() == "SUBX_API_KEY"@,
        usable(explicit) ==> resolve_spec(explicit, env_values, config_key, base_url) == Ok::<
            Option<Seq<char>>,
            Seq<char>,
        >(explicit),
        !usable(explicit) && 0 <= i < env_values.len() && usable(env_values[i]) && (forall|j: int|
            0 <= j < i ==> !usable(#[trigger] env_values[j])) ==> resolve_spec(
            explicit,
            env_values,
            config_key,
            base_url,
        ) == Ok::<Option<Seq<char>>, Seq<char>>(env_values[i]),
        !usable(explicit) && (forall|j: int| 0 <= j < env_values.len() ==> !usable(#[trigger] env_values[j]))
            && usable(config_key) ==> resolve_spec(explicit, env_values, config_key, base_url)
            == Ok::<Option<Seq<char>>, Seq<char>>(config_key),
        !usable(explicit) && (forall|j: int| 0 <= j < env_values.len() ==> !usable(#[trigger] env_values[j]))
            && !usable(config_key) ==> resolve_spec(explicit, env_values, config_key, base_url) == (
        if is_local_spec(base_url) {
            Ok::<Option<Seq<char>>, Seq<char>>(None)
        } else {
            Err::<Option<Seq<char>>, Seq<char>>(key_names_spec(base_url)[0])
        }),
{
    lemma_first_usable(env_values);
    match first_usable(env_values) {
        Some(f) => {
            if !usable(explicit) && 0 <= i < env_values.len() && usable(env_values[i]) && (forall|j: int|
                0 <= j < i ==> !usable(#[trigger] env_values[j])) {
                if f < i {
                    assert(!usable(env_values[f]));
                } else if i < f {
                    assert(!usable(env_values[i]));
                }
            }
        },
        None => {},
    }
}

fn blank(s: &str) -> (b: bool)
    ensures
        b == is_blank(s@),
{
    let v = chars_of(s);
    crate::subs::is_blank_chars(&v)
}

/// Resolves the key: explicit flag, then the environment values read for
/// [`key_env_names`] (in that order), then the config file's key, and no
/// key for a local server.
pub fn resolve_api_key(
    explicit: Option<String>,
    env_values: &[Option<String>],
    config_key: Option<String>,
    base_url: &str,
) -> (r: Result<Option<String>, KeyError>)
    requires
        env_values@.len() == key_names_spec(base_url@).len(),
    ensures
        match resolve_spec(
            opt_view(explicit),
            env_values@.map_values(|o: Option<String>| opt_view(o)),
            opt_view(config_key),
            base_url@,
        ) {
            Ok(k) => r matches Ok(x) && opt_view(x) == k,
            Err(n) => r matches Err(KeyError::Missing(m)) && m@ == n,
        },
{
    let ghost ev = env_values@.map_values(|o: Option<String>| opt_view(o));
    if let Some(k) = &explicit {
        if !blank(k.as_str()) {
            return Ok(explicit);
        }
    }
    proof {
        lemma_first_usable(ev);
    }
    let mut i: usize = 0;
    while i < env_values.len()
        invariant
            i <= env_values@.len(),
            ev == env_values@.map_values(|o: Option<String>| opt_view(o)),
            !usable(opt_view(explicit)),
            forall|j: int| 0 <= j < i ==> !usable(#[trigger] ev[j]),
        decreases env_values@.len() - i,
    {
        if let Some(v) = &env_values[i] {
            if !blank(v.as_str()) {
                assert(usable(ev[i as int]));
                proof {
                    lemma_first_usable(ev);
                    match first_usable(ev) {
                        Some(j) => {
                            if j < i {
                                assert(!usable(ev[j]));
                            }
                            if j > i {
                                assert(!usable(ev[i as int]));
                            }
                        },
                        None => {
                            assert(!usable(ev[i as int]));
                        },
                    }
                }
                let out = v.clone();
                assert(opt_view(Some(out)) == ev[i as int]);
                return Ok(Some(out));
            }
        }
        assert(!usable(ev[i as int]));
        i = i + 1;
    }
    proof {
        lemma_first_usable(ev);
        match first_usable(ev) {
            Some(j) => {
                assert(!usable(ev[j]));
            },
            None => {},
        }
    }
    if let Some(k) = &config_key {
        if !blank(k.as_str()) {
            return Ok(config_key);
        }
    }
    if is_local(base_url) {
        return Ok(None);
    }
    let names = key_env_names(base_url);
    Err(KeyError::Missing(str_to_string(names[0])))
}

/// How a reply status is handled.
#[derive(Debug, Clone, Copy, PartialEq, Eq, Structural)]
pub enum StatusAction {
    /// The key was rejected: give up at once.
    Unauthorized,
    /// Rate limited or a server error: try again.
    Retry,
    /// Any other failure: give up with the status.
    Fail,
    /// Use the reply.
    Accept,
}

pub open spec fn status_action_spec(code: u16, check_auth: bool) -> StatusAction {
    if check_auth && code == 401 {
        StatusAction::Unauthorized
    } else if code == 429 || (500 <= code <= 599) {
        StatusAction::Retry
    } else if !(200 <= code <= 299) {
        StatusAction::Fail
    } else {
        StatusAction::Accept
    }
}

/// Classifies an HTTP status; `check_auth` makes 401 a rejected key.
pub fn status_action(code: u16, check_auth: bool) -> (r: StatusAction)
    ensures
        r == status_action_spec(code, check_auth),
{
    if check_auth && code == 401 {
        StatusAction::Unauthorized
    } else if code == 429 || (500 <= code && code <= 599) {
        StatusAction::Retry
    } else if !(200 <= code && code <= 299) {
        StatusAction::Fail
    } else {
        StatusAction::Accept
    }
}

/// Requests sent per engine call (the first try and the retries) before
/// giving up.
pub const ATTEMPTS: u32 = 3;

/// Chat replies asked for per batch before a wrong line count is an error.
pub const REPLY_TRIES: u32 = 2;

/// The translation engines.
#[derive(Debug, Clone, Copy, PartialEq, Eq, Structural)]
pub enum Engine {
    /// LibreTranslate (`libre`).
    Libre,
    /// An OpenAI-compatible chat service (`ai`).
    Ai,
}

/// The engine an `--engine` name selects (`None` for an unknown name).
pub fn engine_of(name: &str) -> (r: Option<Engine>)
    ensures
        r == (if name@ == "libre"@ {
            Some(Engine::Libre)
        } else if name@ == "ai"@ {
            Some(Engine::Ai)
        } else {
            None
        }),
{
    let n = chars_of(name);
    if crate::text::chars_eq(&n, &chars_of("libre")) {
        Some(Engine::Libre)
    } else if crate::text::chars_eq(&n, &chars_of("ai")) {
        Some(Engine::Ai)
    } else {
        None
    }
}

/// Base URL and model of the AI engine: the requested ones, else OpenAI's
/// endpoint and `gpt-4o-mini`.
pub fn ai_endpoint(base_url: Option<String>, model: Option<String>) -> (r: (String, String))
    ensures
        r.0@ == (match base_url {
            Some(b) => b@,
            None => "https://api.openai.com/v1"@,
        }),
        r.1@ == (match model {
            Some(m) => m@,
            None => "gpt-4o-mini"@,
        }),
{
    let b = match base_url {
        Some(b) => b,
        None => str_to_string("https://api.openai.com/v1"),
    };
    let m = match model {
        Some(m) => m,
        None => str_to_string("gpt-4o-mini"),
    };
    (b, m)
}

/// Name of the resume cache file.
pub const CACHE_FILE: &'static str = ".subx-translate-cache.json";

/// Folder of the resume cache: for a single file, the output's parent
/// folder (the current folder `.` when it has none); for a folder run, the
/// output folder itself.
pub fn cache_dir(single: bool, output_parent: Option<String>, output: String) -> (r: String)
    ensures
        r@ == (if single {
            match output_parent {
                Some(p) => if p@.len() > 0 {
                    p@
                } else {
                    "."@
                },
                None => "."@,
            }
        } else {
            output@
        }),
{
    if single {
        match output_parent {
            Some(p) => if p.as_str().unicode_len() > 0 {
                p
            } else {
                str_to_string(".")
            },
            None => str_to_string("."),
        }
    } else {
        output
    }
}

/// Whether another request may follow attempt `attempt` (counted from 0).
pub fn may_retry(attempt: u32) -> (b: bool)
    ensures
        b == (attempt + 1 < ATTEMPTS),
{
    attempt < ATTEMPTS - 1
}

/// Whether a text goes to the translation service: only when it holds
/// more than whitespace (a blank one translates to the empty string).
pub fn needs_request(text: &str) -> (b: bool)
    ensures
        b == !is_blank(text@),
{
    !blank(text)
}

/// Lines per AI request as configured: at least one.
pub fn batch_floor(n: usize) -> (r: usize)
    ensures
        r == if n == 0 { 1 } else { n },
        r >= 1,
{
    if n == 0 {
        1
    } else {
        n
    }
}

/// Wait before retry `attempt`: `base_ms * 2^attempt`.
pub fn retry_delay_ms(base_ms: u64, attempt: u32) -> (r: u64)
    requires
        base_ms * pow2(attempt as nat) <= u64::MAX,
    ensures
        r == base_ms * pow2(attempt as nat),
{
    let mut r: u64 = base_ms;
    let mut i: u32 = 0;
    proof {
        lemma_pow2(0);
        vstd::arithmetic::power::lemma_pow0(2);
    }
    while i < attempt
        invariant
            i <= attempt,
            r == base_ms * pow2(i as nat),
            base_ms * pow2(attempt as nat) <= u64::MAX,
        decreases attempt - i,
    {
        proof {
            lemma_pow2_unfold((i + 1) as nat);
            if i + 1 < attempt {
                lemma_pow2_strictly_increases((i + 1) as nat, attempt as nat);
            }
            lemma_mul_inequality(pow2((i + 1) as nat) as int, pow2(attempt as nat) as int, base_ms as int);
            assert(base_ms * pow2((i + 1) as nat) == 2 * (base_ms * pow2(i as nat))) by (nonlinear_arith)
                requires
                    pow2((i + 1) as nat) == 2 * pow2(i as nat),
            ;
            assert(base_ms * pow2((i + 1) as nat) == pow2((i + 1) as nat) * base_ms) by (nonlinear_arith);
            assert(base_ms * pow2(attempt as nat) == pow2(attempt as nat) * base_ms) by (nonlinear_arith);
        }
        r = r * 2;
        i = i + 1;
    }
    r
}

/// `s` with every trailing `c` removed (`trim_end_matches`).
pub open spec fn strip_trailing(s: Seq<char>, c: char) -> Seq<char>
    decreases s.len(),
{
    if s.len() > 0 && s.last() == c {
        strip_trailing(s.drop_last(), c)
    } else {
        s
    }
}

/// A base URL without trailing slashes.
pub fn trim_base_url(url: &str) -> (r: String)
    ensures
        r@ == strip_trailing(url@, '/'),
{
    let v = chars_of(url);
    let mut n = v.len();
    assert(v@.take(n as int) =~= v@);
    while n > 0 && v[n - 1] == '/'
        invariant
            n <= v@.len(),
            strip_trailing(v@, '/') == strip_trailing(v@.take(n as int), '/'),
        decreases n,
    {
        assert(v@.take(n as int).drop_last() =~= v@.take(n - 1));
        n = n - 1;
    }
    let t = copy_range(&v, 0, n);
    assert(t@ =~= v@.take(n as int));
    string_of(&t)
}

} // verus!
