use subx::subs::Event;
use subx::translate::cache::{fnv1a_64, Cache};
use subx::translate::pipeline::{
    batch_size, begin_translation, dry_run_estimate, finish_translation, PipeOpts,
};
use subx::translate::plan::{
    batch_floor, chunk_texts, concat_parts, is_local, needs_request, key_env_names, resolve_api_key, retry_delay_ms,
    status_action, trim_base_url, KeyError, StatusAction,
};
use subx::translate::prompt::{
    apply_glossary, compile_glossary, parse_glossary, parse_numbered, system_prompt, user_block,
    PromptError,
};
use subx::translate::segment::{protect, restore};
use subx::translate::{mask_key, plan, LangPair};

fn strings(v: &[&str]) -> Vec<String> {
    v.iter().map(|s| s.to_string()).collect()
}

#[test]
fn masks_keys() {
    assert_eq!(mask_key("sk-or-abc123"), "sk-...23");
    assert_eq!(mask_key("abc"), "***");
}

#[test]
fn masks_keys_at_the_length_edge() {
    assert_eq!(mask_key("abcde"), "***");
    assert_eq!(mask_key("abcdef"), "abc...ef");
}

#[test]
fn keys_are_stable_and_unique() {
    let a = Cache::key("ai", "m", "en", "id", "Hello");
    assert_eq!(a, Cache::key("ai", "m", "en", "id", "Hello"));
    assert_ne!(a, Cache::key("ai", "m", "en", "id", "World"));
    assert_ne!(a, Cache::key("libre", "libre", "en", "id", "Hello"));
}

#[test]
fn fnv_matches_reference_values() {
    assert_eq!(fnv1a_64(""), 0xcbf29ce484222325);
    assert_eq!(fnv1a_64("a"), 0xaf63dc4c8601ec8c);
    let k = Cache::key("", "", "", "", "");
    assert_eq!(k, format!("{:016x}", fnv1a_64("||||")));
    assert_eq!(k.len(), 16);
}

#[test]
fn cache_reads_back_what_was_put() {
    let mut c = Cache::disabled();
    assert_eq!(c.get("k"), None);
    c.put("k".to_string(), "v".to_string());
    c.put("j".to_string(), "w".to_string());
    c.put("k".to_string(), "v2".to_string());
    assert_eq!(c.get("k").map(String::as_str), Some("v2"));
    assert_eq!(c.get("j").map(String::as_str), Some("w"));
    assert_eq!(c.entries().len(), 2);
    assert!(c.path().is_none());
    let d = Cache::at_path("cache.json".to_string());
    assert_eq!(d.path().map(String::as_str), Some("cache.json"));
}

#[test]
fn injects_glossary_into_prompt() {
    let p = system_prompt("en", "id", &[("ore".into(), "aku".into())]);
    assert!(p.contains("from en to id"));
    assert!(p.contains("\"ore\" -> \"aku\""));
}

#[test]
fn prompt_without_glossary_has_no_glossary_section() {
    let p = system_prompt("en", "id", &[]);
    assert!(!p.contains("Always translate"));
    assert!(p.ends_with("- Natural id, matching spoken dialogue."));
}

#[test]
fn builds_user_blocks() {
    let u = user_block(&strings(&["A", "B"]), &strings(&["before"]), &[]);
    assert_eq!(
        u,
        "Translate the numbered lines below. Reply with the same numbering and nothing else.\n\nPrevious context (reference only, do not translate):\n- before\n\nLines to translate:\n1. A\n2. B\n"
    );
}

#[test]
fn parses_numbered_replies() {
    let out = parse_numbered("1. Halo\n2) Dunia\n\n", 2).unwrap();
    assert_eq!(out, ["Halo", "Dunia"]);
    assert!(parse_numbered("1. Halo\n", 2).is_err());
}

#[test]
fn reports_reply_line_counts() {
    assert_eq!(
        parse_numbered("1. a\n2. b\n3. c", 2),
        Err(PromptError::LineCount { got: 3, expected: 2 })
    );
}

#[test]
fn glossary_replaces_words_only() {
    let pairs = parse_glossary(&["ore=aku".to_string()]).unwrap();
    let compiled = compile_glossary(&pairs).unwrap();
    assert_eq!(apply_glossary("ORE wa forest", &compiled), "aku wa forest");
    assert!(parse_glossary(&["bogus".to_string()]).is_err());
}

#[test]
fn glossary_entries_are_trimmed_and_checked() {
    let pairs = parse_glossary(&[" a = b ".to_string(), "x=y=z".to_string()]).unwrap();
    assert_eq!(pairs, [("a".to_string(), "b".to_string()), ("x".to_string(), "y=z".to_string())]);
    assert_eq!(
        parse_glossary(&["ok=1".to_string(), "=b".to_string(), "bad".to_string()]),
        Err(PromptError::BadEntry("=b".to_string()))
    );
}

#[test]
fn roundtrips_tags() {
    let (p, t) = protect(r"{\i1}Hello\Nworld{\i0} and \h more");
    assert_eq!(p, "⟦0⟧Hello⟦1⟧world⟦2⟧ and ⟦3⟧ more");
    assert_eq!(restore(&p, &t), r"{\i1}Hello\Nworld{\i0} and \h more");
}

#[test]
fn leaves_plain_text_alone() {
    let (p, t) = protect("Just text");
    assert_eq!(p, "Just text");
    assert!(t.is_empty());
}

#[test]
fn keeps_unknown_placeholders() {
    assert_eq!(restore("a ⟦9⟧ b", &[]), "a ⟦9⟧ b");
}

#[test]
fn resolves_keys() {
    let k = resolve_api_key(Some("sk-test".to_string()), &[None, None], None, "https://api.openai.com/v1").unwrap();
    assert_eq!(k.as_deref(), Some("sk-test"));
    let k = resolve_api_key(None, &[None], None, "http://localhost:11434/v1").unwrap();
    assert_eq!(k, None);
}

#[test]
fn key_lookup_order_and_failure() {
    assert_eq!(key_env_names("https://openrouter.ai/api/v1"), ["OPENROUTER_API_KEY", "SUBX_API_KEY"]);
    assert_eq!(
        key_env_names("https://generativelanguage.googleapis.com"),
        ["GEMINI_API_KEY", "GOOGLE_API_KEY", "SUBX_API_KEY"]
    );
    assert_eq!(key_env_names("http://example.com"), ["SUBX_API_KEY"]);
    let k = resolve_api_key(Some("  ".to_string()), &[Some(" ".to_string()), Some("env".to_string())], Some("cfg".to_string()), "https://api.openai.com/v1");
    assert_eq!(k, Ok(Some("env".to_string())));
    let k = resolve_api_key(None, &[None, None], Some(" ".to_string()), "https://api.deepseek.com");
    assert_eq!(k, Err(KeyError::Missing("DEEPSEEK_API_KEY".to_string())));
    assert!(is_local("http://127.0.0.1:8080"));
}

#[test]
fn classifies_statuses_and_backoff() {
    assert_eq!(status_action(401, true), StatusAction::Unauthorized);
    assert_eq!(status_action(401, false), StatusAction::Fail);
    assert_eq!(status_action(429, false), StatusAction::Retry);
    assert_eq!(status_action(503, true), StatusAction::Retry);
    assert_eq!(status_action(404, true), StatusAction::Fail);
    assert_eq!(status_action(200, true), StatusAction::Accept);
    assert_eq!(retry_delay_ms(1000, 1), 2000);
    assert_eq!(retry_delay_ms(500, 2), 2000);
    assert_eq!(retry_delay_ms(3, 0), 3);
    assert_eq!(retry_delay_ms(3, 5), 96);
    assert_eq!(trim_base_url("http://x/v1//"), "http://x/v1");
}

#[test]
fn chunks_with_context_windows() {
    let texts = strings(&["a", "b", "c", "d", "e"]);
    let ch = chunk_texts(&texts, 2, 1);
    assert_eq!(ch.len(), 3);
    assert_eq!(ch[0].targets, ["a", "b"]);
    assert!(ch[0].before.is_empty());
    assert_eq!(ch[0].after, ["c"]);
    assert_eq!(ch[1].targets, ["c", "d"]);
    assert_eq!(ch[1].before, ["b"]);
    assert_eq!(ch[1].after, ["e"]);
    assert_eq!(ch[2].targets, ["e"]);
    assert_eq!(ch[2].before, ["d"]);
    assert!(ch[2].after.is_empty());
    let flat = concat_parts(ch.into_iter().map(|c| c.targets).collect());
    assert_eq!(flat, texts);
}

fn ev(text: &str, style: &str) -> Event {
    Event {
        text: text.into(),
        style: style.into(),
        ..Default::default()
    }
}

fn opts() -> PipeOpts {
    let pairs = vec![("Hello".to_string(), "Halo".to_string())];
    PipeOpts {
        pair: LangPair {
            from: "en".into(),
            to: "id".into(),
        },
        glossary_re: compile_glossary(&pairs).unwrap(),
        glossary_pairs: pairs,
        translate_karaoke: false,
    }
}

#[test]
fn cache_avoids_second_round_and_skips_karaoke() {
    let o = opts();
    let mut cache = Cache::disabled();
    let mut events = vec![ev("Hello {\\i1}world", "Default"), ev("{\\k40}la", "Karaoke")];
    let (s, pending) = begin_translation(&mut events, &cache, "fake", "m", &o);
    assert_eq!(pending.len(), 1);
    let outs: Vec<String> = pending.iter().map(|p| format!("TR:{}", p.protected)).collect();
    let s = finish_translation(&mut events, &mut cache, &pending, &outs, &o.glossary_re, s);
    assert_eq!((s.fresh, s.cached, s.skipped), (1, 0, 1));
    assert_eq!(events[0].text, "TR:Halo {\\i1}world");
    assert_eq!(events[1].text, "{\\k40}la");

    let mut events2 = vec![ev("Hello {\\i1}world", "Default")];
    let (s2, pending2) = begin_translation(&mut events2, &cache, "fake", "m", &o);
    assert!(pending2.is_empty());
    assert_eq!((s2.fresh, s2.cached, s2.skipped), (0, 1, 0));
    assert_eq!(events2[0].text, "TR:Halo {\\i1}world");
}

#[test]
fn estimates_dry_runs() {
    assert_eq!(batch_size(None, "ai"), 10);
    assert_eq!(batch_size(None, "libre"), 20);
    assert_eq!(batch_size(Some(7), "ai"), 7);
    let mut a = subx::subs::SubFile::new(subx::subs::SubFormat::Srt);
    a.events.push(subx::subs::Event::timed(0, 1, "héllo".to_string()));
    a.events.push(subx::subs::Event::timed(0, 1, "abc".to_string()));
    let mut b = subx::subs::SubFile::new(subx::subs::SubFormat::Srt);
    b.events.push(subx::subs::Event::timed(0, 1, "xyzw".to_string()));
    let e = dry_run_estimate(&[a, b], 2);
    assert_eq!((e.events, e.chars, e.tokens, e.requests), (3, 12, 3, 2));
    let none = dry_run_estimate(&[], 1);
    assert_eq!((none.events, none.chars, none.tokens, none.requests), (0, 0, 0, 1));
}

#[test]
fn effect_and_karaoke_lines_are_never_sent() {
    let o = opts();
    let mut cache = Cache::disabled();
    let mut fx = ev("Hello sign", "Default");
    fx.effect = "Banner;10".into();
    let mut events = vec![ev("{\\k20}ka", "KARAOKE"), fx, ev("Hello", "Default")];
    let (s, pending) = begin_translation(&mut events, &cache, "fake", "m", &o);
    assert_eq!(pending.len(), 1);
    assert_eq!(pending[0].index, 2);
    let outs = vec!["one".to_string(), "two".to_string(), "three".to_string()];
    let s = finish_translation(&mut events, &mut cache, &pending, &outs, &o.glossary_re, s);
    assert_eq!(s.skipped, 2);
    assert_eq!(events[0].text, "{\\k20}ka");
    assert_eq!(events[1].text, "Hello sign");
    assert_eq!(events[2].text, "one");
}

#[test]
fn glossary_terms_are_matched_literally() {
    let pairs = parse_glossary(&["a+b=X".to_string()]).unwrap();
    let compiled = compile_glossary(&pairs).unwrap();
    assert_eq!(apply_glossary("a+b aab", &compiled), "X aab");
}

#[test]
fn config_key_comes_after_the_environment() {
    let k = resolve_api_key(None, &[None, None], Some("sk-x".to_string()), "https://api.openai.com/v1");
    assert_eq!(k, Ok(Some("sk-x".to_string())));
    let k = resolve_api_key(None, &[None, Some("env".to_string())], Some("sk-x".to_string()), "https://api.openai.com/v1");
    assert_eq!(k, Ok(Some("env".to_string())));
    let k = resolve_api_key(Some("flag".to_string()), &[Some("env".to_string())], Some("sk-x".to_string()), "http://x");
    assert_eq!(k, Ok(Some("flag".to_string())));
}

#[test]
fn engine_choice_and_defaults() {
    assert_eq!(plan::engine_of("libre"), Some(plan::Engine::Libre));
    assert_eq!(plan::engine_of("ai"), Some(plan::Engine::Ai));
    assert_eq!(plan::engine_of("AI"), None);
    let (b, m) = plan::ai_endpoint(None, None);
    assert_eq!((b.as_str(), m.as_str()), ("https://api.openai.com/v1", "gpt-4o-mini"));
    let (b, m) = plan::ai_endpoint(Some("http://localhost:11434/v1".into()), Some("qwen2.5".into()));
    assert_eq!((b.as_str(), m.as_str()), ("http://localhost:11434/v1", "qwen2.5"));
    assert_eq!(plan::cache_dir(true, Some("out".into()), "out/a.srt".into()), "out");
    assert_eq!(plan::cache_dir(true, Some("".into()), "a.srt".into()), ".");
    assert_eq!(plan::cache_dir(true, None, "a.srt".into()), ".");
    assert_eq!(plan::cache_dir(false, None, "outdir".into()), "outdir");
    assert_eq!(plan::CACHE_FILE, ".subx-translate-cache.json");
    assert!(plan::may_retry(0) && plan::may_retry(1) && !plan::may_retry(2));
    assert_eq!((plan::ATTEMPTS, plan::REPLY_TRIES), (3, 2));
}

#[test]
fn blank_texts_are_not_sent() {
    assert!(!needs_request(""));
    assert!(!needs_request(" \t\n"));
    assert!(needs_request(" hi "));
}

#[test]
fn batches_hold_at_least_one_line() {
    assert_eq!(batch_floor(0), 1);
    assert_eq!(batch_floor(1), 1);
    assert_eq!(batch_floor(25), 25);
}

#[test]
fn ascii_names_compare_in_lower_case() {
    assert!(is_local("HTTP://LOCALHOST:5000"));
    assert_eq!(key_env_names("https://API.OPENAI.com/v1"), vec!["OPENAI_API_KEY", "SUBX_API_KEY"]);
}
