use subx::common::config::AppConfig;
use subx::common::fs::sanitize_filename;
use subx::common::lang::{normalize_language, try_normalize_language};

#[test]
fn defaults_are_sane() {
    let cfg = AppConfig::default();
    assert_eq!(cfg.workers, 8);
    assert_eq!(cfg.translate_engine, "libre");
    assert_eq!(cfg.ai_base_url, "https://api.openai.com/v1");
    assert_eq!(cfg.ai_model, "gpt-4o-mini");
    assert!(cfg.ai_api_key.is_none());
}

#[test]
fn sanitizes_windows_forbidden_chars() {
    assert_eq!(sanitize_filename("Anime: Ep 01"), "Anime__Ep_01");
    assert_eq!(sanitize_filename("a/b\\c"), "a_b_c");
    assert_eq!(sanitize_filename("trailing..."), "trailing");
}

#[test]
fn truncates_long_names() {
    let long = "a".repeat(200);
    assert_eq!(sanitize_filename(&long).chars().count(), 150);
}

#[test]
fn normalizes_common_variants() {
    assert_eq!(normalize_language("ind"), "id");
    assert_eq!(normalize_language("Indonesian"), "id");
    assert_eq!(normalize_language("eng"), "en");
    assert_eq!(normalize_language("jpn"), "ja");
    assert_eq!(normalize_language("und"), "unknown");
    assert_eq!(normalize_language(""), "unknown");
    assert_eq!(normalize_language("fra"), "fr");
}

#[test]
fn cuts_two_bytes_only_on_a_boundary() {
    assert_eq!(try_normalize_language("  x "), Some("unknown".to_string()));
    assert_eq!(try_normalize_language("été"), Some("é".to_string()));
    assert_eq!(try_normalize_language("日本語"), None);
    assert_eq!(try_normalize_language("ENGLISH"), Some("en".to_string()));
}

#[test]
fn sanitized_names_hold_no_forbidden_characters() {
    let forbidden = "<>:\"/\\|?*[]() '-&%";
    for name in ["Ep: 01 (final)...", "a<b>c%d&e'f-g h.. ", "ok"] {
        let long = name.repeat(15);
        for n in [name.to_string(), long] {
            let s = sanitize_filename(&n);
            assert!(s.chars().all(|c| !forbidden.contains(c)), "{s}");
            assert!(s.chars().count() <= 150);
            assert!(!s.ends_with('.') && !s.ends_with(' '));
        }
    }
}

#[test]
fn cut_names_do_not_end_in_a_dot() {
    let name = format!("{}.b", "a".repeat(149));
    let s = sanitize_filename(&name);
    assert_eq!(s, "a".repeat(149));
}
