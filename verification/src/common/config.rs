//! Global settings (from `subx.toml`; every field optional).
use vstd::prelude::*;
use crate::text::{chars_of, string_of, str_to_string};

verus! {

/// Global configuration; missing fields take the defaults.
#[derive(Debug, Clone)]
pub struct AppConfig {
    /// Parallel worker count for extract/translate.
    pub workers: usize,
    /// Language priority for extract (first entry goes to the main folder).
    pub lang_priority: Vec<String>,
    /// Default font for `clean`.
    pub default_font: String,
    /// LibreTranslate URL (self-hosting recommended).
    pub libre_url: String,
    /// LibreTranslate API key (optional, for public instances).
    pub libre_api_key: Option<String>,
    /// Default translation engine: `libre` (free) or `ai` (needs an API key).
    pub translate_engine: String,
    /// OpenAI-compatible base URL for the AI engine.
    pub ai_base_url: String,
    /// Default model for the AI engine.
    pub ai_model: String,
    /// AI API key (prefer the environment).
    pub ai_api_key: Option<String>,
}

impl Default for AppConfig {
    fn default() -> (c: AppConfig)
        ensures
            c.workers == 8,
            c.lang_priority@.len() == 1,
            c.lang_priority@[0]@ == "id"@,
            c.default_font@ == "Arial"@,
            c.libre_url@ == "http://localhost:5000"@,
            c.libre_api_key is None,
            c.translate_engine@ == "libre"@,
            c.ai_base_url@ == "https://api.openai.com/v1"@,
            c.ai_model@ == "gpt-4o-mini"@,
            c.ai_api_key is None,
    {
        AppConfig {
            workers: 8,
            lang_priority: vec![str_to_string("id")],
            default_font: str_to_string("Arial"),
            libre_url: str_to_string("http://localhost:5000"),
            libre_api_key: None,
            translate_engine: str_to_string("libre"),
            ai_base_url: str_to_string("https://api.openai.com/v1"),
            ai_model: str_to_string("gpt-4o-mini"),
            ai_api_key: None,
        }
    }
}

} // verus!
