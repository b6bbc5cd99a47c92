//! User settings: an OpenRouter API key and the chosen model.
//!
//! The key never reaches the webview: [`SettingsDto`] reports *whether*
//! a key is set, never what it is. Reading and writing the settings file
//! is the application's job.

use vstd::prelude::*;

use crate::text::{blank, is_blank};

verus! {

pub struct Settings {
    /// OpenRouter key. Empty means "not configured".
    pub openrouter_api_key: String,
    /// Model slug, e.g. `qwen/qwen-2.5-72b-instruct:free`.
    pub model: String,
    /// Whether the chosen model can call tools. Cached from the model
    /// list so a scan-time decision doesn't need a network round trip.
    pub model_supports_tools: bool,
}

impl Settings {
    /// Whether both a key and a model are set (whitespace alone is not).
    pub fn is_configured(&self) -> (b: bool)
        ensures
            b == (!is_blank(self.openrouter_api_key@) && !is_blank(self.model@)),
    {
        !blank(self.openrouter_api_key.as_str()) && !blank(self.model.as_str())
    }
}

impl Default for Settings {
    fn default() -> (s: Settings)
        ensures
            s.openrouter_api_key@ == Seq::<char>::empty(),
            s.model@ == Seq::<char>::empty(),
            !s.model_supports_tools,
    {
        Settings { openrouter_api_key: String::new(), model: String::new(), model_supports_tools: false }
    }
}

/// What the frontend is allowed to know. Note the absence of the key
/// itself — the UI shows whether one is set and lets you replace it, but
/// cannot read it back out.
pub struct SettingsDto {
    pub has_api_key: bool,
    pub model: String,
    pub model_supports_tools: bool,
    /// Shown on the settings screen so it's obvious where the key lives.
    pub config_path: String,
}

impl SettingsDto {
    pub fn from(settings: &Settings, config_path: String) -> (d: SettingsDto)
        ensures
            d.has_api_key == !is_blank(settings.openrouter_api_key@),
            d.model@ == settings.model@,
            d.model_supports_tools == settings.model_supports_tools,
            d.config_path@ == config_path@,
    {
        SettingsDto {
            has_api_key: !blank(settings.openrouter_api_key.as_str()),
            model: settings.model.clone(),
            model_supports_tools: settings.model_supports_tools,
            config_path,
        }
    }
}

} // verus!
