//! The application's settings and the values they take when the settings
//! file leaves them out.
use vstd::prelude::*;
use vstd::string::*;

verus! {

/// The application's settings: the chat service, and the voice service that
/// speaks the replies.
pub struct AppConfig {
    pub api_key: String,
    pub base_url: String,
    pub model: String,
    pub tts_enabled: bool,
    pub tts_base_url: String,
    pub tts_ref_audio: String,
    pub tts_prompt_text: String,
    pub tts_prompt_lang: String,
}

/// The chat service used when none is set.
pub fn default_base_url() -> (url: String)
    ensures
        url@ == "https://api.deepseek.com"@,
{
    String::from_str("https://api.deepseek.com")
}

/// The chat model used when none is set.
pub fn default_model() -> (model: String)
    ensures
        model@ == "deepseek-chat"@,
{
    String::from_str("deepseek-chat")
}

/// The voice service used when none is set.
pub fn default_tts_base_url() -> (url: String)
    ensures
        url@ == "http://127.0.0.1:9880"@,
{
    String::from_str("http://127.0.0.1:9880")
}

/// The language of the reference clip when none is set.
pub fn default_tts_prompt_lang() -> (lang: String)
    ensures
        lang@ == "ja"@,
{
    String::from_str("ja")
}

/// The persona model a chat request uses when it names none.
pub fn default_soul_model() -> (model: String)
    ensures
        model@ == "katoumegumi"@,
{
    String::from_str("katoumegumi")
}

} // verus!
