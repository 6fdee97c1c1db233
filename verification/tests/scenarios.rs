use animepet::http::{percent_decode_path, static_relative_path};
use animepet::identity::{extract_identity_update, IDENTITY_CLOSE, IDENTITY_OPEN};
use animepet::soul::{soul_file_for_model, soul_prompt_for_source, split_soul_document};
use animepet::config::AppConfig;
use animepet::tts::{
    contains_japanese, is_wav_audio, normalize_language, plan_speech,
    resolve_tts_reference_path, SpeechPlan,
};

const PROJECT_DIR: &str = "/home/megumi/animepet";

fn config(tts_enabled: bool, ref_audio: &str, prompt_text: &str, base: &str) -> AppConfig {
    AppConfig {
        api_key: "unused".into(),
        base_url: "https://example.invalid".into(),
        model: "unused".into(),
        tts_enabled,
        tts_base_url: base.into(),
        tts_ref_audio: ref_audio.into(),
        tts_prompt_text: prompt_text.into(),
        tts_prompt_lang: "ja".into(),
    }
}

#[test]
fn extracts_identity_block_and_keeps_visible_reply() {
    let response = format!("你好。\n{}\n- 喜欢咖啡\n{}", IDENTITY_OPEN, IDENTITY_CLOSE);
    let (clean, update) = extract_identity_update(&response);
    assert_eq!(clean, "你好。");
    assert_eq!(update.as_deref(), Some("- 喜欢咖啡"));
}

#[test]
fn leaves_incomplete_identity_block_untouched() {
    let response = format!("你好 {}未完成", IDENTITY_OPEN);
    let (clean, update) = extract_identity_update(&response);
    assert_eq!(clean, response);
    assert!(update.is_none());
}

#[test]
fn splits_skill_style_soul_frontmatter_and_body() {
    let document = split_soul_document("---\nid: rem\nload: body\n---\n# Rem\n");
    assert_eq!(document.frontmatter, "id: rem\nload: body");
    assert_eq!(document.body, "# Rem");
}

#[test]
fn selects_soul_by_model_with_safe_default() {
    assert_eq!(soul_file_for_model("rem"), "souls/rem/SOUL.md");
    assert_eq!(soul_file_for_model("katoumegumi"), "souls/katoumegumi/SOUL.md");
    assert_eq!(soul_file_for_model("unknown"), "souls/katoumegumi/SOUL.md");
    let rem = soul_prompt_for_source("---\nid: rem\nload: body\n---\n# Rem\n");
    assert!(rem.contains("id: rem"));
    let megumi = soul_prompt_for_source("---\nid: katoumegumi\nload: body\n---\n# Megumi\n");
    assert!(megumi.contains("id: katoumegumi"));
}

#[test]
fn detects_kana_as_japanese() {
    assert!(contains_japanese("今日はどうしたの？"));
    assert!(!contains_japanese("今天怎么了？"));
}

#[test]
fn normalizes_prompt_language_aliases() {
    assert_eq!(normalize_language("日语").unwrap(), "ja");
    assert_eq!(normalize_language("zh").unwrap(), "zh");
    assert_eq!(normalize_language("English").unwrap(), "en");
    assert!(normalize_language("fr").is_err());
}

#[test]
fn resolves_project_relative_tts_reference_path() {
    let relative = resolve_tts_reference_path(PROJECT_DIR, "voice/katou-reference.wav");
    assert!(relative.ends_with("/voice/katou-reference.wav"));
    assert_eq!(
        resolve_tts_reference_path(PROJECT_DIR, "/tmp/katou-reference.wav"),
        "/tmp/katou-reference.wav"
    );
}

#[test]
fn rejects_invalid_or_traversing_static_paths() {
    assert_eq!(
        percent_decode_path("/model/katou.json"),
        Some("/model/katou.json".into())
    );
    assert_eq!(
        percent_decode_path("/%2e%2e/config.toml"),
        Some("/../config.toml".into())
    );
    assert!(static_relative_path("/../config.toml").is_none());
    assert!(static_relative_path("/%2e%2e/config.toml").is_none());
    assert!(static_relative_path("/index.html").is_some());
}

#[test]
fn disabled_tts_uses_fallback_wav_audio() {
    let plan = plan_speech("你好", &config(false, "", "", "http://127.0.0.1:9"), PROJECT_DIR);
    match plan {
        Ok(SpeechPlan::Fallback { text, text_lang }) => {
            assert_eq!(text, "你好");
            assert_eq!(text_lang, "zh");
        }
        _ => panic!("the fallback voice should speak when GPT-SoVITS is off"),
    }
}

#[test]
fn enabled_tts_requires_a_reference_and_transcript() {
    let error = plan_speech("你好", &config(true, "", "", "http://127.0.0.1:9880"), PROJECT_DIR)
        .err()
        .unwrap();
    assert!(error.contains("缺少 tts_ref_audio 或 tts_prompt_text"));
}

#[test]
fn validates_wav_container_header() {
    assert!(is_wav_audio(b"RIFF\x00\x00\x00\x00WAVEdata"));
    assert!(!is_wav_audio(b"not wav audio"));
}
