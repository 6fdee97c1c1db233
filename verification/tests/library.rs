use animepet::chat::{chat_completions_url, system_prompt, ChatHistory, MAX_HISTORY_MESSAGES};
use animepet::config::{
    default_base_url, default_model, default_soul_model, default_tts_base_url,
    default_tts_prompt_lang, AppConfig,
};
use animepet::http::{
    check_request_body, content_type_for, file_extension, percent_decode_path, route_request,
    static_relative_path, HttpMethod, Route,
};
use animepet::identity::{
    extract_identity_update, identity_note_to_record, identity_section, IDENTITY_CLOSE,
    IDENTITY_OPEN,
};
use animepet::journal::{bounded_append, memory_entry};
use animepet::region::{
    initial_input_region, input_region, parse_i32_text, parse_title_command, InputRegion,
    TitleCommand,
};
use animepet::path::{components, path_starts_with};
use std::path::{Component, Path};
use animepet::soul::{soul_prompt, split_soul_document, SoulDocument};
use animepet::stream::{sse_payload, take_front, take_line, StreamState};
use animepet::text::{chars_of, trim_chars};
use animepet::tts::{
    check_gpt_sovits_audio, fallback_speech, normalize_language, plan_speech,
    resolve_tts_reference_path, SpeechPlan,
};

fn chars(s: &str) -> Vec<char> {
    s.chars().collect()
}

fn enabled_config(ref_audio: &str, prompt: &str, lang: &str) -> AppConfig {
    AppConfig {
        api_key: "key".into(),
        base_url: default_base_url(),
        model: default_model(),
        tts_enabled: true,
        tts_base_url: "http://127.0.0.1:9880//".into(),
        tts_ref_audio: ref_audio.into(),
        tts_prompt_text: prompt.into(),
        tts_prompt_lang: lang.into(),
    }
}

#[test]
fn trims_unicode_white_space() {
    let t = trim_chars(&chars("\u{3000}\t hello world \u{a0}\n"));
    assert_eq!(t.into_iter().collect::<String>(), "hello world");
    assert_eq!(chars_of("猫"), vec!['猫']);
}

#[test]
fn soul_without_fence_keeps_the_whole_text_as_body() {
    let doc = split_soul_document("  # Only a body  \n");
    assert_eq!(doc, SoulDocument { frontmatter: String::new(), body: "# Only a body".into() });
    let unclosed = split_soul_document("---\nid: rem\n# no closing fence");
    assert_eq!(unclosed.frontmatter, "");
    assert_eq!(unclosed.body, "---\nid: rem\n# no closing fence");
}

#[test]
fn soul_with_bom_and_windows_line_breaks() {
    let doc = split_soul_document("\u{feff}---\r\nid: rem\r\n---\r\n# Rem\r\n");
    assert_eq!(doc.frontmatter, "id: rem");
    assert_eq!(doc.body, "# Rem");
}

#[test]
fn soul_document_roundtrip_on_values() {
    let frontmatter = "id: katoumegumi\nload: body";
    let body = "# Megumi\nQuiet and kind.";
    let doc = split_soul_document(&format!("---\n{}\n---\n{}", frontmatter, body));
    assert_eq!(doc.frontmatter, frontmatter);
    assert_eq!(doc.body, body);
}

#[test]
fn soul_prompt_uses_a_neutral_index_when_frontmatter_is_missing() {
    let prompt = soul_prompt(&SoulDocument { frontmatter: String::new(), body: "# Body".into() });
    assert_eq!(
        prompt,
        "当前角色 frontmatter（身份索引）：\nid: unknown\nload: body\n\n当前角色正文（按模型选择加载）：\n# Body"
    );
}

#[test]
fn identity_block_in_the_middle_joins_the_visible_text() {
    let response = format!("前面 {} - 住在东京 {}  后面", IDENTITY_OPEN, IDENTITY_CLOSE);
    let (clean, update) = extract_identity_update(&response);
    assert_eq!(clean, "前面后面");
    assert_eq!(update.as_deref(), Some("- 住在东京"));
}

#[test]
fn empty_identity_block_gives_no_note() {
    let response = format!("好的。{}  \n {}", IDENTITY_OPEN, IDENTITY_CLOSE);
    let (clean, update) = extract_identity_update(&response);
    assert_eq!(clean, "好的。");
    assert!(update.is_none());
}

#[test]
fn reply_without_block_is_unchanged() {
    let (clean, update) = extract_identity_update("  just a reply  ");
    assert_eq!(clean, "  just a reply  ");
    assert!(update.is_none());
}

#[test]
fn identity_note_is_trimmed_cut_and_not_repeated() {
    assert_eq!(identity_note_to_record("  - 喜欢咖啡 \n", "# 档案\n"), Some("- 喜欢咖啡".into()));
    assert_eq!(identity_note_to_record("   ", "# 档案\n"), None);
    let long = "x".repeat(2500);
    assert_eq!(identity_note_to_record(&long, "").map(|n| n.chars().count()), Some(2000));
    let section = identity_section("T1", "- 喜欢咖啡");
    assert_eq!(section, "\n## 对话提取 [T1]\n- 喜欢咖啡\n");
    let profile = format!("# 档案\n{}", section);
    assert_eq!(identity_note_to_record("- 喜欢咖啡", &profile), None);
}

#[test]
fn bounded_append_keeps_everything_that_fits() {
    let out = bounded_append(b"line one\n", b"\nline two\n", 100);
    assert_eq!(out, b"line one\n\nline two\n".to_vec());
}

#[test]
fn bounded_append_cuts_at_a_whole_line() {
    let out = bounded_append(b"aaaa\nbbbb\ncccc\n", b"\ndddd\n", 12);
    assert!(out.len() <= 12);
    assert_eq!(out, b"cccc\n\ndddd\n".to_vec());
    let out = bounded_append(b"aaaa\nbbbb\n", b"\ncc\n", 10);
    assert_eq!(out, b"bbbb\n\ncc\n".to_vec());
}

#[test]
fn bounded_append_never_splits_a_character() {
    let existing = "猫猫猫猫".as_bytes();
    let out = bounded_append(existing, b"", 5);
    assert_eq!(out, "猫".as_bytes().to_vec());
    let no_newline = bounded_append(b"abcdef", b"gh", 3);
    assert_eq!(no_newline, b"fgh".to_vec());
}

#[test]
fn memory_entry_layout() {
    assert_eq!(memory_entry("T", "你好", "你好呀"), "\n- [T] 用户：你好\n  AnimePet：你好呀\n");
}

#[test]
fn stream_holds_back_a_possible_marker() {
    let mut st = StreamState::new();
    assert_eq!(st.push_delta("short"), None);
    let shown = st.push_delta(" reply that is long enough to show");
    assert_eq!(shown.as_deref(), Some("short reply that is lon"));
    let shown = st.push_delta(&format!(" {}- 喜欢猫{}", IDENTITY_OPEN, IDENTITY_CLOSE));
    assert_eq!(shown.as_deref(), Some("g enough to show "));
    assert_eq!(st.push_delta(" more"), None);
    let full = st.answer_text();
    let (clean, update) = extract_identity_update(&full);
    assert_eq!(clean, "short reply that is long enough to showmore");
    assert_eq!(update.as_deref(), Some("- 喜欢猫"));
}

#[test]
fn stream_never_shows_a_marker_split_across_chunks() {
    let mut st = StreamState::new();
    let mut shown = String::new();
    let answer = format!("你好，今天过得怎么样？{}- 喜欢猫{}", IDENTITY_OPEN, IDENTITY_CLOSE);
    let pieces: Vec<char> = answer.chars().collect();
    for c in pieces {
        if let Some(text) = st.push_delta(&c.to_string()) {
            shown.push_str(&text);
        }
    }
    assert_eq!(shown, "你好，今天过得怎么样？");
}

#[test]
fn stream_keeps_multibyte_characters_whole() {
    let mut st = StreamState::new();
    let shown = st.push_delta("猫猫猫猫猫猫猫");
    assert_eq!(shown.as_deref(), Some("猫"));
}

#[test]
fn stream_reads_server_sent_lines() {
    let mut st = StreamState::new();
    let line = "data: {\"choices\":[{\"delta\":{\"content\":\"Hello there, this is a streamed reply\"}}]}\n";
    let shown = st.process_line(line);
    assert_eq!(shown.as_deref(), Some("Hello there, this is "));
    assert_eq!(st.process_line("data: [DONE]"), None);
    assert_eq!(st.process_line(": keep-alive"), None);
    assert_eq!(st.process_line("data: {\"choices\":[]}"), None);
    assert_eq!(st.answer_text(), "Hello there, this is a streamed reply");
}

#[test]
fn sse_payload_extraction() {
    assert_eq!(sse_payload("  data: {}  \r\n").as_deref(), Some("{}"));
    assert_eq!(sse_payload("data: [DONE]"), None);
    assert_eq!(sse_payload("data: "), None);
    assert_eq!(sse_payload("event: ping"), None);
}

#[test]
fn lines_are_cut_from_the_byte_stream() {
    let mut buffer = b"first\nsecond\nthi".to_vec();
    assert_eq!(take_line(&mut buffer), Some(b"first\n".to_vec()));
    assert_eq!(take_line(&mut buffer), Some(b"second\n".to_vec()));
    assert_eq!(take_line(&mut buffer), None);
    assert_eq!(buffer, b"thi".to_vec());
}

#[test]
fn pending_bytes_are_handed_out_in_order() {
    let mut pending = b"abcdef".to_vec();
    assert_eq!(take_front(&mut pending, 4), b"abcd".to_vec());
    assert_eq!(take_front(&mut pending, 4), b"ef".to_vec());
    assert!(pending.is_empty());
}

#[test]
fn history_keeps_the_latest_messages() {
    let mut history = ChatHistory::new();
    for i in 0..25 {
        history.record_exchange(&format!("q{}", i), &format!("a{}", i));
    }
    assert_eq!(history.len(), MAX_HISTORY_MESSAGES);
    let messages = history.conversation("system text", "next");
    assert_eq!(messages.len(), MAX_HISTORY_MESSAGES + 2);
    assert_eq!(messages[0].role, "system");
    assert_eq!(messages[0].content, "system text");
    assert_eq!(messages[1].content, "q5");
    assert_eq!(messages[2].role, "assistant");
    assert_eq!(messages[2].content, "a5");
    assert_eq!(messages[40].content, "a24");
    assert_eq!(messages[41].role, "user");
    assert_eq!(messages[41].content, "next");
}

#[test]
fn system_prompt_layout() {
    let prompt = system_prompt("SOUL", "ID", "MEM");
    assert!(prompt.starts_with("SOUL\n\n用户身份信息（仅记录用户明确提供的事实和偏好）：\nID\n\n长期记忆：\nMEM\n\n身份记录规则："));
    assert!(prompt.contains("<identity_update>...</identity_update>"));
}

#[test]
fn chat_endpoint_drops_trailing_slashes() {
    assert_eq!(chat_completions_url("https://api.deepseek.com///"), "https://api.deepseek.com/v1/chat/completions");
    assert_eq!(chat_completions_url("http://host"), "http://host/v1/chat/completions");
}

#[test]
fn config_defaults() {
    assert_eq!(default_base_url(), "https://api.deepseek.com");
    assert_eq!(default_model(), "deepseek-chat");
    assert_eq!(default_tts_base_url(), "http://127.0.0.1:9880");
    assert_eq!(default_tts_prompt_lang(), "ja");
    assert_eq!(default_soul_model(), "katoumegumi");
}

#[test]
fn language_error_names_the_language() {
    assert_eq!(normalize_language("  JP ").unwrap(), "ja");
    assert_eq!(normalize_language("漢語").unwrap(), "zh");
    assert_eq!(normalize_language("英文").unwrap(), "en");
    assert_eq!(normalize_language("fr").unwrap_err(), "不支持的 TTS 参考语言: fr（请使用 ja、zh 或 en）");
}

#[test]
fn reference_path_joins_with_one_separator() {
    assert_eq!(resolve_tts_reference_path("/p/", " voice/a.wav "), "/p/voice/a.wav");
    assert_eq!(resolve_tts_reference_path("/p", "voice/a.wav"), "/p/voice/a.wav");
    assert_eq!(resolve_tts_reference_path("", "a.wav"), "a.wav");
}

#[test]
fn speech_plan_for_gpt_sovits() {
    let plan = plan_speech("  今日は  ", &enabled_config("voice/katou.wav", "こんにちは", "日文"), "/proj");
    match plan {
        Ok(SpeechPlan::GptSovits(req)) => {
            assert_eq!(req.url, "http://127.0.0.1:9880/tts");
            assert_eq!(req.text, "今日は");
            assert_eq!(req.text_lang, "ja");
            assert_eq!(req.ref_audio_path, "/proj/voice/katou.wav");
            assert_eq!(req.prompt_text, "こんにちは");
            assert_eq!(req.prompt_lang, "ja");
        }
        _ => panic!("GPT-SoVITS should be asked"),
    }
}

#[test]
fn speech_plan_errors() {
    let cfg = enabled_config("a.wav", "hello", "en");
    assert_eq!(plan_speech("   ", &cfg, "/p").err().unwrap(), "TTS 文本为空");
    let long = "字".repeat(40001);
    assert_eq!(plan_speech(&long, &cfg, "/p").err().unwrap(), "TTS 文本过长（最多 40000 个字符）");
    let bad = enabled_config("a.wav", "hello", "fr");
    assert_eq!(plan_speech("你好", &bad, "/p").err().unwrap(), "不支持的 TTS 参考语言: fr（请使用 ja、zh 或 en）");
}

#[test]
fn gpt_sovits_audio_must_be_wav() {
    assert!(check_gpt_sovits_audio(b"RIFF\x10\x00\x00\x00WAVEfmt ".to_vec()).is_ok());
    assert_eq!(
        check_gpt_sovits_audio(b"{\"error\":1}".to_vec()).unwrap_err(),
        "GPT-SoVITS 未返回有效 WAV 音频，请检查服务日志和参考音频配置"
    );
}

#[test]
fn fallback_voice_and_length() {
    let speech = fallback_speech("こんにちは", "ja");
    assert_eq!(speech.voice, "ja");
    assert_eq!(speech.text, "こんにちは");
    let long = "好".repeat(2100);
    let speech = fallback_speech(&long, "zh");
    assert_eq!(speech.voice, "zh");
    assert_eq!(speech.text.chars().count(), 2000);
}

#[test]
fn percent_decoding_edge_cases() {
    assert_eq!(percent_decode_path("/a%20b"), Some("/a b".into()));
    assert_eq!(percent_decode_path("/%E7%8C%AB"), Some("/猫".into()));
    assert_eq!(percent_decode_path("/%4"), None);
    assert_eq!(percent_decode_path("/%zz"), None);
    assert_eq!(percent_decode_path("/%ff"), None);
    assert_eq!(percent_decode_path("/猫/plain"), Some("/猫/plain".into()));
}

#[test]
fn static_paths() {
    assert_eq!(static_relative_path("/").as_deref(), Some("index.html"));
    assert_eq!(static_relative_path("//model/katou.json?v=2").as_deref(), Some("model/katou.json"));
    assert_eq!(static_relative_path("/a/..b/c").as_deref(), Some("a/..b/c"));
    assert!(static_relative_path("/a/../b").is_none());
    assert!(static_relative_path("/a%5cb").is_none());
    assert!(static_relative_path("/..").is_none());
}

#[test]
fn routes() {
    assert_eq!(route_request("/tts", HttpMethod::Post), Route::Tts);
    assert_eq!(route_request("/chat?x=1", HttpMethod::Post), Route::Chat);
    assert_eq!(route_request("/chat", HttpMethod::Get), Route::Static);
    assert_eq!(route_request("/index.html", HttpMethod::Get), Route::Static);
    assert_eq!(route_request("/tts", HttpMethod::Other), Route::MethodNotAllowed);
}

#[test]
fn content_types() {
    assert_eq!(content_type_for(Some("index.html")), "text/html; charset=utf-8");
    assert_eq!(content_type_for(Some("live2d.min.js")), "application/javascript; charset=utf-8");
    assert_eq!(content_type_for(Some("a.jpeg")), "image/jpeg");
    assert_eq!(content_type_for(Some(".bashrc")), "application/octet-stream");
    assert_eq!(content_type_for(Some("README")), "application/octet-stream");
    assert_eq!(content_type_for(None), "application/octet-stream");
    assert_eq!(file_extension("archive.tar.gz"), Some(vec!['g', 'z']));
    assert_eq!(file_extension("name."), Some(vec![]));
}

#[test]
fn request_body_limit() {
    assert_eq!(check_request_body("{}".into()), Ok("{}".to_string()));
    let big = "a".repeat(524289);
    assert_eq!(check_request_body(big).unwrap_err(), "请求体过大（最多 524288 字节）");
    assert!(check_request_body("a".repeat(524288)).is_ok());
}

#[test]
fn input_region_arithmetic() {
    assert_eq!(input_region(1080, 100, 20), InputRegion { x: 86, y: 796, width: 308, height: 278 });
    assert_eq!(initial_input_region(1080), InputRegion { x: -9, y: 816, width: 308, height: 278 });
}

#[test]
fn i32_parsing() {
    assert_eq!(parse_i32_text(&chars("42")), Some(42));
    assert_eq!(parse_i32_text(&chars("-17")), Some(-17));
    assert_eq!(parse_i32_text(&chars("+8")), Some(8));
    assert_eq!(parse_i32_text(&chars("-2147483648")), Some(i32::MIN));
    assert_eq!(parse_i32_text(&chars("2147483647")), Some(i32::MAX));
    assert_eq!(parse_i32_text(&chars("2147483648")), None);
    assert_eq!(parse_i32_text(&chars("99999999999999999999")), None);
    assert_eq!(parse_i32_text(&chars("-")), None);
    assert_eq!(parse_i32_text(&chars("")), None);
    assert_eq!(parse_i32_text(&chars("12.5")), None);
    for s in ["0", "-0", "+0", "007", "123456", "-99999", "1e3", " 1"] {
        assert_eq!(parse_i32_text(&chars(s)), s.parse::<i32>().ok());
    }
}

#[test]
fn title_commands() {
    assert_eq!(parse_title_command("drag_start"), TitleCommand::DragStart);
    assert_eq!(parse_title_command("chat_open"), TitleCommand::ChatOpen);
    assert_eq!(parse_title_command("chat_close:12,34"), TitleCommand::ChatClose { left: 12, bottom: 34 });
    assert_eq!(parse_title_command("chat_close:oops"), TitleCommand::ChatClose { left: 5, bottom: 0 });
    assert_eq!(parse_title_command("drag_end:10,x"), TitleCommand::Move { left: 10, bottom: 0 });
    assert_eq!(parse_title_command("restore:-3,7"), TitleCommand::Move { left: -3, bottom: 7 });
    assert_eq!(parse_title_command("restore:1,2,3"), TitleCommand::Ignore);
    assert_eq!(parse_title_command("AnimePet"), TitleCommand::Ignore);
}

#[test]
fn path_components_agree_with_std() {
    let cases = [
        "/", "/a/b", "/a//b/", "a/./b", "./a", ".", "..", "a/../b", "/a/b/.", "", "./", "//x",
        "/home/u/assets/katoumegumi/index.html", "/home/u/assets/katoumegumi2",
    ];
    for case in cases {
        let ours: Vec<String> = components(case).into_iter().map(|c| c.into_iter().collect()).collect();
        let theirs: Vec<String> = Path::new(case)
            .components()
            .map(|c| match c {
                Component::RootDir => "/".to_string(),
                Component::CurDir => ".".to_string(),
                Component::ParentDir => "..".to_string(),
                Component::Normal(s) => s.to_str().unwrap().to_string(),
                Component::Prefix(_) => unreachable!(),
            })
            .collect();
        assert_eq!(ours, theirs, "components of {case:?}");
    }
    for path in cases {
        for base in cases {
            assert_eq!(
                path_starts_with(path, base),
                Path::new(path).starts_with(base),
                "{path:?} under {base:?}"
            );
        }
    }
    assert!(path_starts_with("/srv/assets/index.html", "/srv/assets"));
    assert!(!path_starts_with("/srv/assets2/index.html", "/srv/assets"));
}

#[test]
fn shown_parts_join_into_the_answer() {
    let mut st = StreamState::new();
    let mut sent = String::new();
    for piece in ["Once ", "upon a time, ", "猫 lived ", "by the sea and ", "sang."] {
        if let Some(t) = st.push_delta(piece) {
            sent.push_str(&t);
        }
        let answer = st.answer_text();
        assert!(answer.starts_with(&sent));
    }
    assert_eq!(sent, "Once upon a time, 猫 lived by t");
}

#[test]
fn extension_follows_std() {
    for name in ["a.txt", ".bashrc", "..", "a.b.c", "noext", "x.", ".a.b"] {
        let ours = file_extension(name).map(|e| e.into_iter().collect::<String>());
        let theirs = Path::new(name).extension().map(|e| e.to_str().unwrap().to_string());
        assert_eq!(ours, theirs, "extension of {name:?}");
    }
}

#[test]
fn trimming_follows_std() {
    for s in ["  a b  ", "\u{2003}x\u{2029}", "\u{feff} y", "", " \t\n", "\u{85}z\u{180e}"] {
        let ours: String = trim_chars(&chars(s)).into_iter().collect();
        assert_eq!(ours, s.trim(), "trim of {s:?}");
    }
}
