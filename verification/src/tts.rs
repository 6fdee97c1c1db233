//! Speech for the replies: which voice service speaks a text, in which
//! language, from which reference clip, and what counts as audio it can play.
use vstd::prelude::*;
use vstd::string::*;
use crate::config::AppConfig;
use crate::text::{
    ascii_lower, ascii_lowercase, ascii_lowercase_chars, chars_equal, chars_of, concat_chars, starts_with,
    string_from_chars, take_chars, take_chars_vec, trim, trim_chars, trim_end_char,
    trim_end_char_chars, is_white_space, lemma_trim_fixed, lemma_trim_padded, lemma_trimmed_ends,
};

verus! {

/// The longest text, in characters, that may be spoken.
pub const MAX_TTS_CHARS: usize = 40000;

/// The longest text, in characters, handed to the local fallback voice.
pub const MAX_FALLBACK_CHARS: usize = 2000;

/// Japanese kana (Hiragana, Katakana and the Katakana phonetic extensions).
pub open spec fn is_kana(c: char) -> bool {
    let v = c as u32;
    (0x3040 <= v <= 0x30ff) || (0x31f0 <= v <= 0x31ff)
}

/// `text` holds some kana.
pub open spec fn has_kana(text: Seq<char>) -> bool {
    exists|i: int| 0 <= i < text.len() && is_kana(#[trigger] text[i])
}

/// The code of a reference-language name (trimmed, ASCII case folded), or
/// none when it names no language that the voice service takes.
pub open spec fn language_code(language: Seq<char>) -> Option<Seq<char>> {
    let key = ascii_lowercase(trim(language));
    if key == "ja"@ || key == "jp"@ || key == "日语"@ || key == "日文"@ {
        Some("ja"@)
    } else if key == "zh"@ || key == "中文"@ || key == "汉语"@ || key == "漢語"@ {
        Some("zh"@)
    } else if key == "en"@ || key == "english"@ || key == "英语"@ || key == "英文"@ {
        Some("en"@)
    } else {
        None
    }
}

/// A plain name (already trimmed and lower case) is its own key.
proof fn lemma_plain_key(s: Seq<char>)
    requires
        s.len() > 0,
        !is_white_space(s[0]),
        !is_white_space(s.last()),
        forall|i: int| 0 <= i < s.len() ==> !('A' <= #[trigger] s[i] <= 'Z'),
    ensures
        ascii_lowercase(trim(s)) == s,
{
    lemma_trim_fixed(s);
    assert(ascii_lowercase(s) =~= s);
}

/// Every alias of a reference language names it: `ja`, `jp`, `日语` and `日文`
/// name Japanese, `zh`, `中文`, `汉语` and `漢語` Chinese, `en`, `english`, `英语`
/// and `英文` English; and each code the function gives back is taken again as
/// itself, so the default `ja` and every code it gives are accepted.
pub proof fn lemma_language_aliases()
    ensures
        language_code("ja"@) == Some("ja"@),
        language_code("jp"@) == Some("ja"@),
        language_code("日语"@) == Some("ja"@),
        language_code("日文"@) == Some("ja"@),
        language_code("zh"@) == Some("zh"@),
        language_code("中文"@) == Some("zh"@),
        language_code("汉语"@) == Some("zh"@),
        language_code("漢語"@) == Some("zh"@),
        language_code("en"@) == Some("en"@),
        language_code("english"@) == Some("en"@),
        language_code("英语"@) == Some("en"@),
        language_code("英文"@) == Some("en"@),
{
    reveal_strlit("ja");
    reveal_strlit("jp");
    reveal_strlit("日语");
    reveal_strlit("日文");
    reveal_strlit("zh");
    reveal_strlit("中文");
    reveal_strlit("汉语");
    reveal_strlit("漢語");
    reveal_strlit("en");
    reveal_strlit("english");
    reveal_strlit("英语");
    reveal_strlit("英文");
    lemma_plain_key("ja"@);
    lemma_plain_key("jp"@);
    lemma_plain_key("日语"@);
    lemma_plain_key("日文"@);
    lemma_plain_key("zh"@);
    lemma_plain_key("中文"@);
    lemma_plain_key("汉语"@);
    lemma_plain_key("漢語"@);
    lemma_plain_key("en"@);
    lemma_plain_key("english"@);
    lemma_plain_key("英语"@);
    lemma_plain_key("英文"@);
}

/// A reference language resolves only to `ja`, `zh` or `en`, and the code it
/// resolves to resolves to itself.
pub proof fn lemma_language_code_stable(language: Seq<char>)
    ensures
        language_code(language) matches Some(code) ==> {
            &&& code == "ja"@ || code == "zh"@ || code == "en"@
            &&& language_code(code) == Some(code)
        },
{
    lemma_language_aliases();
}

/// Case and surrounding white space do not change which language a name
/// gives: `English`, ` EN ` and `en` all give `en`.
pub proof fn lemma_language_case_and_space(language: Seq<char>, pre: Seq<char>, post: Seq<char>)
    requires
        forall|k: int| 0 <= k < pre.len() ==> is_white_space(#[trigger] pre[k]),
        forall|k: int| 0 <= k < post.len() ==> is_white_space(#[trigger] post[k]),
        trim(language) == language,
        language.len() > 0,
    ensures
        language_code(pre + language + post) == language_code(ascii_lowercase(language)),
{
    lemma_trim_padded(pre, language, post);
    lemma_trimmed_ends(language);
    let low = ascii_lowercase(language);
    assert(low.len() == language.len());
    assert(!is_white_space(low[0]) && !is_white_space(low.last())) by {
        assert(low[0] == ascii_lower(language[0]));
        assert(low.last() == ascii_lower(language.last()));
    }
    lemma_trim_fixed(low);
    assert forall|i: int| 0 <= i < low.len() implies #[trigger] ascii_lowercase(low)[i] == low[i] by {
        assert(low[i] == ascii_lower(language[i]));
    }
    assert(ascii_lowercase(low) =~= low);
}

/// The error for a reference language the voice service does not take.
pub open spec fn language_error(language: Seq<char>) -> Seq<char> {
    "不支持的 TTS 参考语言: "@ + language + "（请使用 ja、zh 或 en）"@
}

/// `Path::join` on Unix: an absolute path replaces the base; otherwise the two
/// are joined with one separator (none after an empty base or one that ends
/// with a separator).
pub open spec fn join_path(base: Seq<char>, path: Seq<char>) -> Seq<char> {
    if starts_with(path, seq!['/']) {
        path
    } else if base.len() == 0 || base.last() == '/' {
        base + path
    } else {
        base + seq!['/'] + path
    }
}

/// The reference clip's path as the voice service must see it: trimmed, and
/// taken relative to the project directory unless it is absolute.
pub open spec fn reference_path(project_dir: Seq<char>, reference: Seq<char>) -> Seq<char> {
    join_path(project_dir, trim(reference))
}

/// An absolute reference path reaches the voice service as it is written
/// (trimmed), so a service on another machine can be pointed at its own
/// files; a relative one is taken under the project directory.
pub proof fn lemma_reference_path(project_dir: Seq<char>, reference: Seq<char>)
    ensures
        starts_with(trim(reference), seq!['/']) ==> reference_path(project_dir, reference) == trim(
            reference,
        ),
        !starts_with(trim(reference), seq!['/']) ==> reference_path(project_dir, reference).take(
            project_dir.len() as int,
        ) == project_dir && reference_path(project_dir, reference).skip(
            reference_path(project_dir, reference).len() - trim(reference).len(),
        ) == trim(reference),
{
    let r = trim(reference);
    let joined = reference_path(project_dir, reference);
    if !starts_with(r, seq!['/']) {
        if project_dir.len() == 0 || project_dir.last() == '/' {
            assert(joined.take(project_dir.len() as int) =~= project_dir);
            assert(joined.skip(joined.len() - r.len()) =~= r);
        } else {
            assert(joined.take(project_dir.len() as int) =~= project_dir);
            assert(joined.skip(joined.len() - r.len()) =~= r);
        }
    }
}

/// The language a text is spoken in: Japanese when it holds kana, otherwise
/// Chinese.
pub open spec fn text_language(text: Seq<char>) -> Seq<char> {
    if has_kana(text) {
        "ja"@
    } else {
        "zh"@
    }
}

/// A text with any kana in it is spoken in Japanese, wherever the kana
/// stands; a text whose characters all come before the kana block (Latin,
/// punctuation, and the like) is spoken as Chinese.
pub proof fn lemma_text_language(before: Seq<char>, kana: char, after: Seq<char>)
    requires
        is_kana(kana),
    ensures
        text_language(before + seq![kana] + after) == "ja"@,
        (forall|i: int| 0 <= i < before.len() ==> (#[trigger] before[i] as u32) < 0x3040)
            ==> text_language(before) == "zh"@,
{
    let t = before + seq![kana] + after;
    assert(t[before.len() as int] == kana);
    if forall|i: int| 0 <= i < before.len() ==> (#[trigger] before[i] as u32) < 0x3040 {
        assert forall|i: int| 0 <= i < before.len() implies !is_kana(#[trigger] before[i]) by {
            assert((before[i] as u32) < 0x3040);
        }
    }
}

/// Why a text cannot be spoken with these settings, if it cannot.
pub open spec fn speech_error(text: Seq<char>, config: AppConfig) -> Option<Seq<char>> {
    let t = trim(text);
    if t.len() == 0 {
        Some("TTS 文本为空"@)
    } else if t.len() > MAX_TTS_CHARS {
        Some("TTS 文本过长（最多 40000 个字符）"@)
    } else if !config.tts_enabled {
        None
    } else if trim(config.tts_ref_audio@).len() == 0 || trim(config.tts_prompt_text@).len() == 0 {
        Some("已启用加藤惠语音，但缺少 tts_ref_audio 或 tts_prompt_text 配置"@)
    } else if language_code(config.tts_prompt_lang@) is None {
        Some(language_error(config.tts_prompt_lang@))
    } else {
        None
    }
}

/// Which texts and settings can be spoken: a blank text never; a text within
/// the length limit always when GPT-SoVITS is off; with GPT-SoVITS on, a
/// missing reference clip or transcript is refused, and a complete setup
/// whose reference language is `ja` (the default) is accepted.
pub proof fn lemma_speech_error_cases(text: Seq<char>, config: AppConfig)
    ensures
        trim(text).len() == 0 ==> speech_error(text, config) == Some("TTS 文本为空"@),
        0 < trim(text).len() <= MAX_TTS_CHARS && !config.tts_enabled ==> speech_error(
            text,
            config,
        ) is None,
        0 < trim(text).len() <= MAX_TTS_CHARS && config.tts_enabled && trim(
            config.tts_ref_audio@,
        ).len() == 0 ==> speech_error(text, config) == Some(
            "已启用加藤惠语音，但缺少 tts_ref_audio 或 tts_prompt_text 配置"@,
        ),
        0 < trim(text).len() <= MAX_TTS_CHARS && config.tts_enabled && trim(
            config.tts_ref_audio@,
        ).len() > 0 && trim(config.tts_prompt_text@).len() > 0 && config.tts_prompt_lang@ == "ja"@
            ==> speech_error(text, config) is None,
{
    lemma_language_aliases();
}

/// The endpoint of the voice service at `base_url`.
pub open spec fn tts_url_text(base_url: Seq<char>) -> Seq<char> {
    trim_end_char(base_url, '/') + "/tts"@
}

/// A synthesis request for the GPT-SoVITS voice service.
pub struct GptSovitsRequest {
    pub url: String,
    pub text: String,
    pub text_lang: &'static str,
    pub ref_audio_path: String,
    pub prompt_text: String,
    pub prompt_lang: &'static str,
}

/// How a text is to be spoken.
pub enum SpeechPlan {
    /// By the local fallback voice, in the given language.
    Fallback { text: String, text_lang: &'static str },
    /// By the GPT-SoVITS service.
    GptSovits(GptSovitsRequest),
}

/// Whether `text` holds Japanese kana.
pub fn contains_japanese(text: &str) -> (r: bool)
    ensures
        r == has_kana(text@),
{
    let chars = chars_of(text);
    let mut i: usize = 0;
    while i < chars.len()
        invariant
            chars@ == text@,
            i <= chars@.len(),
            forall|k: int| 0 <= k < i ==> !is_kana(#[trigger] chars@[k]),
        decreases chars.len() - i,
    {
        let v = chars[i] as u32;
        if (0x3040 <= v && v <= 0x30ff) || (0x31f0 <= v && v <= 0x31ff) {
            assert(is_kana(chars@[i as int]));
            return true;
        }
        i += 1;
    }
    false
}

/// Whether `key` is one of the names `a`, `b`, `c`, `d`.
fn is_one_of(key: &[char], a: &str, b: &str, c: &str, d: &str) -> (r: bool)
    ensures
        r == (key@ == a@ || key@ == b@ || key@ == c@ || key@ == d@),
{
    chars_equal(key, &chars_of(a)) || chars_equal(key, &chars_of(b)) || chars_equal(
        key,
        &chars_of(c),
    ) || chars_equal(key, &chars_of(d))
}

/// The language code for a reference-language name: `ja`, `zh` or `en`,
/// whatever alias, case or surrounding space it is written with.
pub fn normalize_language(language: &str) -> (res: Result<&'static str, String>)
    ensures
        res matches Ok(code) ==> language_code(language@) == Some(code@),
        res matches Err(e) ==> language_code(language@) is None && e@ == language_error(
            language@,
        ),
        res is Ok == language_code(language@) is Some,
{
    let chars = chars_of(language);
    let trimmed = trim_chars(&chars);
    let key = ascii_lowercase_chars(&trimmed);
    if is_one_of(&key, "ja", "jp", "日语", "日文") {
        Ok("ja")
    } else if is_one_of(&key, "zh", "中文", "汉语", "漢語") {
        Ok("zh")
    } else if is_one_of(&key, "en", "english", "英语", "英文") {
        Ok("en")
    } else {
        let mut message = String::from_str("不支持的 TTS 参考语言: ");
        message.append(language);
        message.append("（请使用 ja、zh 或 en）");
        Err(message)
    }
}

/// `Path::join` on Unix (see `join_path`).
pub fn join_path_text(base: &[char], path: &[char]) -> (joined: Vec<char>)
    ensures
        joined@ == join_path(base@, path@),
{
    if path.len() > 0 && path[0] == '/' {
        assert(path@.subrange(0, 1) =~= seq!['/']);
        return concat_chars(&[], path);
    }
    proof {
        if starts_with(path@, seq!['/']) {
            assert(path@.subrange(0, 1)[0] == path@[0]);
        }
    }
    if base.len() == 0 || base[base.len() - 1] == '/' {
        concat_chars(base, path)
    } else {
        let with_sep = concat_chars(base, &['/']);
        let joined = concat_chars(&with_sep, path);
        assert(with_sep@ =~= base@ + seq!['/']);
        joined
    }
}

/// The path of the reference clip as the voice service must see it: taken
/// relative to `project_dir` unless it is absolute.
pub fn resolve_tts_reference_path(project_dir: &str, reference: &str) -> (path: String)
    ensures
        path@ == reference_path(project_dir@, reference@),
{
    let base = chars_of(project_dir);
    let reference = chars_of(reference);
    let trimmed = trim_chars(&reference);
    let joined = join_path_text(&base, &trimmed);
    string_from_chars(&joined)
}

/// Decide how a reply is to be spoken with the given settings: the trimmed
/// text goes to the local fallback voice when GPT-SoVITS is off, otherwise to
/// GPT-SoVITS with the reference clip, its transcript and its language; each
/// setting that is missing or wrong gives its own error.
pub fn plan_speech(text: &str, config: &AppConfig, project_dir: &str) -> (res: Result<
    SpeechPlan,
    String,
>)
    ensures
        res is Err == speech_error(text@, *config) is Some,
        res matches Err(e) ==> speech_error(text@, *config) == Some(e@),
        res matches Ok(SpeechPlan::Fallback { text: t, text_lang }) ==> !config.tts_enabled
            && t@ == trim(text@) && text_lang@ == text_language(trim(text@)),
        res matches Ok(SpeechPlan::GptSovits(req)) ==> {
            &&& config.tts_enabled
            &&& req.url@ == tts_url_text(config.tts_base_url@)
            &&& req.text@ == trim(text@)
            &&& req.text_lang@ == text_language(trim(text@))
            &&& req.ref_audio_path@ == reference_path(project_dir@, config.tts_ref_audio@)
            &&& req.prompt_text@ == config.tts_prompt_text@
            &&& language_code(config.tts_prompt_lang@) == Some(req.prompt_lang@)
        },
        res is Ok ==> (res matches Ok(SpeechPlan::Fallback { .. })) == !config.tts_enabled,
{
    let chars = chars_of(text);
    let trimmed = trim_chars(&chars);
    if trimmed.len() == 0 {
        return Err(String::from_str("TTS 文本为空"));
    }
    if trimmed.len() > MAX_TTS_CHARS {
        return Err(String::from_str("TTS 文本过长（最多 40000 个字符）"));
    }
    let spoken = string_from_chars(&trimmed);
    let text_lang = if contains_japanese(spoken.as_str()) {
        "ja"
    } else {
        "zh"
    };
    if !config.tts_enabled {
        return Ok(SpeechPlan::Fallback { text: spoken, text_lang });
    }
    let reference = trim_chars(&chars_of(config.tts_ref_audio.as_str()));
    let transcript = trim_chars(&chars_of(config.tts_prompt_text.as_str()));
    if reference.len() == 0 || transcript.len() == 0 {
        return Err(String::from_str("已启用加藤惠语音，但缺少 tts_ref_audio 或 tts_prompt_text 配置"));
    }
    let prompt_lang = match normalize_language(config.tts_prompt_lang.as_str()) {
        Ok(code) => code,
        Err(e) => return Err(e),
    };
    let ref_audio_path = resolve_tts_reference_path(project_dir, config.tts_ref_audio.as_str());
    let base = chars_of(config.tts_base_url.as_str());
    let mut url = string_from_chars(&trim_end_char_chars(&base, '/'));
    url.append("/tts");
    Ok(
        SpeechPlan::GptSovits(
            GptSovitsRequest {
                url,
                text: spoken,
                text_lang,
                ref_audio_path,
                prompt_text: config.tts_prompt_text.clone(),
                prompt_lang,
            },
        ),
    )
}

/// Whether `audio` starts like a WAV file: a RIFF container of type WAVE.
pub fn is_wav_audio(audio: &[u8]) -> (r: bool)
    ensures
        r == (audio@.len() >= 12 && audio@.subrange(0, 4) == seq![82u8, 73u8, 70u8, 70u8]
            && audio@.subrange(8, 12) == seq![87u8, 65u8, 86u8, 69u8]),
{
    if audio.len() < 12 {
        return false;
    }
    let r = audio[0] == 82 && audio[1] == 73 && audio[2] == 70 && audio[3] == 70 && audio[8] == 87
        && audio[9] == 65 && audio[10] == 86 && audio[11] == 69;
    proof {
        if r {
            assert(audio@.subrange(0, 4) =~= seq![82u8, 73u8, 70u8, 70u8]);
            assert(audio@.subrange(8, 12) =~= seq![87u8, 65u8, 86u8, 69u8]);
        } else {
            if audio@.subrange(0, 4) == seq![82u8, 73u8, 70u8, 70u8] && audio@.subrange(8, 12)
                == seq![87u8, 65u8, 86u8, 69u8] {
                assert(audio@.subrange(0, 4)[0] == audio@[0]);
                assert(audio@.subrange(0, 4)[1] == audio@[1]);
                assert(audio@.subrange(0, 4)[2] == audio@[2]);
                assert(audio@.subrange(0, 4)[3] == audio@[3]);
                assert(audio@.subrange(8, 12)[0] == audio@[8]);
                assert(audio@.subrange(8, 12)[1] == audio@[9]);
                assert(audio@.subrange(8, 12)[2] == audio@[10]);
                assert(audio@.subrange(8, 12)[3] == audio@[11]);
            }
        }
    }
    r
}

/// Accept what GPT-SoVITS sent back only when it is WAV audio.
pub fn check_gpt_sovits_audio(audio: Vec<u8>) -> (res: Result<Vec<u8>, String>)
    ensures
        res matches Ok(a) ==> a@ == audio@,
        res matches Err(e) ==> e@ == "GPT-SoVITS 未返回有效 WAV 音频，请检查服务日志和参考音频配置"@,
        res is Ok == (audio@.len() >= 12 && audio@.subrange(0, 4) == seq![82u8, 73u8, 70u8, 70u8]
            && audio@.subrange(8, 12) == seq![87u8, 65u8, 86u8, 69u8]),
{
    if is_wav_audio(&audio) {
        Ok(audio)
    } else {
        Err(String::from_str("GPT-SoVITS 未返回有效 WAV 音频，请检查服务日志和参考音频配置"))
    }
}

/// What the local fallback voice is given: the voice of the text's language
/// and the text cut to its first `MAX_FALLBACK_CHARS` characters.
pub struct FallbackSpeech {
    pub voice: &'static str,
    pub text: String,
}

/// The fallback voice's input for `text` in `text_lang`: Japanese for `ja`,
/// Chinese for anything else.
pub fn fallback_speech(text: &str, text_lang: &str) -> (speech: FallbackSpeech)
    ensures
        text_lang@ == "ja"@ ==> speech.voice@ == "ja"@,
        text_lang@ != "ja"@ ==> speech.voice@ == "zh"@,
        speech.text@ == take_chars(text@, MAX_FALLBACK_CHARS as nat),
{
    let lang = chars_of(text_lang);
    let voice = if chars_equal(&lang, &chars_of("ja")) {
        "ja"
    } else {
        "zh"
    };
    let chars = chars_of(text);
    let limited = take_chars_vec(&chars, MAX_FALLBACK_CHARS);
    FallbackSpeech { voice, text: string_from_chars(&limited) }
}

} // verus!
