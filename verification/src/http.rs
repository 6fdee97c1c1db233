//! The local HTTP server's decisions: which handler a request goes to, which
//! asset file a URL may name, how its path is percent-decoded, what content
//! type a file is served with, and how large a request body may be.
use vstd::prelude::*;
use vstd::string::*;
use vstd::utf8::{
    decode_utf8, encode_scalar, encode_utf8, encode_utf8_decode_utf8, encode_utf8_valid_utf8,
    valid_utf8,
};
use crate::stream::string_from_utf8;
use crate::text::{
    chars_equal, chars_of, copy_range, find, find_chars, lemma_find_from, lemma_find_from_is,
    lemma_find_from_none, occurs_at, string_from_chars,
    trim_start_char, trim_start_char_chars,
};

verus! {

/// The largest request body, in bytes, that the server reads.
pub const MAX_REQUEST_BYTES: usize = 524288;

/// The methods the server tells apart.
#[derive(PartialEq, Eq, Structural, Clone, Copy, Debug)]
pub enum HttpMethod {
    Get,
    Post,
    Other,
}

/// Where a request is handled.
#[derive(PartialEq, Eq, Structural, Clone, Copy, Debug)]
pub enum Route {
    /// Speech synthesis (`POST /tts`).
    Tts,
    /// A streamed chat reply (`POST /chat`).
    Chat,
    /// An asset file (any other `GET`).
    Static,
    /// Anything else, refused with 405.
    MethodNotAllowed,
}

/// The value of a hexadecimal digit.
pub open spec fn hex_value(b: u8) -> Option<u8> {
    if 48 <= b <= 57 {
        Some((b - 48) as u8)
    } else if 97 <= b <= 102 {
        Some((b - 97 + 10) as u8)
    } else if 65 <= b <= 70 {
        Some((b - 65 + 10) as u8)
    } else {
        None
    }
}

/// The bytes that a percent-encoded byte string stands for, or none when a
/// `%` is not followed by two hexadecimal digits.
pub open spec fn percent_decode_bytes(b: Seq<u8>) -> Option<Seq<u8>>
    decreases b.len(),
{
    if b.len() == 0 {
        Some(Seq::empty())
    } else if b[0] == 37u8 {
        if b.len() < 3 {
            None
        } else {
            match (hex_value(b[1]), hex_value(b[2]), percent_decode_bytes(b.skip(3))) {
                (Some(high), Some(low), Some(rest)) => Some(seq![(high * 16 + low) as u8] + rest),
                _ => None,
            }
        }
    } else {
        match percent_decode_bytes(b.skip(1)) {
            Some(rest) => Some(seq![b[0]] + rest),
            None => None,
        }
    }
}

/// The text a percent-encoded path stands for: its bytes decoded, when they
/// form valid UTF-8.
pub open spec fn percent_decoded(path: Seq<char>) -> Option<Seq<char>> {
    match percent_decode_bytes(encode_utf8(path)) {
        Some(bytes) => if valid_utf8(bytes) {
            Some(decode_utf8(bytes))
        } else {
            None
        },
        None => None,
    }
}

/// The path part of a request URL: everything before the first `?`.
pub open spec fn request_path(url: Seq<char>) -> Seq<char> {
    match find(url, seq!['?']) {
        Some(i) => url.take(i),
        None => url,
    }
}

/// `s` has a `..` component: two dots standing between separators or the
/// ends of `s`.
pub open spec fn has_parent_component(s: Seq<char>) -> bool {
    exists|i: int|
        0 <= i && i + 2 <= s.len() && #[trigger] s[i] == '.' && s[i + 1] == '.' && (i == 0 || s[i
            - 1] == '/') && (i + 2 == s.len() || s[i + 2] == '/')
}

/// The asset path, relative to the asset root, that a request URL names: the
/// decoded path without leading slashes, `index.html` for the root; none when
/// the path does not decode, holds a backslash, or climbs with `..`.
pub open spec fn static_relative(url: Seq<char>) -> Option<Seq<char>> {
    match percent_decoded(request_path(url)) {
        None => None,
        Some(decoded) => if decoded.contains('\\') {
            None
        } else {
            let stripped = trim_start_char(decoded, '/');
            let relative = if stripped.len() == 0 {
                "index.html"@
            } else {
                stripped
            };
            if has_parent_component(relative) {
                None
            } else {
                Some(relative)
            }
        },
    }
}

/// Where a request with this URL and method is handled.
pub open spec fn route_of(url: Seq<char>, method: HttpMethod) -> Route {
    let path = request_path(url);
    if path == "/tts"@ && method == HttpMethod::Post {
        Route::Tts
    } else if path == "/chat"@ && method == HttpMethod::Post {
        Route::Chat
    } else if method == HttpMethod::Get {
        Route::Static
    } else {
        Route::MethodNotAllowed
    }
}

/// The index of the last `c` in `s`.
pub open spec fn last_index_of(s: Seq<char>, c: char) -> Option<int>
    decreases s.len(),
{
    if s.len() == 0 {
        None
    } else if s.last() == c {
        Some(s.len() - 1)
    } else {
        last_index_of(s.drop_last(), c)
    }
}

/// The extension of a file name (`Path::extension`): what follows its last
/// dot, unless it has none, its only dot leads it, or it is `..`.
pub open spec fn extension_of(name: Seq<char>) -> Option<Seq<char>> {
    if name == ".."@ {
        None
    } else {
        match last_index_of(name, '.') {
            None => None,
            Some(i) => if i == 0 {
                None
            } else {
                Some(name.skip(i + 1))
            },
        }
    }
}

/// The content type served for a file extension.
pub open spec fn content_type_of(extension: Option<Seq<char>>) -> Seq<char> {
    match extension {
        Some(e) => if e == "html"@ {
            "text/html; charset=utf-8"@
        } else if e == "js"@ {
            "application/javascript; charset=utf-8"@
        } else if e == "css"@ {
            "text/css; charset=utf-8"@
        } else if e == "json"@ {
            "application/json; charset=utf-8"@
        } else if e == "png"@ {
            "image/png"@
        } else if e == "jpg"@ || e == "jpeg"@ {
            "image/jpeg"@
        } else if e == "gif"@ {
            "image/gif"@
        } else if e == "wav"@ {
            "audio/wav"@
        } else if e == "ogg"@ {
            "audio/ogg"@
        } else if e == "mp3"@ {
            "audio/mpeg"@
        } else {
            "application/octet-stream"@
        },
        None => "application/octet-stream"@,
    }
}

/// Each known extension is served with its own type: `html` as HTML, `js`
/// as JavaScript, `css` as CSS, `json` as JSON, `png`, `jpg`/`jpeg` and `gif`
/// as images, `wav`, `ogg` and `mp3` as audio; the text types in UTF-8.
pub proof fn lemma_content_type_table()
    ensures
        content_type_of(Some("html"@)) == "text/html; charset=utf-8"@,
        content_type_of(Some("js"@)) == "application/javascript; charset=utf-8"@,
        content_type_of(Some("css"@)) == "text/css; charset=utf-8"@,
        content_type_of(Some("json"@)) == "application/json; charset=utf-8"@,
        content_type_of(Some("png"@)) == "image/png"@,
        content_type_of(Some("jpg"@)) == "image/jpeg"@,
        content_type_of(Some("jpeg"@)) == "image/jpeg"@,
        content_type_of(Some("gif"@)) == "image/gif"@,
        content_type_of(Some("wav"@)) == "audio/wav"@,
        content_type_of(Some("ogg"@)) == "audio/ogg"@,
        content_type_of(Some("mp3"@)) == "audio/mpeg"@,
        content_type_of(None) == "application/octet-stream"@,
{
    reveal_strlit("html");
    reveal_strlit("js");
    reveal_strlit("css");
    reveal_strlit("json");
    reveal_strlit("png");
    reveal_strlit("jpg");
    reveal_strlit("jpeg");
    reveal_strlit("gif");
    reveal_strlit("wav");
    reveal_strlit("ogg");
    reveal_strlit("mp3");
    assert("html"@.len() == 4 && "js"@.len() == 2 && "css"@.len() == 3 && "json"@.len() == 4
        && "png"@.len() == 3 && "jpg"@.len() == 3 && "jpeg"@.len() == 4 && "gif"@.len() == 3
        && "wav"@.len() == 3 && "ogg"@.len() == 3 && "mp3"@.len() == 3);
    assert("json"@[0] != "html"@[0]);
    assert("png"@[0] != "css"@[0]);
    assert("jpg"@[0] != "css"@[0]);
    assert("jpg"@[0] != "png"@[0]);
    assert("jpeg"@[0] != "html"@[0]);
    assert("jpeg"@[1] != "json"@[1]);
    assert("gif"@[0] != "css"@[0]);
    assert("gif"@[0] != "png"@[0]);
    assert("gif"@[0] != "jpg"@[0]);
    assert("wav"@[0] != "css"@[0]);
    assert("wav"@[0] != "png"@[0]);
    assert("wav"@[0] != "jpg"@[0]);
    assert("wav"@[0] != "gif"@[0]);
    assert("ogg"@[0] != "css"@[0]);
    assert("ogg"@[0] != "png"@[0]);
    assert("ogg"@[0] != "jpg"@[0]);
    assert("ogg"@[0] != "gif"@[0]);
    assert("ogg"@[0] != "wav"@[0]);
    assert("mp3"@[0] != "css"@[0]);
    assert("mp3"@[0] != "png"@[0]);
    assert("mp3"@[0] != "jpg"@[0]);
    assert("mp3"@[0] != "gif"@[0]);
    assert("mp3"@[0] != "wav"@[0]);
    assert("mp3"@[0] != "ogg"@[0]);
}

/// A file name made of a non-empty stem, a dot and a dot-free extension has
/// that extension (`live2d.min.css` has `css`), and is served with the type
/// of that extension.
pub proof fn lemma_extension_of_name(stem: Seq<char>, ext: Seq<char>)
    requires
        stem.len() > 0,
        !ext.contains('.'),
        stem + seq!['.'] + ext != ".."@,
    ensures
        extension_of(stem + seq!['.'] + ext) == Some(ext),
        content_type_of(extension_of(stem + seq!['.'] + ext)) == content_type_of(Some(ext)),
{
    let name = stem + seq!['.'] + ext;
    lemma_last_dot(stem + seq!['.'], ext);
    assert(name.skip(stem.len() as int + 1) =~= ext);
}

/// The last dot of `a + b`, where `a` ends with a dot and `b` has none, is the
/// last character of `a`.
proof fn lemma_last_dot(a: Seq<char>, b: Seq<char>)
    requires
        a.len() > 0,
        a.last() == '.',
        !b.contains('.'),
    ensures
        last_index_of(a + b, '.') == Some(a.len() - 1),
    decreases b.len(),
{
    if b.len() == 0 {
        assert(a + b =~= a);
    } else {
        assert(b.last() != '.') by {
            assert(b[b.len() - 1] == b.last());
        }
        assert(!b.drop_last().contains('.')) by {
            if b.drop_last().contains('.') {
                let k = choose|k: int| 0 <= k < b.drop_last().len() && b.drop_last()[k] == '.';
                assert(b[k] == '.');
            }
        }
        lemma_last_dot(a, b.drop_last());
        assert((a + b).drop_last() =~= a + b.drop_last());
    }
}

/// Hexadecimal digits in either case have their values: `0`–`9` are 0–9,
/// `a`–`f` and `A`–`F` are 10–15; any other byte is no digit.
pub proof fn lemma_hex_digits(d: u8)
    ensures
        d < 10 ==> hex_value((48 + d) as u8) == Some(d),
        d < 6 ==> hex_value((97 + d) as u8) == Some((10 + d) as u8),
        d < 6 ==> hex_value((65 + d) as u8) == Some((10 + d) as u8),
        hex_value(d) matches Some(v) ==> v < 16,
        hex_value(37u8) is None && hex_value(47u8) is None && hex_value(58u8) is None
            && hex_value(71u8) is None && hex_value(103u8) is None,
{
}

/// An escape `%XY` stands for the byte with hexadecimal value `XY`, followed
/// by whatever the rest decodes to; and a cut-short escape spoils the path.
pub proof fn lemma_percent_escape(high: u8, low: u8, rest: Seq<u8>)
    ensures
        hex_value(high) matches Some(h) ==> hex_value(low) matches Some(l) ==> percent_decode_bytes(
            seq![37u8, high, low] + rest,
        ) == match percent_decode_bytes(rest) {
            Some(r) => Some(seq![(h * 16 + l) as u8] + r),
            None => None,
        },
        percent_decode_bytes(seq![37u8]) is None,
        percent_decode_bytes(seq![37u8, high]) is None,
        hex_value(high) is None ==> percent_decode_bytes(seq![37u8, high, low] + rest) is None,
        hex_value(low) is None ==> percent_decode_bytes(seq![37u8, high, low] + rest) is None,
{
    let b = seq![37u8, high, low] + rest;
    assert(b.skip(3) =~= rest);
    assert(b[0] == 37u8 && b[1] == high && b[2] == low);
}

/// The query of a URL plays no part in its path: `p?q` has the path `p`
/// whenever `p` has no `?`, and a URL without `?` is all path.
pub proof fn lemma_request_path_drops_query(path: Seq<char>, query: Seq<char>)
    requires
        !path.contains('?'),
    ensures
        request_path(path) == path,
        request_path(path + seq!['?'] + query) == path,
        route_of(path + seq!['?'] + query, HttpMethod::Post) == route_of(path, HttpMethod::Post),
        route_of(path + seq!['?'] + query, HttpMethod::Get) == route_of(path, HttpMethod::Get),
{
    let url = path + seq!['?'] + query;
    let n = path.len() as int;
    lemma_find_from(path, seq!['?'], 0);
    assert forall|j: int| 0 <= j < n implies !occurs_at(url, seq!['?'], j) by {
        if occurs_at(url, seq!['?'], j) {
            assert(url.subrange(j, j + 1)[0] == url[j]);
            assert(path[j] == '?');
        }
    }
    assert forall|j: int| 0 <= j implies !occurs_at(path, seq!['?'], j) by {
        if occurs_at(path, seq!['?'], j) {
            assert(path.subrange(j, j + 1)[0] == path[j]);
        }
    }
    lemma_find_from_none(path, seq!['?'], 0);
    assert(url.subrange(n, n + 1) =~= seq!['?']);
    lemma_find_from_is(url, seq!['?'], 0, n);
    assert(url.take(n) =~= path);
}

/// Speech and chat are reached by `POST` alone; every `GET` asks for an asset,
/// and any other method is refused.
pub proof fn lemma_routes()
    ensures
        route_of("/tts"@, HttpMethod::Post) == Route::Tts,
        route_of("/chat"@, HttpMethod::Post) == Route::Chat,
        forall|url: Seq<char>| route_of(url, HttpMethod::Get) == Route::Static,
        forall|url: Seq<char>| route_of(url, HttpMethod::Other) == Route::MethodNotAllowed,
{
    reveal_strlit("/tts");
    reveal_strlit("/chat");
    assert(!"/tts"@.contains('?'));
    assert(!"/chat"@.contains('?'));
    lemma_request_path_drops_query("/tts"@, Seq::empty());
    lemma_request_path_drops_query("/chat"@, Seq::empty());
}

/// The value of a hexadecimal digit.
fn hex_digit(byte: u8) -> (v: Option<u8>)
    ensures
        v == hex_value(byte),
{
    if 48 <= byte && byte <= 57 {
        Some(byte - 48)
    } else if 97 <= byte && byte <= 102 {
        Some(byte - 97 + 10)
    } else if 65 <= byte && byte <= 70 {
        Some(byte - 65 + 10)
    } else {
        None
    }
}

/// Decode the percent-escapes of a URL path; none when an escape is cut short
/// or not hexadecimal, or when the decoded bytes are not UTF-8.
pub fn percent_decode_path(path: &str) -> (res: Option<String>)
    ensures
        res is Some == percent_decoded(path@) is Some,
        res matches Some(s) ==> percent_decoded(path@) == Some(s@),
{
    let bytes = path.as_bytes();
    let ghost b = bytes@;
    assert(b == encode_utf8(path@));
    let mut decoded: Vec<u8> = Vec::new();
    let mut index: usize = 0;
    assert(b.skip(0) =~= b);
    while index < bytes.len()
        invariant
            bytes@ == b,
            b == encode_utf8(path@),
            index <= b.len(),
            percent_decode_bytes(b) == match percent_decode_bytes(b.skip(index as int)) {
                Some(rest) => Some(decoded@ + rest),
                None => None,
            },
        decreases b.len() - index,
    {
        let ghost tail = b.skip(index as int);
        assert(tail.len() > 0 && tail[0] == bytes@[index as int]);
        if bytes[index] == 37 {
            if bytes.len() - index < 3 {
                return None;
            }
            assert(tail[1] == bytes@[index + 1] && tail[2] == bytes@[index + 2]);
            let high = match hex_digit(bytes[index + 1]) {
                Some(h) => h,
                None => return None,
            };
            let low = match hex_digit(bytes[index + 2]) {
                Some(l) => l,
                None => return None,
            };
            let ghost prev = decoded@;
            decoded.push(high * 16 + low);
            assert(tail.skip(3) =~= b.skip(index + 3));
            proof {
                match percent_decode_bytes(tail.skip(3)) {
                    Some(rest) => {
                        assert(decoded@ + rest =~= prev + (seq![(high * 16 + low) as u8] + rest));
                    },
                    None => {},
                }
            }
            index += 3;
        } else {
            let ghost prev = decoded@;
            decoded.push(bytes[index]);
            assert(tail.skip(1) =~= b.skip(index + 1));
            proof {
                match percent_decode_bytes(tail.skip(1)) {
                    Some(rest) => {
                        assert(decoded@ + rest =~= prev + (seq![tail[0]] + rest));
                    },
                    None => {},
                }
            }
            index += 1;
        }
    }
    assert(b.skip(index as int) =~= Seq::<u8>::empty());
    assert(decoded@ + Seq::<u8>::empty() =~= decoded@);
    string_from_utf8(decoded)
}

/// The bytes of an encoded character are never `%` unless the character is.
proof fn lemma_scalar_bytes_not_percent(c: char)
    requires
        c != '%',
    ensures
        forall|k: int| 0 <= k < encode_scalar(c as u32).len() ==> #[trigger] encode_scalar(
            c as u32,
        )[k] != 37u8,
{
    let v = c as u32;
    assert(forall|y: u8| (0xC0u8 | y) >= 0xC0u8) by (bit_vector);
    assert(forall|y: u8| (0xE0u8 | y) >= 0xE0u8) by (bit_vector);
    assert(forall|y: u8| (0xF0u8 | y) >= 0xF0u8) by (bit_vector);
    assert(forall|y: u8| (0x80u8 | y) >= 0x80u8) by (bit_vector);
    if v <= 0x7F {
        assert((v & 0x7F) == v) by (bit_vector)
            requires
                v <= 0x7F,
        ;
    }
}

/// The UTF-8 bytes of a text without `%` hold no byte `%`.
proof fn lemma_encoding_without_percent(s: Seq<char>)
    requires
        !s.contains('%'),
    ensures
        !encode_utf8(s).contains(37u8),
    decreases s.len(),
{
    if s.len() > 0 {
        assert(s[0] != '%');
        lemma_scalar_bytes_not_percent(s[0]);
        assert(!s.drop_first().contains('%')) by {
            if s.drop_first().contains('%') {
                let k = choose|k: int| 0 <= k < s.drop_first().len() && s.drop_first()[k] == '%';
                assert(s[k + 1] == '%');
            }
        }
        lemma_encoding_without_percent(s.drop_first());
        let head = encode_scalar(s[0] as u32);
        let rest = encode_utf8(s.drop_first());
        assert(encode_utf8(s) == head + rest);
        if (head + rest).contains(37u8) {
            let k = choose|k: int| 0 <= k < (head + rest).len() && (head + rest)[k] == 37u8;
            if k < head.len() {
                assert(head[k] == 37u8);
            } else {
                assert(rest[k - head.len()] == 37u8);
            }
        }
    }
}

/// Bytes without `%` decode to themselves.
proof fn lemma_decode_without_percent(b: Seq<u8>)
    requires
        !b.contains(37u8),
    ensures
        percent_decode_bytes(b) == Some(b),
    decreases b.len(),
{
    if b.len() > 0 {
        assert(b[0] != 37u8);
        assert(!b.skip(1).contains(37u8)) by {
            if b.skip(1).contains(37u8) {
                let k = choose|k: int| 0 <= k < b.skip(1).len() && b.skip(1)[k] == 37u8;
                assert(b[k + 1] == 37u8);
            }
        }
        lemma_decode_without_percent(b.skip(1));
        assert(seq![b[0]] + b.skip(1) =~= b);
    }
}

/// A path without percent escapes decodes to itself.
pub proof fn lemma_plain_path_decodes_to_itself(path: Seq<char>)
    requires
        !path.contains('%'),
    ensures
        percent_decoded(path) == Some(path),
{
    lemma_encoding_without_percent(path);
    lemma_decode_without_percent(encode_utf8(path));
    encode_utf8_valid_utf8(path);
    encode_utf8_decode_utf8(path);
}

/// The path part of a request URL (before the first `?`).
pub fn url_path(url: &str) -> (path: Vec<char>)
    ensures
        path@ == request_path(url@),
{
    let chars = chars_of(url);
    let question = vec!['?'];
    assert(question@ =~= seq!['?']);
    match find_chars(&chars, &question) {
        Some(i) => {
            proof {
                lemma_find_from(chars@, question@, 0);
            }
            let p = copy_range(&chars, 0, i);
            assert(p@ =~= chars@.take(i as int));
            p
        },
        None => chars,
    }
}

/// Whether `s` has a `..` component.
fn has_parent_dir(s: &[char]) -> (r: bool)
    ensures
        r == has_parent_component(s@),
{
    let mut i: usize = 0;
    while s.len() >= 2 && i <= s.len() - 2
        invariant
            s@.len() == s.len(),
            forall|k: int|
                0 <= k < i ==> !(k + 2 <= s@.len() && #[trigger] s@[k] == '.' && s@[k + 1] == '.'
                    && (k == 0 || s@[k - 1] == '/') && (k + 2 == s@.len() || s@[k + 2] == '/')),
        decreases s.len() - i,
    {
        if s[i] == '.' && s[i + 1] == '.' && (i == 0 || s[i - 1] == '/') && (i + 2 == s.len()
            || s[i + 2] == '/') {
            return true;
        }
        i += 1;
    }
    false
}

/// The asset path, relative to the asset root, that a request URL may name
/// (see `static_relative`); the server then resolves it inside the root.
pub fn static_relative_path(url: &str) -> (res: Option<String>)
    ensures
        res is Some == static_relative(url@) is Some,
        res matches Some(p) ==> static_relative(url@) == Some(p@),
{
    let raw = url_path(url);
    let raw = string_from_chars(&raw);
    let decoded = match percent_decode_path(raw.as_str()) {
        Some(d) => d,
        None => return None,
    };
    let chars = chars_of(decoded.as_str());
    let mut i: usize = 0;
    while i < chars.len()
        invariant
            chars@ == decoded@,
            percent_decoded(request_path(url@)) == Some(decoded@),
            i <= chars@.len(),
            forall|k: int| 0 <= k < i ==> chars@[k] != '\\',
        decreases chars.len() - i,
    {
        if chars[i] == '\\' {
            assert(chars@[i as int] == '\\');
            assert(chars@.contains('\\'));
            return None;
        }
        i += 1;
    }
    assert(!chars@.contains('\\'));
    let stripped = trim_start_char_chars(&chars, '/');
    let relative = if stripped.len() == 0 {
        chars_of("index.html")
    } else {
        stripped
    };
    if has_parent_dir(&relative) {
        None
    } else {
        Some(string_from_chars(&relative))
    }
}

/// A path taken from a URL never climbs out of the asset root: it has no
/// `..` component, does not start at the file-system root and holds no
/// backslash.
pub proof fn lemma_static_path_stays_inside(url: Seq<char>)
    ensures
        static_relative(url) matches Some(relative) ==> {
            &&& !has_parent_component(relative)
            &&& relative.len() > 0
            &&& relative[0] != '/'
            &&& !relative.contains('\\')
        },
{
    reveal_strlit("index.html");
    if let Some(decoded) = percent_decoded(request_path(url)) {
        if !decoded.contains('\\') {
            lemma_trim_start_char_first(decoded, '/');
            let stripped = trim_start_char(decoded, '/');
            lemma_trim_start_char_suffix(decoded, '/');
            if stripped.contains('\\') {
                let k = choose|k: int| 0 <= k < stripped.len() && stripped[k] == '\\';
                assert(decoded[k + decoded.len() - stripped.len()] == '\\');
            }
        }
    }
}

/// `trim_start_char` leaves no leading `c`.
proof fn lemma_trim_start_char_first(s: Seq<char>, c: char)
    ensures
        trim_start_char(s, c).len() > 0 ==> trim_start_char(s, c)[0] != c,
    decreases s.len(),
{
    if s.len() > 0 && s[0] == c {
        lemma_trim_start_char_first(s.drop_first(), c);
    }
}

/// `trim_start_char` keeps a suffix of its input.
proof fn lemma_trim_start_char_suffix(s: Seq<char>, c: char)
    ensures
        trim_start_char(s, c).len() <= s.len(),
        trim_start_char(s, c) == s.skip(s.len() - trim_start_char(s, c).len()),
    decreases s.len(),
{
    if s.len() > 0 && s[0] == c {
        lemma_trim_start_char_suffix(s.drop_first(), c);
        assert(s.drop_first().skip(s.drop_first().len() - trim_start_char(s, c).len()) =~= s.skip(
            s.len() - trim_start_char(s, c).len(),
        ));
    } else {
        assert(s.skip(0) =~= s);
    }
}

/// Where a request is handled: speech and chat take `POST`, every other `GET`
/// asks for an asset file, and anything else is refused.
pub fn route_request(url: &str, method: HttpMethod) -> (route: Route)
    ensures
        route == route_of(url@, method),
{
    let path = url_path(url);
    if chars_equal(&path, &chars_of("/tts")) && method == HttpMethod::Post {
        Route::Tts
    } else if chars_equal(&path, &chars_of("/chat")) && method == HttpMethod::Post {
        Route::Chat
    } else if method == HttpMethod::Get {
        Route::Static
    } else {
        Route::MethodNotAllowed
    }
}

/// The extension of a file name (`Path::extension`).
pub fn file_extension(name: &str) -> (ext: Option<Vec<char>>)
    ensures
        ext is Some == extension_of(name@) is Some,
        ext matches Some(e) ==> extension_of(name@) == Some(e@),
{
    let chars = chars_of(name);
    if chars_equal(&chars, &chars_of("..")) {
        return None;
    }
    let mut j: usize = chars.len();
    assert(chars@.take(chars@.len() as int) =~= chars@);
    while j > 0 && chars[j - 1] != '.'
        invariant
            j <= chars@.len(),
            last_index_of(chars@, '.') == last_index_of(chars@.take(j as int), '.'),
        decreases j,
    {
        assert(chars@.take(j as int).drop_last() =~= chars@.take(j - 1));
        j -= 1;
    }
    proof {
        assert(chars@.take(chars@.len() as int) =~= chars@);
    }
    if j <= 1 {
        None
    } else {
        Some(copy_range(&chars, j, chars.len()))
    }
}

/// The content type an asset file is served with, by the extension of its
/// file name (none when the path has no file name).
pub fn content_type_for(file_name: Option<&str>) -> (content_type: &'static str)
    ensures
        file_name is None ==> content_type@ == "application/octet-stream"@,
        file_name matches Some(name) ==> content_type@ == content_type_of(extension_of(name@)),
{
    let ext = match file_name {
        Some(name) => file_extension(name),
        None => return "application/octet-stream",
    };
    match ext {
        Some(e) => {
            if chars_equal(&e, &chars_of("html")) {
                "text/html; charset=utf-8"
            } else if chars_equal(&e, &chars_of("js")) {
                "application/javascript; charset=utf-8"
            } else if chars_equal(&e, &chars_of("css")) {
                "text/css; charset=utf-8"
            } else if chars_equal(&e, &chars_of("json")) {
                "application/json; charset=utf-8"
            } else if chars_equal(&e, &chars_of("png")) {
                "image/png"
            } else if chars_equal(&e, &chars_of("jpg")) || chars_equal(&e, &chars_of("jpeg")) {
                "image/jpeg"
            } else if chars_equal(&e, &chars_of("gif")) {
                "image/gif"
            } else if chars_equal(&e, &chars_of("wav")) {
                "audio/wav"
            } else if chars_equal(&e, &chars_of("ogg")) {
                "audio/ogg"
            } else if chars_equal(&e, &chars_of("mp3")) {
                "audio/mpeg"
            } else {
                "application/octet-stream"
            }
        },
        None => "application/octet-stream",
    }
}

/// Accept a request body of at most `MAX_REQUEST_BYTES` bytes.
pub fn check_request_body(body: String) -> (res: Result<String, String>)
    ensures
        res is Ok == (encode_utf8(body@).len() <= MAX_REQUEST_BYTES),
        res matches Ok(b) ==> b@ == body@,
        res matches Err(e) ==> e@ == "请求体过大（最多 524288 字节）"@,
{
    if body.as_str().as_bytes().len() > MAX_REQUEST_BYTES {
        Err(String::from_str("请求体过大（最多 524288 字节）"))
    } else {
        Ok(body)
    }
}

} // verus!
