//! The streamed chat reply: server-sent lines are cut from the byte stream,
//! their text deltas gathered into the answer, and only the part of the answer
//! that can never turn out to belong to an identity-update block is passed on
//! to the chat window.
use vstd::prelude::*;
use vstd::string::*;
use vstd::utf8::{
    decode_utf8, decode_utf8_split, encode_utf8, encode_utf8_valid_utf8, is_ascii_chars_encode_utf8, is_char_boundary,
    is_char_boundary_iff_not_is_continuation_byte, is_char_boundary_start_end_of_seq,
    is_continuation_byte, valid_utf8, valid_utf8_concat, valid_utf8_split,
};
use crate::identity::IDENTITY_OPEN;
use crate::text::{
    chars_equal, chars_of, find, find_bytes, lemma_find_from, lemma_find_from_is,
    lemma_find_from_none, occurs_at, strip_prefix, strip_prefix_chars, string_from_chars, trim,
    trim_chars, is_white_space, lemma_trim_end_take, lemma_trim_fixed, lemma_trim_start_skip, lemma_trim_padded, lemma_trimmed_ends,
};

verus! {

/// The prefix of a server-sent line that carries data.
pub const DATA_PREFIX: &'static str = "data: ";

/// The data that ends a chat stream.
pub const DONE_MARKER: &'static str = "[DONE]";

/// The UTF-8 bytes of the identity-block opening marker.
pub open spec fn marker_bytes() -> Seq<u8> {
    encode_utf8(IDENTITY_OPEN@)
}

/// How many bytes at the end of the answer are held back while no marker is
/// seen: one less than the marker, so that a marker split across network
/// chunks is never shown in part.
pub open spec fn hold_len() -> int {
    marker_bytes().len() - 1
}

/// `i` starts a character of the UTF-8 text `b`, or is its end.
pub open spec fn at_char_start(b: Seq<u8>, i: int) -> bool {
    i == 0 || i == b.len() || (0 < i < b.len() && !is_continuation_byte(b[i]))
}

/// The last index at or before `i` that starts a character of `b` (or `i`
/// itself when it is at or past the end).
pub open spec fn prev_char_boundary(b: Seq<u8>, i: int) -> int
    decreases i,
{
    if i <= 0 || i >= b.len() || !is_continuation_byte(b[i]) {
        i
    } else {
        prev_char_boundary(b, i - 1)
    }
}

/// How far the answer may be shown: up to the marker when one has arrived,
/// otherwise up to the last character start before the held-back tail.
pub open spec fn streamable_end(answer: Seq<u8>) -> int {
    match find(answer, marker_bytes()) {
        Some(p) => p,
        None => prev_char_boundary(
            answer,
            if answer.len() >= hold_len() {
                answer.len() - hold_len()
            } else {
                0
            },
        ),
    }
}

/// Where the shown part of the answer ends after a delta: it moves up to what
/// may now be shown, and never back.
pub open spec fn next_emitted(answer: Seq<u8>, emitted: int) -> int {
    if streamable_end(answer) > emitted {
        streamable_end(answer)
    } else {
        emitted
    }
}

/// The text newly shown after a delta, if any.
pub open spec fn newly_shown(answer: Seq<u8>, emitted: int) -> Option<Seq<char>> {
    if streamable_end(answer) > emitted {
        Some(decode_utf8(answer.subrange(emitted, streamable_end(answer))))
    } else {
        None
    }
}

/// The characters of an optional string.
pub open spec fn text_view(text: Option<String>) -> Option<Seq<char>> {
    match text {
        Some(t) => Some(t@),
        None => None,
    }
}

/// The data of a server-sent line worth reading: the trimmed line without
/// its `data: ` prefix, unless it is empty, not a data line, or the end
/// marker.
pub open spec fn sse_data(line: Seq<char>) -> Option<Seq<char>> {
    let data = match strip_prefix(trim(line), DATA_PREFIX@) {
        Some(d) => d,
        None => Seq::empty(),
    };
    if data.len() == 0 || data == DONE_MARKER@ {
        None
    } else {
        Some(data)
    }
}

/// A data line carries its payload: `data: X` gives `X` (with white space
/// around the line ignored) unless `X` is empty or the end marker; and a line
/// that is not a data line gives nothing.
pub proof fn lemma_sse_data_line(payload: Seq<char>, pre: Seq<char>, post: Seq<char>)
    requires
        trim(payload) == payload,
        payload.len() > 0,
        forall|k: int| 0 <= k < pre.len() ==> is_white_space(#[trigger] pre[k]),
        forall|k: int| 0 <= k < post.len() ==> is_white_space(#[trigger] post[k]),
    ensures
        sse_data(pre + DATA_PREFIX@ + payload + post) == if payload == DONE_MARKER@ {
            None
        } else {
            Some(payload)
        },
        sse_data(DATA_PREFIX@) is None,
{
    reveal_strlit("data: ");
    let line = DATA_PREFIX@ + payload;
    lemma_trimmed_ends(payload);
    assert(line[0] == 'd');
    assert(line.last() == payload.last());
    lemma_trim_fixed(line);
    assert(pre + DATA_PREFIX@ + payload + post == pre + line + post);
    lemma_trim_padded(pre, line, post);
    assert(line.subrange(0, 6) =~= DATA_PREFIX@);
    assert(line.subrange(6, line.len() as int) =~= payload);
    let d = DATA_PREFIX@;
    assert(!is_white_space(d[0]));
    lemma_trim_start_skip(d, 0);
    assert(d.skip(0) =~= d);
    assert(is_white_space(d[5]));
    lemma_trim_end_take(d, 5);
    assert(trim(d).len() == 5);
}

/// The text delta (`choices[0].delta.content`, when it is a string) of a
/// chat-completion chunk, as serde_json reads the JSON text `data`.
pub uninterp spec fn chat_delta_of(data: Seq<char>) -> Option<Seq<char>>;

/// Reads the text delta of one chat-completion chunk.
///
/// Trusted: parses `data` with `serde_json::from_str` into a
/// `serde_json::Value` and reads `["choices"][0]["delta"]["content"]` as a
/// string; the result is a function of `data` alone, named
/// `chat_delta_of`. What JSON text yields which delta is not stated here.
#[verifier::external_body]
fn parse_chat_delta(data: &str) -> (res: Option<String>)
    ensures
        res is Some == chat_delta_of(data@) is Some,
        res matches Some(c) ==> chat_delta_of(data@) == Some(c@),
{
    let value: serde_json::Value = serde_json::from_str(data).ok()?;
    value["choices"][0]["delta"]["content"].as_str().map(|s| s.to_string())
}

/// The string whose UTF-8 encoding is `bytes`, if they are valid UTF-8.
///
/// Trusted: `String::from_utf8` returns `Ok` exactly when the bytes are valid
/// UTF-8, and then the string holds those bytes, that is the characters they
/// decode to.
#[verifier::external_body]
pub(crate) fn string_from_utf8(bytes: Vec<u8>) -> (res: Option<String>)
    ensures
        res is Some <==> valid_utf8(bytes@),
        res matches Some(s) ==> s@ == decode_utf8(bytes@),
{
    String::from_utf8(bytes).ok()
}

/// The marker's bytes are its 17 ASCII characters, the first being `<`.
pub proof fn lemma_marker_bytes()
    ensures
        marker_bytes().len() == 17,
        marker_bytes()[0] == 60u8,
        hold_len() == 16,
{
    reveal_strlit("<identity_update>");
    is_ascii_chars_encode_utf8(IDENTITY_OPEN@);
}

proof fn lemma_prev_char_boundary(b: Seq<u8>, i: int)
    requires
        0 <= i <= b.len(),
    ensures
        0 <= prev_char_boundary(b, i) <= i,
        at_char_start(b, prev_char_boundary(b, i)),
    decreases i,
{
    if !(i <= 0 || i >= b.len() || !is_continuation_byte(b[i])) {
        lemma_prev_char_boundary(b, i - 1);
    }
}

/// A valid UTF-8 text cut at two character starts is valid UTF-8 between them.
proof fn lemma_valid_between(b: Seq<u8>, e: int, s: int)
    requires
        valid_utf8(b),
        0 <= e <= s <= b.len(),
        at_char_start(b, e),
        at_char_start(b, s),
    ensures
        valid_utf8(b.subrange(e, s)),
{
    is_char_boundary_start_end_of_seq(b);
    if 0 < s < b.len() {
        is_char_boundary_iff_not_is_continuation_byte(b, s);
    }
    assert(is_char_boundary(b, s));
    valid_utf8_split(b, s);
    let prefix = b.subrange(0, s);
    is_char_boundary_start_end_of_seq(prefix);
    if 0 < e < s {
        is_char_boundary_iff_not_is_continuation_byte(prefix, e);
    }
    assert(is_char_boundary(prefix, e));
    valid_utf8_split(prefix, e);
    assert(prefix.subrange(e, s) =~= b.subrange(e, s));
}

/// A non-empty valid UTF-8 text starts with a character's first byte.
proof fn lemma_valid_utf8_first_byte(b: Seq<u8>)
    requires
        valid_utf8(b),
        b.len() > 0,
    ensures
        !is_continuation_byte(b[0]),
{
    is_char_boundary_start_end_of_seq(b);
    is_char_boundary_iff_not_is_continuation_byte(b, 0);
}

/// The answer of a chat stream as it arrives, and how much of it has been
/// shown.
pub struct StreamState {
    answer: Vec<u8>,
    emitted: usize,
}

impl StreamState {
    /// The UTF-8 bytes of the answer gathered so far.
    pub closed spec fn answer(&self) -> Seq<u8> {
        self.answer@
    }

    /// How many bytes of the answer have been shown.
    pub closed spec fn emitted(&self) -> int {
        self.emitted as int
    }

    /// The answer is valid UTF-8, the shown part ends at a character start,
    /// and it never reaches the marker: not a marker that has arrived, nor
    /// the held-back tail where one may still be arriving.
    pub closed spec fn wf(&self) -> bool {
        &&& valid_utf8(self.answer@)
        &&& self.emitted <= self.answer@.len()
        &&& at_char_start(self.answer@, self.emitted as int)
        &&& match find(self.answer@, marker_bytes()) {
            Some(p) => self.emitted <= p,
            None => self.emitted == 0 || self.emitted + hold_len() <= self.answer@.len(),
        }
    }

    /// A stream with nothing received yet.
    pub fn new() -> (st: StreamState)
        ensures
            st.wf(),
            st.answer() == Seq::<u8>::empty(),
            st.emitted() == 0,
    {
        let st = StreamState { answer: Vec::new(), emitted: 0 };
        proof {
            lemma_find_from(st.answer@, marker_bytes(), 0);
        }
        st
    }

    /// Nothing from the start of an identity marker on is ever shown: not
    /// where a marker already stands in the answer, nor where one may yet
    /// stand once more of the stream arrives.
    pub proof fn lemma_marker_never_streamed(&self, more: Seq<u8>, p: int)
        requires
            self.wf(),
            occurs_at(self.answer() + more, marker_bytes(), p),
        ensures
            self.emitted() <= p,
    {
        lemma_marker_bytes();
        let a = self.answer@;
        let m = marker_bytes();
        lemma_find_from(a, m, 0);
        if p + m.len() <= a.len() {
            assert((a + more).subrange(p, p + m.len()) =~= a.subrange(p, p + m.len()));
            assert(occurs_at(a, m, p));
        }
    }

    /// What the chat window has been sent, in order, is the start of the
    /// answer up to the shown end: a delta's newly shown text continues it
    /// exactly, with nothing repeated and nothing skipped.
    pub proof fn lemma_shown_text_continues(&self, delta: Seq<char>, shown_so_far: Seq<char>)
        requires
            self.wf(),
            shown_so_far == decode_utf8(self.answer().take(self.emitted())),
        ensures
            ({
                let answer = self.answer() + encode_utf8(delta);
                let e = next_emitted(answer, self.emitted());
                let sent = match newly_shown(answer, self.emitted()) {
                    Some(t) => shown_so_far + t,
                    None => shown_so_far,
                };
                sent == decode_utf8(answer.take(e))
            }),
    {
        lemma_marker_bytes();
        let a = self.answer@;
        let enc = encode_utf8(delta);
        let answer = a + enc;
        let e0 = self.emitted as int;
        encode_utf8_valid_utf8(delta);
        valid_utf8_concat(a, enc);
        assert(answer.take(e0) =~= a.take(e0));
        if streamable_end(answer) > e0 {
            let e1 = streamable_end(answer);
            lemma_find_from(answer, marker_bytes(), 0);
            let hold_start = if answer.len() >= hold_len() {
                answer.len() - hold_len()
            } else {
                0
            };
            lemma_prev_char_boundary(answer, hold_start);
            match find(answer, marker_bytes()) {
                Some(p) => {
                    assert(answer.subrange(p, p + 17)[0] == answer[p]);
                },
                None => {},
            }
            assert(at_char_start(answer, e1));
            if e0 == a.len() && enc.len() > 0 {
                lemma_valid_utf8_first_byte(enc);
                assert(answer[e0] == enc[0]);
            }
            if 0 < e0 < a.len() {
                assert(answer[e0] == a[e0]);
            }
            let prefix = answer.take(e1);
            lemma_valid_between(answer, 0, e1);
            assert(answer.subrange(0, e1) =~= prefix);
            is_char_boundary_start_end_of_seq(prefix);
            if 0 < e0 < e1 {
                assert(prefix[e0] == answer[e0]);
                is_char_boundary_iff_not_is_continuation_byte(prefix, e0);
            }
            assert(is_char_boundary(prefix, e0));
            decode_utf8_split(prefix, e0);
            assert(prefix.subrange(0, e0) =~= answer.take(e0));
            assert(prefix.subrange(e0, prefix.len() as int) =~= answer.subrange(e0, e1));
        }
    }

    /// Add a text delta to the answer and give the part of the answer that
    /// may now be shown, if any.
    pub fn push_delta(&mut self, delta: &str) -> (shown: Option<String>)
        requires
            old(self).wf(),
        ensures
            final(self).wf(),
            final(self).answer() == old(self).answer() + encode_utf8(delta@),
            final(self).emitted() == next_emitted(final(self).answer(), old(self).emitted()),
            text_view(shown) == newly_shown(final(self).answer(), old(self).emitted()),
    {
        proof {
            lemma_marker_bytes();
        }
        let ghost old_answer = self.answer@;
        let ghost old_emitted = self.emitted as int;
        let bytes = delta.as_bytes();
        let mut i: usize = 0;
        while i < bytes.len()
            invariant
                i <= bytes@.len(),
                self.answer@ == old_answer + bytes@.take(i as int),
                self.emitted == old_emitted,
            decreases bytes.len() - i,
        {
            self.answer.push(bytes[i]);
            i += 1;
            assert(bytes@.take(i as int) =~= bytes@.take(i - 1) + seq![bytes@[i - 1]]);
        }
        assert(bytes@.take(bytes@.len() as int) =~= bytes@);
        let ghost enc = encode_utf8(delta@);
        assert(bytes@ == enc);
        let ghost new_answer = self.answer@;
        proof {
            encode_utf8_valid_utf8(delta@);
            valid_utf8_concat(old_answer, enc);
        }
        let len = self.answer.len();
        let marker = IDENTITY_OPEN.as_bytes();
        let safe_end = match find_bytes(&self.answer, marker) {
            Some(p) => p,
            None => {
                let hold = marker.len() - 1;
                let mut end: usize = if len >= hold {
                    len - hold
                } else {
                    0
                };
                while end > 0 && end < len && 0x80 <= self.answer[end] && self.answer[end] <= 0xbf
                    invariant
                        len == self.answer@.len(),
                        self.answer@ == new_answer,
                        end <= len,
                        prev_char_boundary(
                            new_answer,
                            if len >= hold_len() {
                                len - hold_len()
                            } else {
                                0
                            },
                        ) == prev_char_boundary(new_answer, end as int),
                    decreases end,
                {
                    end -= 1;
                }
                end
            },
        };
        proof {
            lemma_find_from(new_answer, marker_bytes(), 0);
            lemma_find_from(old_answer, marker_bytes(), 0);
            assert(safe_end == streamable_end(new_answer));
            let hold_start = if len >= hold_len() {
                len - hold_len()
            } else {
                0
            };
            lemma_prev_char_boundary(new_answer, hold_start);
            // The end of what may be shown starts a character.
            match find(new_answer, marker_bytes()) {
                Some(p) => {
                    assert(new_answer.subrange(p, p + 17)[0] == new_answer[p]);
                    assert(at_char_start(new_answer, p));
                },
                None => {},
            }
            // What was shown before still ends at a character start.
            if old_emitted == old_answer.len() && enc.len() > 0 {
                lemma_valid_utf8_first_byte(enc);
                assert(new_answer[old_emitted] == enc[0]);
            }
            if 0 < old_emitted < old_answer.len() {
                assert(new_answer[old_emitted] == old_answer[old_emitted]);
            }
            assert(at_char_start(new_answer, old_emitted));
            // What was shown before stays clear of any marker.
            match find(new_answer, marker_bytes()) {
                Some(p) => {
                    assert(old(self).answer() + enc == new_answer);
                    old(self).lemma_marker_never_streamed(enc, p);
                },
                None => {
                    if find(old_answer, marker_bytes()) is Some {
                        let q = find(old_answer, marker_bytes()).unwrap();
                        assert(new_answer.subrange(q, q + 17) =~= old_answer.subrange(q, q + 17));
                        assert(occurs_at(new_answer, marker_bytes(), q));
                    }
                },
            }
        }
        if safe_end > self.emitted {
            let mut part: Vec<u8> = Vec::new();
            let mut k: usize = self.emitted;
            while k < safe_end
                invariant
                    self.answer@ == new_answer,
                    self.emitted == old_emitted,
                    old_emitted <= k <= safe_end <= new_answer.len(),
                    part@ == new_answer.subrange(old_emitted, k as int),
                decreases safe_end - k,
            {
                part.push(self.answer[k]);
                k += 1;
            }
            proof {
                lemma_valid_between(new_answer, old_emitted, safe_end as int);
            }
            self.emitted = safe_end;
            string_from_utf8(part)
        } else {
            None
        }
    }

    /// Read one server-sent line of the chat stream: take the text delta it
    /// carries into the answer, and give the part of the answer that may now
    /// be shown, if any.
    pub fn process_line(&mut self, line: &str) -> (shown: Option<String>)
        requires
            old(self).wf(),
        ensures
            final(self).wf(),
            sse_data(line@) is None ==> *final(self) == *old(self) && shown is None,
            sse_data(line@) matches Some(data) ==> chat_delta_of(data) is None ==> *final(self)
                == *old(self) && shown is None,
            sse_data(line@) matches Some(data) ==> chat_delta_of(data) matches Some(delta) ==> {
                &&& final(self).answer() == old(self).answer() + encode_utf8(delta)
                &&& final(self).emitted() == next_emitted(final(self).answer(), old(self).emitted())
                &&& text_view(shown) == newly_shown(final(self).answer(), old(self).emitted())
            },
    {
        let data = match sse_payload(line) {
            Some(data) => data,
            None => return None,
        };
        match parse_chat_delta(data.as_str()) {
            Some(delta) => self.push_delta(delta.as_str()),
            None => None,
        }
    }

    /// The whole answer received so far.
    pub fn answer_text(&self) -> (text: String)
        requires
            self.wf(),
        ensures
            text@ == decode_utf8(self.answer()),
    {
        let mut all: Vec<u8> = Vec::new();
        let mut k: usize = 0;
        while k < self.answer.len()
            invariant
                k <= self.answer@.len(),
                all@ == self.answer@.take(k as int),
            decreases self.answer.len() - k,
        {
            all.push(self.answer[k]);
            k += 1;
            assert(self.answer@.take(k as int) =~= self.answer@.take(k - 1) + seq![
                self.answer@[k - 1],
            ]);
        }
        assert(self.answer@.take(self.answer@.len() as int) =~= self.answer@);
        match string_from_utf8(all) {
            Some(text) => text,
            None => String::new(),
        }
    }
}

/// The data of a server-sent line, when it is worth reading (see `sse_data`).
pub fn sse_payload(line: &str) -> (data: Option<String>)
    ensures
        data is Some == sse_data(line@) is Some,
        data matches Some(d) ==> sse_data(line@) == Some(d@),
{
    let chars = chars_of(line);
    let trimmed = trim_chars(&chars);
    let prefix = chars_of(DATA_PREFIX);
    let data = match strip_prefix_chars(&trimmed, &prefix) {
        Some(d) => d,
        None => Vec::new(),
    };
    let done = chars_of(DONE_MARKER);
    if data.len() == 0 || chars_equal(&data, &done) {
        None
    } else {
        Some(string_from_chars(&data))
    }
}

/// Cut the first whole line, with its line break, from the front of `buffer`;
/// leave the buffer as it is when it holds no line break yet.
pub fn take_line(buffer: &mut Vec<u8>) -> (line: Option<Vec<u8>>)
    ensures
        find(old(buffer)@, seq![10u8]) is None ==> line is None && final(buffer)@ == old(
            buffer,
        )@,
        find(old(buffer)@, seq![10u8]) matches Some(p) ==> line matches Some(l) && l@ == old(
            buffer,
        )@.take(p + 1) && final(buffer)@ == old(buffer)@.skip(p + 1),
{
    let ghost before = buffer@;
    let mut p: usize = 0;
    while p < buffer.len() && buffer[p] != 10
        invariant
            buffer@ == before,
            p <= buffer@.len(),
            forall|m: int| 0 <= m < p ==> buffer@[m] != 10u8,
        decreases buffer.len() - p,
    {
        p += 1;
    }
    proof {
        assert forall|m: int| 0 <= m < p implies !occurs_at(before, seq![10u8], m) by {
            if occurs_at(before, seq![10u8], m) {
                assert(before.subrange(m, m + 1)[0] == before[m]);
            }
        }
    }
    if p == buffer.len() {
        proof {
            lemma_find_from_none(before, seq![10u8], 0);
        }
        return None;
    }
    proof {
        assert(before.subrange(p as int, p + 1) =~= seq![10u8]);
        lemma_find_from_is(before, seq![10u8], 0, p as int);
    }
    let mut line = buffer.split_off(p + 1);
    std::mem::swap(buffer, &mut line);
    Some(line)
}

/// Take up to `max` bytes from the front of `pending`.
pub fn take_front(pending: &mut Vec<u8>, max: usize) -> (taken: Vec<u8>)
    ensures
        taken@ == old(pending)@.take(
            if max < old(pending)@.len() {
                max as int
            } else {
                old(pending)@.len() as int
            },
        ),
        final(pending)@ == old(pending)@.skip(
            if max < old(pending)@.len() {
                max as int
            } else {
                old(pending)@.len() as int
            },
        ),
{
    let n = if max < pending.len() {
        max
    } else {
        pending.len()
    };
    let mut taken = pending.split_off(n);
    std::mem::swap(pending, &mut taken);
    taken
}

} // verus!
