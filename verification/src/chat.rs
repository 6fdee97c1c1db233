//! The chat conversation: the messages sent to the model, the short-term
//! history kept between requests, and the model service's endpoint.
use vstd::prelude::*;
use vstd::string::*;
use crate::text::{chars_of, string_from_chars, trim_end_char, trim_end_char_chars};

verus! {

/// How many messages the short-term history keeps.
pub const MAX_HISTORY_MESSAGES: usize = 40;

/// One message of a conversation: who speaks and what is said.
pub struct ChatMessage {
    pub role: String,
    pub content: String,
}

impl View for ChatMessage {
    type V = (Seq<char>, Seq<char>);

    open spec fn view(&self) -> (Seq<char>, Seq<char>) {
        (self.role@, self.content@)
    }
}

impl ChatMessage {
    /// A message of `role` saying `content`.
    pub fn new(role: &str, content: &str) -> (m: ChatMessage)
        ensures
            m@ == (role@, content@),
    {
        ChatMessage { role: String::from_str(role), content: String::from_str(content) }
    }

    /// A copy of this message.
    pub fn duplicate(&self) -> (m: ChatMessage)
        ensures
            m@ == self@,
    {
        ChatMessage { role: self.role.clone(), content: self.content.clone() }
    }
}

/// The messages of `history`, as role and content.
pub open spec fn message_views(history: Seq<ChatMessage>) -> Seq<(Seq<char>, Seq<char>)> {
    history.map_values(|m: ChatMessage| m@)
}

/// The last `MAX_HISTORY_MESSAGES` messages of `messages` (all of them when
/// there are no more).
pub open spec fn history_window(messages: Seq<(Seq<char>, Seq<char>)>) -> Seq<
    (Seq<char>, Seq<char>),
> {
    if messages.len() > MAX_HISTORY_MESSAGES {
        messages.skip(messages.len() - MAX_HISTORY_MESSAGES)
    } else {
        messages
    }
}

/// The system prompt: the persona, then the user's identity profile and the
/// long-term memory, then the rules for identity-update blocks.
pub open spec fn system_prompt_text(soul: Seq<char>, identity: Seq<char>, memory: Seq<char>) -> Seq<
    char,
> {
    soul + "\n\n用户身份信息（仅记录用户明确提供的事实和偏好）：\n"@ + identity
        + "\n\n长期记忆：\n"@ + memory + IDENTITY_RULES@
}

/// The rules that close the system prompt.
pub const IDENTITY_RULES: &'static str = "\n\n身份记录规则：\n- 你不能直接操作文件；如果本轮对话中用户明确提供了姓名、称呼、地区、职业、兴趣、偏好、习惯或其他个人信息，请在正常回复末尾追加一段 <identity_update>...</identity_update>。\n- 标记内部只写简洁的 Markdown 条目，不要写推测、敏感信息、密码、API 密钥或用户没有明确说过的内容。\n- 如果没有新的用户信息，不要输出该标记。标记之外只放给用户看的正常回复。";

/// The system prompt for one request.
pub fn system_prompt(soul: &str, identity: &str, memory: &str) -> (prompt: String)
    ensures
        prompt@ == system_prompt_text(soul@, identity@, memory@),
{
    let mut prompt = String::from_str(soul);
    prompt.append("\n\n用户身份信息（仅记录用户明确提供的事实和偏好）：\n");
    prompt.append(identity);
    prompt.append("\n\n长期记忆：\n");
    prompt.append(memory);
    prompt.append(IDENTITY_RULES);
    prompt
}

/// The short-term history of a conversation: the latest exchanges, at most
/// `MAX_HISTORY_MESSAGES` messages.
pub struct ChatHistory {
    messages: Vec<ChatMessage>,
}

impl ChatHistory {
    /// The messages of the history, oldest first.
    pub closed spec fn messages(&self) -> Seq<(Seq<char>, Seq<char>)> {
        message_views(self.messages@)
    }

    /// The history never holds more than `MAX_HISTORY_MESSAGES` messages.
    pub closed spec fn wf(&self) -> bool {
        self.messages@.len() <= MAX_HISTORY_MESSAGES
    }

    /// An empty history.
    pub fn new() -> (h: ChatHistory)
        ensures
            h.wf(),
            h.messages() == Seq::<(Seq<char>, Seq<char>)>::empty(),
    {
        let h = ChatHistory { messages: Vec::new() };
        assert(h.messages() =~= Seq::<(Seq<char>, Seq<char>)>::empty());
        h
    }

    /// How many messages the history holds.
    pub fn len(&self) -> (n: usize)
        ensures
            n == self.messages().len(),
    {
        self.messages.len()
    }

    /// Record one exchange: the user's message, then the visible answer; the
    /// oldest messages are dropped once the history would grow past its
    /// limit.
    pub fn record_exchange(&mut self, user: &str, answer: &str)
        requires
            old(self).wf(),
        ensures
            final(self).wf(),
            final(self).messages() == history_window(
                old(self).messages() + seq![("user"@, user@), ("assistant"@, answer@)],
            ),
    {
        let ghost before = self.messages();
        self.messages.push(ChatMessage::new("user", user));
        self.messages.push(ChatMessage::new("assistant", answer));
        let ghost all = before + seq![("user"@, user@), ("assistant"@, answer@)];
        assert(message_views(self.messages@) =~= all);
        if self.messages.len() > MAX_HISTORY_MESSAGES {
            let excess = self.messages.len() - MAX_HISTORY_MESSAGES;
            let kept = self.messages.split_off(excess);
            self.messages = kept;
            assert(message_views(self.messages@) =~= all.skip(excess as int));
        }
    }

    /// The messages to send with a new request: the system prompt, the
    /// history, then the user's new message.
    pub fn conversation(&self, system_prompt: &str, user: &str) -> (messages: Vec<ChatMessage>)
        ensures
            message_views(messages@) == seq![("system"@, system_prompt@)] + self.messages() + seq![
                ("user"@, user@),
            ],
    {
        let mut messages: Vec<ChatMessage> = Vec::new();
        messages.push(ChatMessage::new("system", system_prompt));
        let mut i: usize = 0;
        while i < self.messages.len()
            invariant
                i <= self.messages@.len(),
                message_views(messages@) == seq![("system"@, system_prompt@)] + message_views(
                    self.messages@,
                ).take(i as int),
            decreases self.messages.len() - i,
        {
            let ghost prev = messages@;
            messages.push(self.messages[i].duplicate());
            assert(message_views(messages@) =~= message_views(prev).push(self.messages@[i as int]@));
            i += 1;
            assert(message_views(self.messages@).take(i as int) =~= message_views(
                self.messages@,
            ).take(i - 1) + seq![self.messages@[i - 1]@]);
            assert(message_views(messages@) =~= seq![("system"@, system_prompt@)] + message_views(
                self.messages@,
            ).take(i as int));
        }
        assert(message_views(self.messages@).take(self.messages@.len() as int) =~= message_views(
            self.messages@,
        ));
        let ghost prev = messages@;
        messages.push(ChatMessage::new("user", user));
        assert(message_views(messages@) =~= message_views(prev).push(("user"@, user@)));
        assert(message_views(messages@) =~= seq![("system"@, system_prompt@)] + self.messages()
            + seq![("user"@, user@)]);
        messages
    }
}

/// The short-term history never outgrows its limit, and the exchange just
/// recorded is always its newest pair of messages.
pub proof fn lemma_history_keeps_latest_exchange(
    before: Seq<(Seq<char>, Seq<char>)>,
    user: Seq<char>,
    answer: Seq<char>,
)
    ensures
        ({
            let after = history_window(before + seq![("user"@, user), ("assistant"@, answer)]);
            &&& after.len() <= MAX_HISTORY_MESSAGES
            &&& after.len() >= 2
            &&& after[after.len() - 2] == ("user"@, user)
            &&& after[after.len() - 1] == ("assistant"@, answer)
        }),
{
}

/// The endpoint of the chat-completion service at `base_url`.
pub open spec fn chat_completions_url_text(base_url: Seq<char>) -> Seq<char> {
    trim_end_char(base_url, '/') + "/v1/chat/completions"@
}

/// Trailing slashes of the service address make no difference: an address
/// that does not end with `/`, followed by any number of slashes, gives the
/// address itself followed by `/v1/chat/completions`.
pub proof fn lemma_chat_url_ignores_trailing_slashes(base: Seq<char>, slashes: nat)
    requires
        base.len() == 0 || base.last() != '/',
    ensures
        chat_completions_url_text(base + Seq::new(slashes, |i: int| '/')) == base
            + "/v1/chat/completions"@,
    decreases slashes,
{
    let s = base + Seq::new(slashes, |i: int| '/');
    if slashes > 0 {
        assert(s.drop_last() =~= base + Seq::new((slashes - 1) as nat, |i: int| '/'));
        lemma_chat_url_ignores_trailing_slashes(base, (slashes - 1) as nat);
    } else {
        assert(s =~= base);
    }
}

/// The system prompt starts with the persona, ends with the identity rules,
/// and holds the profile and the memory whole, each after its heading.
pub proof fn lemma_system_prompt_parts(soul: Seq<char>, identity: Seq<char>, memory: Seq<char>)
    ensures
        ({
            let p = system_prompt_text(soul, identity, memory);
            let h1 = "\n\n用户身份信息（仅记录用户明确提供的事实和偏好）：\n"@;
            let h2 = "\n\n长期记忆：\n"@;
            let i0 = soul.len() + h1.len();
            let m0 = i0 + identity.len() + h2.len();
            &&& p.take(soul.len() as int) == soul
            &&& p.subrange(i0 as int, (i0 + identity.len()) as int) == identity
            &&& p.subrange(m0 as int, (m0 + memory.len()) as int) == memory
            &&& p.skip(p.len() - IDENTITY_RULES@.len()) == IDENTITY_RULES@
        }),
{
    let p = system_prompt_text(soul, identity, memory);
    let h1 = "\n\n用户身份信息（仅记录用户明确提供的事实和偏好）：\n"@;
    let h2 = "\n\n长期记忆：\n"@;
    let i0 = soul.len() + h1.len();
    let m0 = i0 + identity.len() + h2.len();
    assert(p.take(soul.len() as int) =~= soul);
    assert(p.subrange(i0 as int, (i0 + identity.len()) as int) =~= identity);
    assert(p.subrange(m0 as int, (m0 + memory.len()) as int) =~= memory);
    assert(p.skip(p.len() - IDENTITY_RULES@.len()) =~= IDENTITY_RULES@);
}

/// The chat-completion endpoint under `base_url`, whatever slashes it ends
/// with.
pub fn chat_completions_url(base_url: &str) -> (url: String)
    ensures
        url@ == chat_completions_url_text(base_url@),
{
    let base = chars_of(base_url);
    let trimmed = trim_end_char_chars(&base, '/');
    let mut url = string_from_chars(&trimmed);
    url.append("/v1/chat/completions");
    url
}

} // verus!
