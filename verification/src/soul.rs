//! Skill-style persona documents: a `---` fenced frontmatter index followed
//! by a body, and the persona prompt built from them.
use vstd::prelude::*;
use vstd::string::*;
use crate::text::{
    chars_equal, chars_of, contains_seq, copy_range, find, find_chars, lemma_find_from,
    lemma_find_from_is, occurs_at, starts_with, string_from_chars, strip_prefix,
    strip_prefix_chars, trim, trim_chars,
};

verus! {

/// A persona document split into its frontmatter index and its body.
#[derive(Debug, PartialEq, Eq)]
pub struct SoulDocument {
    pub frontmatter: String,
    pub body: String,
}

/// The fence that opens a frontmatter block.
pub const FENCE_OPEN: &'static str = "---\n";

/// The same fence written with a Windows line break.
pub const FENCE_OPEN_CRLF: &'static str = "---\r\n";

/// The fence that closes a frontmatter block.
pub const FENCE_CLOSE: &'static str = "\n---";

/// The frontmatter used when a persona document has none.
pub const DEFAULT_FRONTMATTER: &'static str = "id: unknown\nload: body";

/// `s` without one leading byte-order mark.
pub open spec fn without_bom(s: Seq<char>) -> Seq<char> {
    if s.len() > 0 && s[0] == '\u{feff}' {
        s.drop_first()
    } else {
        s
    }
}

/// What follows an opening fence, if `s` starts with one.
pub open spec fn after_open_fence(s: Seq<char>) -> Option<Seq<char>> {
    match strip_prefix(s, FENCE_OPEN@) {
        Some(rest) => Some(rest),
        None => strip_prefix(s, FENCE_OPEN_CRLF@),
    }
}

/// `s` without one leading line break (`\r\n` first, then `\n`).
pub open spec fn without_line_break(s: Seq<char>) -> Seq<char> {
    match strip_prefix(s, seq!['\r', '\n']) {
        Some(rest) => rest,
        None => match strip_prefix(s, seq!['\n']) {
            Some(rest) => rest,
            None => s,
        },
    }
}

/// The frontmatter and body of a persona document.
///
/// A document that does not open with a fence, or whose fence is never
/// closed, has an empty frontmatter and the whole (trimmed) text as body.
pub open spec fn soul_parts(source: Seq<char>) -> (Seq<char>, Seq<char>) {
    let s = without_bom(source);
    match after_open_fence(s) {
        None => (Seq::empty(), trim(s)),
        Some(after) => match find(after, FENCE_CLOSE@) {
            None => (Seq::empty(), trim(s)),
            Some(close) => (
                trim(after.take(close)),
                trim(without_line_break(after.skip(close + FENCE_CLOSE@.len()))),
            ),
        },
    }
}

/// The persona prompt built from a frontmatter and a body.
pub open spec fn soul_prompt_text(frontmatter: Seq<char>, body: Seq<char>) -> Seq<char> {
    let index = if frontmatter.len() == 0 {
        DEFAULT_FRONTMATTER@
    } else {
        frontmatter
    };
    "当前角色 frontmatter（身份索引）：\n"@ + index + "\n\n当前角色正文（按模型选择加载）：\n"@ + body
}

/// A persona document made of an opening fence, a frontmatter, a closing
/// fence, a line break and a body splits back into that frontmatter and that
/// body, whenever both are trimmed and the frontmatter holds no closing fence
/// of its own.
pub proof fn lemma_soul_document_roundtrip(frontmatter: Seq<char>, body: Seq<char>)
    requires
        trim(frontmatter) == frontmatter,
        trim(body) == body,
        !contains_seq(frontmatter, FENCE_CLOSE@),
    ensures
        soul_parts(FENCE_OPEN@ + frontmatter + FENCE_CLOSE@ + seq!['\n'] + body) == (
            frontmatter,
            body,
        ),
{
    reveal_strlit("---\n");
    reveal_strlit("---\r\n");
    reveal_strlit("\n---");
    let f = frontmatter;
    let close = FENCE_CLOSE@;
    let doc = FENCE_OPEN@ + f + close + seq!['\n'] + body;
    let after = f + close + seq!['\n'] + body;
    assert(without_bom(doc) == doc);
    assert(doc.subrange(0, 4) =~= FENCE_OPEN@);
    assert(doc.subrange(4, doc.len() as int) =~= after);
    assert(after_open_fence(doc) == Some(after));
    let n = f.len() as int;
    assert(after.subrange(n, n + 4) =~= close);
    lemma_find_from(f, close, 0);
    assert forall|j: int| 0 <= j < n implies !occurs_at(after, close, j) by {
        if occurs_at(after, close, j) {
            if j + 4 <= n {
                assert(f.subrange(j, j + 4) =~= after.subrange(j, j + 4));
                assert(occurs_at(f, close, j));
            } else {
                let d = n - j;
                assert(after.subrange(j, j + 4)[d] == after[n]);
                assert(after[n] == '\n');
                assert(close[d] == '-');
            }
        }
    }
    lemma_find_from_is(after, close, 0, n);
    assert(after.take(n) =~= f);
    let tail = after.skip(n + 4);
    assert(tail =~= seq!['\n'] + body);
    assert(strip_prefix(tail, seq!['\r', '\n']) is None) by {
        if starts_with(tail, seq!['\r', '\n']) {
            assert(tail.subrange(0, 2)[0] == '\r');
        }
    }
    assert(tail.subrange(0, 1) =~= seq!['\n']);
    assert(tail.subrange(1, tail.len() as int) =~= body);
    assert(without_line_break(tail) == body);
}

/// The persona prompt always ends with the document's whole body, whether or
/// not it has a frontmatter; and a frontmatter it has stands whole right after
/// the prompt's heading.
pub proof fn lemma_soul_prompt_keeps_body(frontmatter: Seq<char>, body: Seq<char>)
    ensures
        ({
            let p = soul_prompt_text(frontmatter, body);
            let heading = "当前角色 frontmatter（身份索引）：\n"@;
            &&& p.len() >= body.len()
            &&& p.skip(p.len() - body.len()) == body
            &&& p.take(heading.len() as int) == heading
            &&& frontmatter.len() > 0 ==> p.subrange(
                heading.len() as int,
                (heading.len() + frontmatter.len()) as int,
            ) == frontmatter
        }),
{
    let p = soul_prompt_text(frontmatter, body);
    let heading = "当前角色 frontmatter（身份索引）：\n"@;
    assert(p.skip(p.len() - body.len()) =~= body);
    assert(p.take(heading.len() as int) =~= heading);
    if frontmatter.len() > 0 {
        assert(p.subrange(heading.len() as int, (heading.len() + frontmatter.len()) as int) =~= frontmatter);
    }
}

/// A persona file that does not open with a `---` fence (after an optional
/// byte-order mark) has no frontmatter, and its whole text, trimmed, is the
/// body: no line of it is lost.
pub proof fn lemma_soul_without_fence(source: Seq<char>)
    requires
        !starts_with(without_bom(source), seq!['-', '-', '-']),
    ensures
        soul_parts(source) == (Seq::<char>::empty(), trim(without_bom(source))),
{
    reveal_strlit("---\n");
    reveal_strlit("---\r\n");
    let s = without_bom(source);
    if starts_with(s, FENCE_OPEN@) {
        assert(s.subrange(0, 3) =~= FENCE_OPEN@.subrange(0, 3));
        assert(FENCE_OPEN@.subrange(0, 3) =~= seq!['-', '-', '-']);
    }
    if starts_with(s, FENCE_OPEN_CRLF@) {
        assert(s.subrange(0, 3) =~= FENCE_OPEN_CRLF@.subrange(0, 3));
        assert(FENCE_OPEN_CRLF@.subrange(0, 3) =~= seq!['-', '-', '-']);
    }
}

/// A fence that is opened but never closed makes no frontmatter either: the
/// whole text, trimmed, is the body.
pub proof fn lemma_soul_unclosed_fence(source: Seq<char>, rest: Seq<char>)
    requires
        source == FENCE_OPEN@ + rest,
        !contains_seq(rest, FENCE_CLOSE@),
    ensures
        soul_parts(source) == (Seq::<char>::empty(), trim(source)),
{
    reveal_strlit("---\n");
    assert(source[0] == '-');
    assert(without_bom(source) == source);
    assert(source.subrange(0, 4) =~= FENCE_OPEN@);
    assert(source.subrange(4, source.len() as int) =~= rest);
}

/// Split a skill-style document into its lightweight index and body.
pub fn split_soul_document(source: &str) -> (doc: SoulDocument)
    ensures
        (doc.frontmatter@, doc.body@) == soul_parts(source@),
{
    let all = chars_of(source);
    let s = if all.len() > 0 && all[0] == '\u{feff}' {
        copy_range(&all, 1, all.len())
    } else {
        all
    };
    assert(s@ == without_bom(source@));
    let open = chars_of(FENCE_OPEN);
    let open_crlf = chars_of(FENCE_OPEN_CRLF);
    let after = match strip_prefix_chars(&s, &open) {
        Some(rest) => Some(rest),
        None => strip_prefix_chars(&s, &open_crlf),
    };
    let after = match after {
        Some(after) => after,
        None => {
            let body = trim_chars(&s);
            return SoulDocument { frontmatter: String::new(), body: string_from_chars(&body) };
        },
    };
    let close = chars_of(FENCE_CLOSE);
    let close_start = match find_chars(&after, &close) {
        Some(i) => i,
        None => {
            let body = trim_chars(&s);
            return SoulDocument { frontmatter: String::new(), body: string_from_chars(&body) };
        },
    };
    proof {
        lemma_find_from(after@, close@, 0);
    }
    let head = copy_range(&after, 0, close_start);
    let frontmatter = trim_chars(&head);
    let rest = copy_range(&after, close_start + close.len(), after.len());
    let crlf = vec!['\r', '\n'];
    let lf = vec!['\n'];
    let rest = match strip_prefix_chars(&rest, &crlf) {
        Some(r) => r,
        None => match strip_prefix_chars(&rest, &lf) {
            Some(r) => r,
            None => rest,
        },
    };
    let body = trim_chars(&rest);
    proof {
        assert(crlf@ =~= seq!['\r', '\n']);
        assert(lf@ =~= seq!['\n']);
        assert(head@ =~= after@.take(close_start as int));
    }
    SoulDocument { frontmatter: string_from_chars(&frontmatter), body: string_from_chars(&body) }
}

/// The persona file of a model: Rem has her own, every other model id falls
/// back to Katou Megumi.
pub fn soul_file_for_model(model_id: &str) -> (path: &'static str)
    ensures
        model_id@ == "rem"@ ==> path@ == "souls/rem/SOUL.md"@,
        model_id@ != "rem"@ ==> path@ == "souls/katoumegumi/SOUL.md"@,
{
    let id = chars_of(model_id);
    let rem = chars_of("rem");
    if chars_equal(&id, &rem) {
        "souls/rem/SOUL.md"
    } else {
        "souls/katoumegumi/SOUL.md"
    }
}

/// The persona prompt for a split document: its frontmatter (or a neutral
/// index when it has none), then its body.
pub fn soul_prompt(document: &SoulDocument) -> (prompt: String)
    ensures
        prompt@ == soul_prompt_text(document.frontmatter@, document.body@),
{
    let mut prompt = String::from_str("当前角色 frontmatter（身份索引）：\n");
    if document.frontmatter.as_str().is_empty() {
        prompt.append(DEFAULT_FRONTMATTER);
    } else {
        prompt.append(document.frontmatter.as_str());
    }
    prompt.append("\n\n当前角色正文（按模型选择加载）：\n");
    prompt.append(document.body.as_str());
    prompt
}

/// The persona prompt of a persona file's text.
pub fn soul_prompt_for_source(source: &str) -> (prompt: String)
    ensures
        prompt@ == soul_prompt_text(soul_parts(source@).0, soul_parts(source@).1),
{
    soul_prompt(&split_soul_document(source))
}

} // verus!
