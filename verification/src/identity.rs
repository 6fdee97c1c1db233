//! The identity-update block: a marked section at the end of a model reply
//! that carries new facts about the user, taken out of the visible reply and
//! kept in the user's profile.
use vstd::prelude::*;
use vstd::string::*;
use crate::text::{
    chars_of, concat_chars, contains_seq, copy_range, find, find_chars,
    is_white_space, lemma_find_from, lemma_find_from_is, lemma_match_found, lemma_match_in_prefix,
    lemma_no_match_over, lemma_trim_end_padded, lemma_trim_padded, occurs_at, string_from_chars,
    take_chars, take_chars_vec, trim, trim_chars, trim_end, trim_end_chars, trim_start,
    trim_start_chars,
};

verus! {

/// Opens an identity-update block in a model reply.
pub const IDENTITY_OPEN: &'static str = "<identity_update>";

/// Closes an identity-update block.
pub const IDENTITY_CLOSE: &'static str = "</identity_update>";

/// The longest note, in characters, that one reply may add to the profile.
pub const MAX_IDENTITY_NOTE_CHARS: usize = 2000;

/// The visible reply and the identity note (if any) carried by a model reply.
///
/// Only the first block counts, and only when it is closed; the note is the
/// block's trimmed content, and the reply is what stands around the block,
/// joined and trimmed.
pub open spec fn identity_split(response: Seq<char>) -> (Seq<char>, Option<Seq<char>>) {
    match find(response, IDENTITY_OPEN@) {
        None => (response, None),
        Some(start) => {
            let content_start = start + IDENTITY_OPEN@.len();
            match find(response.skip(content_start), IDENTITY_CLOSE@) {
                None => (response, None),
                Some(offset) => {
                    let end = content_start + offset;
                    let update = trim(response.subrange(content_start, end));
                    let clean = trim(
                        trim_end(response.take(start)) + trim_start(
                            response.skip(end + IDENTITY_CLOSE@.len()),
                        ),
                    );
                    (clean, if update.len() == 0 {
                        None
                    } else {
                        Some(update)
                    })
                },
            }
        },
    }
}

/// The note that an identity update adds to the profile: trimmed, and cut to
/// its first `MAX_IDENTITY_NOTE_CHARS` characters.
pub open spec fn identity_note(update: Seq<char>) -> Seq<char> {
    take_chars(trim(update), MAX_IDENTITY_NOTE_CHARS as nat)
}

/// The profile section that records a note under a time stamp.
pub open spec fn identity_section_text(stamp: Seq<char>, note: Seq<char>) -> Seq<char> {
    "\n## 对话提取 ["@ + stamp + "]\n"@ + note + "\n"@
}

/// A reply that holds no identity-update block is shown as it is, with no
/// note taken from it.
pub proof fn lemma_reply_without_block_unchanged(response: Seq<char>)
    requires
        !contains_seq(response, IDENTITY_OPEN@),
    ensures
        identity_split(response) == (response, None::<Seq<char>>),
{
}

/// A block appended to a reply, as the system prompt asks the model to do,
/// is taken out whole: the user sees the reply alone and the note comes back
/// as it was written, whenever both are trimmed, the reply opens no block of
/// its own and the note does not close one.
pub proof fn lemma_identity_block_roundtrip(reply: Seq<char>, note: Seq<char>)
    requires
        trim(reply) == reply,
        trim(note) == note,
        note.len() > 0,
        !contains_seq(reply, IDENTITY_OPEN@),
        !contains_seq(note, IDENTITY_CLOSE@),
    ensures
        identity_split(
            reply + seq!['\n'] + IDENTITY_OPEN@ + seq!['\n'] + note + seq!['\n'] + IDENTITY_CLOSE@,
        ) == (reply, Some(note)),
{
    reveal_strlit("<identity_update>");
    reveal_strlit("</identity_update>");
    let open = IDENTITY_OPEN@;
    let close = IDENTITY_CLOSE@;
    let nl = seq!['\n'];
    let response = reply + nl + open + nl + note + nl + close;
    let start: int = reply.len() as int + 1;
    // The block opens right after the reply's line break.
    assert(response.subrange(start, start + open.len() as int) =~= open);
    lemma_find_from(reply, open, 0);
    assert forall|j: int| 0 <= j < start implies !occurs_at(response, open, j) by {
        if j + open.len() <= reply.len() {
            assert(response =~= reply + (nl + open + nl + note + nl + close));
            if occurs_at(response, open, j) {
                lemma_match_in_prefix(reply, nl + open + nl + note + nl + close, open, j);
            }
        } else {
            assert(response[reply.len() as int] == '\n');
            lemma_no_match_over(response, open, j, reply.len() as int);
        }
    }
    lemma_find_from_is(response, open, 0, start);
    let content_start: int = start + open.len();
    let tail = response.skip(content_start);
    assert(tail =~= nl + note + nl + close);
    let offset: int = note.len() as int + 2;
    assert(tail.subrange(offset, offset + close.len() as int) =~= close);
    lemma_find_from(note, close, 0);
    assert forall|j: int| 0 <= j < offset implies !occurs_at(tail, close, j) by {
        if j == 0 {
            assert(tail[0] == '\n');
            lemma_no_match_over(tail, close, j, 0);
        } else if j + close.len() <= note.len() + 1 {
            if occurs_at(tail, close, j) {
                assert(tail.subrange(j, j + close.len() as int) =~= note.subrange(
                    j - 1,
                    j - 1 + close.len() as int,
                ));
                assert(occurs_at(note, close, j - 1));
            }
        } else {
            assert(tail[note.len() as int + 1] == '\n');
            lemma_no_match_over(tail, close, j, note.len() as int + 1);
        }
    }
    lemma_find_from_is(tail, close, 0, offset);
    let end: int = content_start + offset;
    assert(response.subrange(content_start, end) =~= nl + note + nl);
    assert(is_white_space('\n'));
    lemma_trim_padded(nl, note, nl);
    assert(response.take(start - 1 + 1) =~= reply + nl);
    lemma_trim_end_padded(reply, nl);
    assert(response.skip(end + close.len() as int) =~= Seq::<char>::empty());
    assert(trim_end(reply + nl) + trim_start(Seq::<char>::empty()) =~= reply);
}

/// Once a note is written to the profile, the same update is never written
/// again: the profile then holds the note.
pub proof fn lemma_recorded_note_not_repeated(
    existing_profile: Seq<char>,
    update: Seq<char>,
    stamp: Seq<char>,
)
    requires
        identity_note(update).len() > 0,
    ensures
        contains_seq(
            existing_profile + identity_section_text(stamp, identity_note(update)),
            identity_note(update),
        ),
{
    let note = identity_note(update);
    let head = existing_profile + "\n## 对话提取 ["@ + stamp + "]\n"@;
    let profile = existing_profile + identity_section_text(stamp, note);
    assert(profile =~= head + note + "\n"@);
    assert(profile.subrange(head.len() as int, (head.len() + note.len()) as int) =~= note);
    lemma_match_found(profile, note, head.len() as int);
}

/// The note recorded for an update is the start of the trimmed update, cut
/// only at the cap: a trimmed update that fits is recorded whole, every line
/// of it included, and a longer one keeps exactly its first
/// `MAX_IDENTITY_NOTE_CHARS` characters.
pub proof fn lemma_identity_note_is_trimmed_update(update: Seq<char>)
    ensures
        ({
            let t = trim(update);
            let note = identity_note(update);
            &&& t.len() <= MAX_IDENTITY_NOTE_CHARS ==> note == t
            &&& t.len() > MAX_IDENTITY_NOTE_CHARS ==> note.len() == MAX_IDENTITY_NOTE_CHARS
            &&& note.len() <= t.len()
            &&& t.take(note.len() as int) == note
        }),
{
    let t = trim(update);
    let note = identity_note(update);
    if t.len() <= MAX_IDENTITY_NOTE_CHARS {
        assert(t.take(t.len() as int) =~= t);
    } else {
        assert(t.take(note.len() as int) =~= note);
    }
}

/// A note added to the profile is never longer than
/// `MAX_IDENTITY_NOTE_CHARS` characters, however verbose the model was.
pub proof fn lemma_identity_note_bounded(update: Seq<char>)
    ensures
        identity_note(update).len() <= MAX_IDENTITY_NOTE_CHARS,
{
}

/// Separate the identity-update block of a model reply from the text the
/// user sees.
pub fn extract_identity_update(response: &str) -> (res: (String, Option<String>))
    ensures
        res.0@ == identity_split(response@).0,
        res.1 is Some == identity_split(response@).1 is Some,
        res.1 matches Some(u) ==> identity_split(response@).1 == Some(u@),
{
    let r = chars_of(response);
    let open = chars_of(IDENTITY_OPEN);
    let close = chars_of(IDENTITY_CLOSE);
    let start = match find_chars(&r, &open) {
        Some(start) => start,
        None => return (String::from_str(response), None),
    };
    proof {
        lemma_find_from(r@, open@, 0);
    }
    let total = r.len();
    assert(start + open@.len() <= total);
    let content_start = start + open.len();
    let rest = copy_range(&r, content_start, total);
    assert(rest@ =~= r@.skip(content_start as int));
    let offset = match find_chars(&rest, &close) {
        Some(offset) => offset,
        None => return (String::from_str(response), None),
    };
    proof {
        lemma_find_from(rest@, close@, 0);
    }
    let end = content_start + offset;
    let inner = copy_range(&r, content_start, end);
    let update = trim_chars(&inner);
    let before = copy_range(&r, 0, start);
    let before = trim_end_chars(&before);
    let after = copy_range(&r, end + close.len(), r.len());
    let after = trim_start_chars(&after);
    let joined = concat_chars(&before, &after);
    let clean = trim_chars(&joined);
    proof {
        assert(r@.subrange(0, start as int) =~= r@.take(start as int));
        assert(r@.subrange(end + close@.len(), r@.len() as int) =~= r@.skip(end + close@.len()));
    }
    let note = if update.len() == 0 {
        None
    } else {
        Some(string_from_chars(&update))
    };
    (string_from_chars(&clean), note)
}

/// The note to add to the profile for an identity update, or none when the
/// update is blank or the profile already holds it.
pub fn identity_note_to_record(update: &str, existing_profile: &str) -> (res: Option<String>)
    ensures
        res is Some <==> identity_note(update@).len() > 0 && !contains_seq(
            existing_profile@,
            identity_note(update@),
        ),
        res matches Some(note) ==> note@ == identity_note(update@),
{
    let u = chars_of(update);
    let trimmed = trim_chars(&u);
    if trimmed.len() == 0 {
        return None;
    }
    let note = take_chars_vec(&trimmed, MAX_IDENTITY_NOTE_CHARS);
    let profile = chars_of(existing_profile);
    if find_chars(&profile, &note).is_some() {
        return None;
    }
    Some(string_from_chars(&note))
}

/// The profile section that records `note` under the time stamp `stamp`.
pub fn identity_section(stamp: &str, note: &str) -> (section: String)
    ensures
        section@ == identity_section_text(stamp@, note@),
{
    let mut section = String::from_str("\n## 对话提取 [");
    section.append(stamp);
    section.append("]\n");
    section.append(note);
    section.append("\n");
    section
}

} // verus!
