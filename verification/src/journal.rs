//! The user's long-term files (conversation memory and identity profile):
//! their entries, and how an append keeps a file under its size limit.
use vstd::prelude::*;
use vstd::string::*;
use vstd::utf8::is_continuation_byte;
use crate::text::{find, lemma_find_from, lemma_find_from_is, lemma_find_from_none, occurs_at};

verus! {

/// The largest size, in bytes, of the conversation memory file.
pub const MAX_MEMORY_BYTES: usize = 1048576;

/// The largest size, in bytes, of the identity profile file.
pub const MAX_IDENTITY_BYTES: usize = 262144;

/// The first index at or after `i` that starts a character of the UTF-8 text
/// `bytes`, or its end (`str::is_char_boundary`).
pub open spec fn next_char_boundary(bytes: Seq<u8>, i: int) -> int
    decreases bytes.len() - i,
{
    if i < 0 || i >= bytes.len() || !is_continuation_byte(bytes[i]) {
        i
    } else {
        next_char_boundary(bytes, i + 1)
    }
}

/// Where the kept part of `combined` starts once it is cut to `max_bytes`:
/// nothing is cut from a text that fits; otherwise the cut moves forward to
/// a character boundary and then past the next line break, so that the file
/// starts with a whole line.
pub open spec fn kept_from(combined: Seq<u8>, max_bytes: nat) -> int {
    if combined.len() <= max_bytes {
        0
    } else {
        let start = next_char_boundary(combined, combined.len() - max_bytes);
        match find(combined.skip(start), seq![10u8]) {
            Some(newline) => start + newline + 1,
            None => start,
        }
    }
}

/// The content of a bounded file after `entry` is appended to `existing`.
pub open spec fn bounded_content(existing: Seq<u8>, entry: Seq<u8>, max_bytes: nat) -> Seq<u8> {
    let combined = existing + entry;
    combined.skip(kept_from(combined, max_bytes))
}

/// The memory-file entry for one exchange.
pub open spec fn memory_entry_text(stamp: Seq<char>, user: Seq<char>, answer: Seq<char>) -> Seq<
    char,
> {
    "\n- ["@ + stamp + "] 用户："@ + user + "\n  AnimePet："@ + answer + "\n"@
}

proof fn lemma_next_char_boundary(bytes: Seq<u8>, i: int)
    requires
        0 <= i <= bytes.len(),
    ensures
        i <= next_char_boundary(bytes, i) <= bytes.len(),
        forall|k: int| i <= k < bytes.len() && !is_continuation_byte(#[trigger] bytes[k])
            ==> next_char_boundary(bytes, i) <= k,
    decreases bytes.len() - i,
{
    if i < bytes.len() && is_continuation_byte(bytes[i]) {
        lemma_next_char_boundary(bytes, i + 1);
    }
}

/// The kept part of a bounded file never exceeds the limit, and lies within
/// the combined text.
pub proof fn lemma_kept_from_bounds(combined: Seq<u8>, max_bytes: nat)
    ensures
        0 <= kept_from(combined, max_bytes) <= combined.len(),
        combined.len() - kept_from(combined, max_bytes) <= max_bytes,
{
    if combined.len() > max_bytes {
        let start0 = combined.len() - max_bytes;
        lemma_next_char_boundary(combined, start0);
        let start = next_char_boundary(combined, start0);
        lemma_find_from(combined.skip(start), seq![10u8], 0);
    }
}

/// Appending to a bounded file never makes it larger than its limit; an entry
/// that fits with the old content keeps everything; and an entry that begins
/// with a line break and fits the limit on its own is always kept (all but
/// that first line break) at the end of the file.
pub proof fn lemma_bounded_append_laws(existing: Seq<u8>, entry: Seq<u8>, max_bytes: nat)
    ensures
        bounded_content(existing, entry, max_bytes).len() <= max_bytes,
        existing.len() + entry.len() <= max_bytes ==> bounded_content(existing, entry, max_bytes)
            == existing + entry,
        entry.len() > 0 && entry[0] == 10u8 && entry.len() <= max_bytes ==> {
            let kept = bounded_content(existing, entry, max_bytes);
            &&& kept.len() >= entry.len() - 1
            &&& kept.skip(kept.len() - (entry.len() - 1)) == entry.drop_first()
        },
{
    let combined = existing + entry;
    lemma_kept_from_bounds(combined, max_bytes);
    if combined.len() <= max_bytes {
        assert(combined.skip(0) =~= combined);
    }
    if entry.len() > 0 && entry[0] == 10u8 && entry.len() <= max_bytes {
        let l = existing.len() as int;
        let kept = bounded_content(existing, entry, max_bytes);
        if combined.len() > max_bytes {
            let start0 = combined.len() - max_bytes;
            lemma_next_char_boundary(combined, start0);
            assert(combined[l] == 10u8);
            assert(!is_continuation_byte(combined[l]));
            let start = next_char_boundary(combined, start0);
            assert(start <= l);
            let rest = combined.skip(start);
            assert(rest.subrange(l - start, l - start + 1) =~= seq![10u8]);
            lemma_find_from(rest, seq![10u8], 0);
            assert(occurs_at(rest, seq![10u8], l - start));
            assert(kept_from(combined, max_bytes) <= l + 1);
        } else {
            assert(combined.skip(0) =~= combined);
        }
        let from = kept_from(combined, max_bytes);
        assert(kept =~= combined.skip(from));
        assert(kept.skip(kept.len() - (entry.len() - 1)) =~= entry.drop_first());
    }
}

/// The content a bounded file holds after `entry` is appended to `existing`:
/// everything when it fits in `max_bytes`, otherwise its newest part, cut at a
/// character boundary and then at the start of a line.
pub fn bounded_append(existing: &[u8], entry: &[u8], max_bytes: usize) -> (res: Vec<u8>)
    requires
        existing@.len() + entry@.len() <= usize::MAX,
    ensures
        res@ == bounded_content(existing@, entry@, max_bytes as nat),
{
    let mut combined: Vec<u8> = Vec::new();
    let mut i: usize = 0;
    while i < existing.len()
        invariant
            i <= existing@.len(),
            combined@ == existing@.take(i as int),
        decreases existing.len() - i,
    {
        combined.push(existing[i]);
        i += 1;
        assert(existing@.take(i as int) =~= existing@.take(i - 1) + seq![existing@[i - 1]]);
    }
    assert(existing@.take(existing@.len() as int) =~= existing@);
    let mut j: usize = 0;
    while j < entry.len()
        invariant
            j <= entry@.len(),
            combined@ == existing@ + entry@.take(j as int),
        decreases entry.len() - j,
    {
        combined.push(entry[j]);
        j += 1;
        assert(entry@.take(j as int) =~= entry@.take(j - 1) + seq![entry@[j - 1]]);
    }
    assert(entry@.take(entry@.len() as int) =~= entry@);
    let len = combined.len();
    if len <= max_bytes {
        assert(combined@.skip(0) =~= combined@);
        return combined;
    }
    let mut start: usize = len - max_bytes;
    while start < len && 0x80 <= combined[start] && combined[start] <= 0xbf
        invariant
            len == combined@.len(),
            len - max_bytes <= start <= len,
            next_char_boundary(combined@, (len - max_bytes) as int) == next_char_boundary(
                combined@,
                start as int,
            ),
        decreases len - start,
    {
        start += 1;
    }
    let mut k: usize = start;
    while k < len && combined[k] != 10
        invariant
            len == combined@.len(),
            start <= k <= len,
            forall|m: int| start <= m < k ==> combined@[m] != 10u8,
        decreases len - k,
    {
        k += 1;
    }
    let ghost rest = combined@.skip(start as int);
    proof {
        assert forall|m: int| 0 <= m < k - start implies !occurs_at(rest, seq![10u8], m) by {
            if occurs_at(rest, seq![10u8], m) {
                assert(rest.subrange(m, m + 1)[0] == rest[m]);
            }
        }
        if k < len {
            assert(rest.subrange(k - start, k - start + 1) =~= seq![10u8]);
            lemma_find_from_is(rest, seq![10u8], 0, k - start);
        } else {
            lemma_find_from_none(rest, seq![10u8], 0);
        }
    }
    let from = if k < len {
        k + 1
    } else {
        start
    };
    let mut res: Vec<u8> = Vec::new();
    let mut m: usize = from;
    while m < len
        invariant
            len == combined@.len(),
            from <= m <= len,
            res@ == combined@.subrange(from as int, m as int),
        decreases len - m,
    {
        res.push(combined[m]);
        m += 1;
    }
    res
}

/// The memory-file entry for one exchange: its time stamp, the user's
/// message and the visible answer.
pub fn memory_entry(stamp: &str, user: &str, answer: &str) -> (entry: String)
    ensures
        entry@ == memory_entry_text(stamp@, user@, answer@),
{
    let mut entry = String::from_str("\n- [");
    entry.append(stamp);
    entry.append("] 用户：");
    entry.append(user);
    entry.append("\n  AnimePet：");
    entry.append(answer);
    entry.append("\n");
    entry
}

} // verus!
