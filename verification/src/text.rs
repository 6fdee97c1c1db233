//! Character-level text operations: the model of `str::trim`, `str::find`,
//! prefixes and case folding that the rest of the library is written against.
use vstd::prelude::*;

verus! {

/// The Unicode `White_Space` property, which `char::is_whitespace` and
/// `str::trim` go by.
pub open spec fn is_white_space(c: char) -> bool {
    let v = c as u32;
    ||| 0x9 <= v <= 0xd
    ||| v == 0x20
    ||| v == 0x85
    ||| v == 0xa0
    ||| v == 0x1680
    ||| 0x2000 <= v <= 0x200a
    ||| v == 0x2028
    ||| v == 0x2029
    ||| v == 0x202f
    ||| v == 0x205f
    ||| v == 0x3000
}

/// `s` with its leading white space removed (`str::trim_start`).
pub open spec fn trim_start(s: Seq<char>) -> Seq<char>
    decreases s.len(),
{
    if s.len() > 0 && is_white_space(s[0]) {
        trim_start(s.drop_first())
    } else {
        s
    }
}

/// `s` with its trailing white space removed (`str::trim_end`).
pub open spec fn trim_end(s: Seq<char>) -> Seq<char>
    decreases s.len(),
{
    if s.len() > 0 && is_white_space(s.last()) {
        trim_end(s.drop_last())
    } else {
        s
    }
}

/// `s` with white space removed at both ends (`str::trim`).
pub open spec fn trim(s: Seq<char>) -> Seq<char> {
    trim_end(trim_start(s))
}

/// `s` with every trailing `c` removed (`str::trim_end_matches` with a char).
pub open spec fn trim_end_char(s: Seq<char>, c: char) -> Seq<char>
    decreases s.len(),
{
    if s.len() > 0 && s.last() == c {
        trim_end_char(s.drop_last(), c)
    } else {
        s
    }
}

/// `s` with every leading `c` removed (`str::trim_start_matches` with a char).
pub open spec fn trim_start_char(s: Seq<char>, c: char) -> Seq<char>
    decreases s.len(),
{
    if s.len() > 0 && s[0] == c {
        trim_start_char(s.drop_first(), c)
    } else {
        s
    }
}

/// `pat` stands in `s` from index `i` on.
pub open spec fn occurs_at<T>(s: Seq<T>, pat: Seq<T>, i: int) -> bool {
    0 <= i && i + pat.len() <= s.len() && s.subrange(i, i + pat.len()) == pat
}

/// The first index at or after `from` where `pat` stands in `s`.
pub open spec fn find_from<T>(s: Seq<T>, pat: Seq<T>, from: int) -> Option<int>
    decreases s.len() + 1 - from,
{
    if from < 0 || from + pat.len() > s.len() {
        None
    } else if occurs_at(s, pat, from) {
        Some(from)
    } else {
        find_from(s, pat, from + 1)
    }
}

/// The first index where `pat` stands in `s` (`str::find`, counted in the
/// units of the sequence).
pub open spec fn find<T>(s: Seq<T>, pat: Seq<T>) -> Option<int> {
    find_from(s, pat, 0)
}

/// `s` holds `pat` somewhere (`str::contains`).
pub open spec fn contains_seq<T>(s: Seq<T>, pat: Seq<T>) -> bool {
    find(s, pat) is Some
}

/// `s` begins with `p` (`str::starts_with`).
pub open spec fn starts_with<T>(s: Seq<T>, p: Seq<T>) -> bool {
    p.len() <= s.len() && s.subrange(0, p.len() as int) == p
}

/// `s` without the prefix `p` (`str::strip_prefix`).
pub open spec fn strip_prefix<T>(s: Seq<T>, p: Seq<T>) -> Option<Seq<T>> {
    if starts_with(s, p) {
        Some(s.subrange(p.len() as int, s.len() as int))
    } else {
        None
    }
}

/// ASCII upper-case letters folded to lower case (`char::to_ascii_lowercase`).
pub open spec fn ascii_lower(c: char) -> char {
    if 'A' <= c <= 'Z' {
        ((c as u32) + 32) as char
    } else {
        c
    }
}

/// `str::to_ascii_lowercase`.
pub open spec fn ascii_lowercase(s: Seq<char>) -> Seq<char> {
    s.map_values(|c: char| ascii_lower(c))
}

/// The first `n` characters of `s`, or all of it (`chars().take(n)`).
pub open spec fn take_chars(s: Seq<char>, n: nat) -> Seq<char> {
    if n < s.len() {
        s.take(n as int)
    } else {
        s
    }
}

/* Facts about the definitions above */

/// A match found by `find_from` is a real one, and the first from `from` on.
pub proof fn lemma_find_from<T>(s: Seq<T>, pat: Seq<T>, from: int)
    requires
        0 <= from,
    ensures
        find_from(s, pat, from) matches Some(i) ==> from <= i && occurs_at(s, pat, i)
            && forall|j: int| from <= j < i ==> !occurs_at(s, pat, j),
        find_from(s, pat, from) is None ==> forall|j: int| from <= j ==> !occurs_at(s, pat, j),
    decreases s.len() + 1 - from,
{
    if from + pat.len() > s.len() {
    } else if occurs_at(s, pat, from) {
    } else {
        lemma_find_from(s, pat, from + 1);
    }
}

/// `find_from` gives the smallest match at or after `from`.
pub proof fn lemma_find_from_is<T>(s: Seq<T>, pat: Seq<T>, from: int, i: int)
    requires
        0 <= from <= i,
        occurs_at(s, pat, i),
        forall|j: int| from <= j < i ==> !occurs_at(s, pat, j),
    ensures
        find_from(s, pat, from) == Some(i),
    decreases i - from,
{
    if from < i {
        lemma_find_from_is(s, pat, from + 1, i);
    }
}

/// No match anywhere means `find_from` gives none.
pub proof fn lemma_find_from_none<T>(s: Seq<T>, pat: Seq<T>, from: int)
    requires
        0 <= from,
        forall|j: int| from <= j ==> !occurs_at(s, pat, j),
    ensures
        find_from(s, pat, from) is None,
    decreases s.len() + 1 - from,
{
    if from + pat.len() <= s.len() {
        lemma_find_from_none(s, pat, from + 1);
    }
}

/// `trim_start` removes exactly the white space in front of the first other
/// character.
pub proof fn lemma_trim_start_skip(s: Seq<char>, n: int)
    requires
        0 <= n <= s.len(),
        forall|k: int| 0 <= k < n ==> is_white_space(#[trigger] s[k]),
        n == s.len() || !is_white_space(s[n]),
    ensures
        trim_start(s) == s.skip(n),
    decreases n,
{
    if n > 0 {
        assert(s.drop_first() =~= s.skip(1));
        lemma_trim_start_skip(s.drop_first(), n - 1);
        assert(s.drop_first().skip(n - 1) =~= s.skip(n));
    } else {
        assert(s.skip(0) =~= s);
    }
}

/// `trim_end` removes exactly the white space after the last other character.
pub proof fn lemma_trim_end_take(s: Seq<char>, n: int)
    requires
        0 <= n <= s.len(),
        forall|k: int| n <= k < s.len() ==> is_white_space(#[trigger] s[k]),
        n == 0 || !is_white_space(s[n - 1]),
    ensures
        trim_end(s) == s.take(n),
    decreases s.len() - n,
{
    if n < s.len() {
        lemma_trim_end_take(s.drop_last(), n);
        assert(s.drop_last().take(n) =~= s.take(n));
    } else {
        assert(s.take(n) =~= s);
    }
}

/// A sequence that starts and ends with other characters is its own trim.
pub proof fn lemma_trim_fixed(s: Seq<char>)
    requires
        s.len() > 0 ==> !is_white_space(s[0]) && !is_white_space(s.last()),
    ensures
        trim_start(s) == s,
        trim_end(s) == s,
        trim(s) == s,
{
}

/// `trim_start` never lengthens a sequence.
pub proof fn lemma_trim_start_len(s: Seq<char>)
    ensures
        trim_start(s).len() <= s.len(),
    decreases s.len(),
{
    if s.len() > 0 && is_white_space(s[0]) {
        lemma_trim_start_len(s.drop_first());
    }
}

/// `trim_end` never lengthens a sequence.
pub proof fn lemma_trim_end_len(s: Seq<char>)
    ensures
        trim_end(s).len() <= s.len(),
    decreases s.len(),
{
    if s.len() > 0 && is_white_space(s.last()) {
        lemma_trim_end_len(s.drop_last());
    }
}

/// A non-empty sequence that is its own trim starts and ends with other
/// characters than white space.
pub proof fn lemma_trimmed_ends(u: Seq<char>)
    requires
        trim(u) == u,
        u.len() > 0,
    ensures
        !is_white_space(u[0]),
        !is_white_space(u.last()),
{
    if is_white_space(u[0]) {
        lemma_trim_start_len(u.drop_first());
        lemma_trim_end_len(trim_start(u.drop_first()));
    } else if is_white_space(u.last()) {
        lemma_trim_end_len(u.drop_last());
    }
}

/// Trimming white space put around a trimmed, non-empty text gives the text.
pub proof fn lemma_trim_padded(pre: Seq<char>, u: Seq<char>, post: Seq<char>)
    requires
        trim(u) == u,
        u.len() > 0,
        forall|k: int| 0 <= k < pre.len() ==> is_white_space(#[trigger] pre[k]),
        forall|k: int| 0 <= k < post.len() ==> is_white_space(#[trigger] post[k]),
    ensures
        trim(pre + u + post) == u,
{
    lemma_trimmed_ends(u);
    let s = pre + u + post;
    assert forall|k: int| 0 <= k < pre.len() implies is_white_space(#[trigger] s[k]) by {
        assert(s[k] == pre[k]);
    }
    assert(s[pre.len() as int] == u[0]);
    lemma_trim_start_skip(s, pre.len() as int);
    assert(s.skip(pre.len() as int) =~= u + post);
    let t = u + post;
    assert forall|k: int| u.len() <= k < t.len() implies is_white_space(#[trigger] t[k]) by {
        assert(t[k] == post[k - u.len()]);
    }
    assert(t[u.len() - 1] == u.last());
    lemma_trim_end_take(t, u.len() as int);
    assert(t.take(u.len() as int) =~= u);
}

/// Trailing white space after a text that is its own trim is all that
/// `trim_end` removes.
pub proof fn lemma_trim_end_padded(u: Seq<char>, post: Seq<char>)
    requires
        trim(u) == u,
        forall|k: int| 0 <= k < post.len() ==> is_white_space(#[trigger] post[k]),
    ensures
        trim_end(u + post) == u,
{
    let t = u + post;
    if u.len() > 0 {
        lemma_trimmed_ends(u);
        assert(t[u.len() - 1] == u.last());
    }
    assert forall|k: int| u.len() <= k < t.len() implies is_white_space(#[trigger] t[k]) by {
        assert(t[k] == post[k - u.len()]);
    }
    lemma_trim_end_take(t, u.len() as int);
    assert(t.take(u.len() as int) =~= u);
}

/// No match of `pat` can cover a position of `s` whose character `pat` lacks.
pub proof fn lemma_no_match_over<T>(s: Seq<T>, pat: Seq<T>, j: int, p: int)
    requires
        j <= p < j + pat.len(),
        forall|k: int| 0 <= k < pat.len() ==> pat[k] != s[p],
    ensures
        !occurs_at(s, pat, j),
{
    if occurs_at(s, pat, j) {
        assert(s.subrange(j, j + pat.len())[p - j] == s[p]);
    }
}

/// A match lying inside the prefix `a` of `s` is a match in `a`.
pub proof fn lemma_match_in_prefix<T>(a: Seq<T>, b: Seq<T>, pat: Seq<T>, j: int)
    requires
        occurs_at(a + b, pat, j),
        j + pat.len() <= a.len(),
    ensures
        occurs_at(a, pat, j),
{
    assert((a + b).subrange(j, j + pat.len()) =~= a.subrange(j, j + pat.len()));
}

/// A sequence with a match has a first one.
pub proof fn lemma_match_found<T>(s: Seq<T>, pat: Seq<T>, i: int)
    requires
        occurs_at(s, pat, i),
    ensures
        contains_seq(s, pat),
{
    lemma_find_from(s, pat, 0);
}

/* Executable counterparts */

/// `char::is_whitespace`.
pub fn is_whitespace(c: char) -> (r: bool)
    ensures
        r == is_white_space(c),
{
    let v = c as u32;
    (0x9 <= v && v <= 0xd) || v == 0x20 || v == 0x85 || v == 0xa0 || v == 0x1680 || (0x2000 <= v
        && v <= 0x200a) || v == 0x2028 || v == 0x2029 || v == 0x202f || v == 0x205f || v == 0x3000
}

/// The characters of `s`, in order.
pub fn chars_of(s: &str) -> (res: Vec<char>)
    ensures
        res@ == s@,
{
    let mut res: Vec<char> = Vec::new();
    for c in it: s.chars()
        invariant
            res@ == it.seq().take(it.index() as int),
    {
        res.push(c);
    }
    res
}

/// `s[from..to]` as a vector of its own.
pub fn copy_range(s: &[char], from: usize, to: usize) -> (res: Vec<char>)
    requires
        from <= to <= s@.len(),
    ensures
        res@ == s@.subrange(from as int, to as int),
{
    let mut res: Vec<char> = Vec::new();
    let mut i: usize = from;
    while i < to
        invariant
            from <= i <= to <= s@.len(),
            res@ == s@.subrange(from as int, i as int),
        decreases to - i,
    {
        res.push(s[i]);
        i += 1;
    }
    res
}

/// `a` followed by `b`.
pub fn concat_chars(a: &[char], b: &[char]) -> (res: Vec<char>)
    ensures
        res@ == a@ + b@,
{
    let mut res = copy_range(a, 0, a.len());
    let mut i: usize = 0;
    while i < b.len()
        invariant
            i <= b@.len(),
            res@ == a@ + b@.take(i as int),
        decreases b.len() - i,
    {
        res.push(b[i]);
        i += 1;
        assert(b@.take(i as int) =~= b@.take(i - 1) + seq![b@[i - 1]]);
    }
    assert(b@.take(b@.len() as int) =~= b@);
    res
}

/// Whether `a` and `b` hold the same characters.
pub fn chars_equal(a: &[char], b: &[char]) -> (r: bool)
    ensures
        r == (a@ == b@),
{
    if a.len() != b.len() {
        return false;
    }
    let mut i: usize = 0;
    while i < a.len()
        invariant
            a@.len() == b@.len(),
            i <= a@.len(),
            forall|k: int| 0 <= k < i ==> a@[k] == b@[k],
        decreases a.len() - i,
    {
        if a[i] != b[i] {
            return false;
        }
        i += 1;
    }
    assert(a@ =~= b@);
    true
}

/// The number of white-space characters at the front of `s`.
pub fn leading_white_space(s: &[char]) -> (n: usize)
    ensures
        n <= s@.len(),
        trim_start(s@) == s@.skip(n as int),
{
    let mut i: usize = 0;
    while i < s.len() && is_whitespace(s[i])
        invariant
            i <= s@.len(),
            forall|k: int| 0 <= k < i ==> is_white_space(#[trigger] s@[k]),
        decreases s.len() - i,
    {
        i += 1;
    }
    proof {
        lemma_trim_start_skip(s@, i as int);
    }
    i
}

/// Where the trailing white space of `s[from..]` begins.
pub fn trailing_white_space(s: &[char], from: usize) -> (n: usize)
    requires
        from <= s@.len(),
    ensures
        from <= n <= s@.len(),
        trim_end(s@.skip(from as int)) == s@.subrange(from as int, n as int),
{
    let mut j: usize = s.len();
    while j > from && is_whitespace(s[j - 1])
        invariant
            from <= j <= s@.len(),
            forall|k: int| j <= k < s@.len() ==> is_white_space(#[trigger] s@[k]),
        decreases j,
    {
        j -= 1;
    }
    proof {
        let t = s@.skip(from as int);
        assert forall|k: int| j - from <= k < t.len() implies is_white_space(#[trigger] t[k]) by {
            assert(t[k] == s@[k + from]);
        }
        lemma_trim_end_take(t, j - from);
        assert(t.take(j - from) =~= s@.subrange(from as int, j as int));
    }
    j
}

/// `str::trim`.
pub fn trim_chars(s: &[char]) -> (res: Vec<char>)
    ensures
        res@ == trim(s@),
{
    let a = leading_white_space(s);
    let b = trailing_white_space(s, a);
    copy_range(s, a, b)
}

/// `str::trim_start`.
pub fn trim_start_chars(s: &[char]) -> (res: Vec<char>)
    ensures
        res@ == trim_start(s@),
{
    let a = leading_white_space(s);
    copy_range(s, a, s.len())
}

/// `str::trim_end`.
pub fn trim_end_chars(s: &[char]) -> (res: Vec<char>)
    ensures
        res@ == trim_end(s@),
{
    let b = trailing_white_space(s, 0);
    assert(s@.skip(0) =~= s@);
    copy_range(s, 0, b)
}

/// `str::trim_end_matches` with one character.
pub fn trim_end_char_chars(s: &[char], c: char) -> (res: Vec<char>)
    ensures
        res@ == trim_end_char(s@, c),
{
    let mut j: usize = s.len();
    assert(s@.take(s@.len() as int) =~= s@);
    while j > 0 && s[j - 1] == c
        invariant
            j <= s@.len(),
            trim_end_char(s@, c) == trim_end_char(s@.take(j as int), c),
        decreases j,
    {
        assert(s@.take(j as int).drop_last() =~= s@.take(j - 1));
        j -= 1;
    }
    assert(s@.take(s@.len() as int) =~= s@);
    copy_range(s, 0, j)
}

/// `str::trim_start_matches` with one character.
pub fn trim_start_char_chars(s: &[char], c: char) -> (res: Vec<char>)
    ensures
        res@ == trim_start_char(s@, c),
{
    let mut i: usize = 0;
    assert(s@.skip(0) =~= s@);
    while i < s.len() && s[i] == c
        invariant
            i <= s@.len(),
            trim_start_char(s@, c) == trim_start_char(s@.skip(i as int), c),
        decreases s.len() - i,
    {
        assert(s@.skip(i as int).drop_first() =~= s@.skip(i + 1));
        i += 1;
    }
    copy_range(s, i, s.len())
}

/// Whether `pat` stands in `s` from index `i` on.
pub fn matches_at(s: &[char], pat: &[char], i: usize) -> (r: bool)
    ensures
        r == occurs_at(s@, pat@, i as int),
{
    if i > s.len() || pat.len() > s.len() - i {
        return false;
    }
    let mut k: usize = 0;
    while k < pat.len()
        invariant
            s@.len() == s.len(),
            i + pat@.len() <= s@.len(),
            k <= pat@.len(),
            forall|m: int| 0 <= m < k ==> s@[i + m] == pat@[m],
        decreases pat.len() - k,
    {
        if s[i + k] != pat[k] {
            assert(s@.subrange(i as int, i + pat@.len())[k as int] != pat@[k as int]);
            return false;
        }
        k += 1;
    }
    assert(s@.subrange(i as int, i + pat@.len()) =~= pat@);
    true
}

/// The first index at or after `from` where `pat` stands in `s`.
pub fn find_chars_from(s: &[char], pat: &[char], from: usize) -> (res: Option<usize>)
    ensures
        res matches Some(i) ==> find_from(s@, pat@, from as int) == Some(i as int),
        res is None ==> find_from(s@, pat@, from as int) is None,
{
    if pat.len() > s.len() || from > s.len() - pat.len() {
        return None;
    }
    if pat.len() == 0 {
        assert(s@.subrange(from as int, from as int) =~= pat@);
        return Some(from);
    }
    let last: usize = s.len() - pat.len();
    let mut i: usize = from;
    while i <= last
        invariant
            from <= i <= last + 1,
            pat@.len() > 0,
            s@.len() == s.len(),
            last + pat@.len() == s@.len(),
            find_from(s@, pat@, from as int) == find_from(s@, pat@, i as int),
        decreases last + 1 - i,
    {
        if matches_at(s, pat, i) {
            return Some(i);
        }
        i += 1;
    }
    None
}

/// `str::find` over characters.
pub fn find_chars(s: &[char], pat: &[char]) -> (res: Option<usize>)
    ensures
        res matches Some(i) ==> find(s@, pat@) == Some(i as int),
        res is None ==> find(s@, pat@) is None,
{
    find_chars_from(s, pat, 0)
}

/// Whether `pat` stands in `s` from index `i` on.
pub fn matches_at_bytes(s: &[u8], pat: &[u8], i: usize) -> (r: bool)
    ensures
        r == occurs_at(s@, pat@, i as int),
{
    if i > s.len() || pat.len() > s.len() - i {
        return false;
    }
    let mut k: usize = 0;
    while k < pat.len()
        invariant
            s@.len() == s.len(),
            i + pat@.len() <= s@.len(),
            k <= pat@.len(),
            forall|m: int| 0 <= m < k ==> s@[i + m] == pat@[m],
        decreases pat.len() - k,
    {
        if s[i + k] != pat[k] {
            assert(s@.subrange(i as int, i + pat@.len())[k as int] != pat@[k as int]);
            return false;
        }
        k += 1;
    }
    assert(s@.subrange(i as int, i + pat@.len()) =~= pat@);
    true
}

/// The first index at or after `from` where `pat` stands in `s`.
pub fn find_bytes_from(s: &[u8], pat: &[u8], from: usize) -> (res: Option<usize>)
    ensures
        res matches Some(i) ==> find_from(s@, pat@, from as int) == Some(i as int),
        res is None ==> find_from(s@, pat@, from as int) is None,
{
    if pat.len() > s.len() || from > s.len() - pat.len() {
        return None;
    }
    if pat.len() == 0 {
        assert(s@.subrange(from as int, from as int) =~= pat@);
        return Some(from);
    }
    let last: usize = s.len() - pat.len();
    let mut i: usize = from;
    while i <= last
        invariant
            from <= i <= last + 1,
            pat@.len() > 0,
            s@.len() == s.len(),
            last + pat@.len() == s@.len(),
            find_from(s@, pat@, from as int) == find_from(s@, pat@, i as int),
        decreases last + 1 - i,
    {
        if matches_at_bytes(s, pat, i) {
            return Some(i);
        }
        i += 1;
    }
    None
}

/// `str::find` over bytes.
pub fn find_bytes(s: &[u8], pat: &[u8]) -> (res: Option<usize>)
    ensures
        res matches Some(i) ==> find(s@, pat@) == Some(i as int),
        res is None ==> find(s@, pat@) is None,
{
    find_bytes_from(s, pat, 0)
}

/// `str::starts_with`.
pub fn starts_with_chars(s: &[char], p: &[char]) -> (r: bool)
    ensures
        r == starts_with(s@, p@),
{
    if p.len() > s.len() {
        return false;
    }
    let r = matches_at(s, p, 0);
    proof {
        if r {
            assert(s@.subrange(0, p@.len() as int) == p@);
        }
    }
    r
}

/// `str::strip_prefix`.
pub fn strip_prefix_chars(s: &[char], p: &[char]) -> (res: Option<Vec<char>>)
    ensures
        res matches Some(v) ==> strip_prefix(s@, p@) == Some(v@),
        res is None ==> strip_prefix(s@, p@) is None,
{
    if starts_with_chars(s, p) {
        Some(copy_range(s, p.len(), s.len()))
    } else {
        None
    }
}

/// `str::to_ascii_lowercase`.
pub fn ascii_lowercase_chars(s: &[char]) -> (res: Vec<char>)
    ensures
        res@ == ascii_lowercase(s@),
{
    let mut res: Vec<char> = Vec::new();
    let mut i: usize = 0;
    while i < s.len()
        invariant
            i <= s@.len(),
            res@.len() == i,
            forall|k: int| 0 <= k < i ==> res@[k] == ascii_lower(#[trigger] s@[k]),
        decreases s.len() - i,
    {
        let c = s[i];
        let lower = if 'A' <= c && c <= 'Z' {
            char_from_ascii((c as u32 + 32) as u8)
        } else {
            c
        };
        res.push(lower);
        i += 1;
    }
    assert(res@ =~= ascii_lowercase(s@));
    res
}

/// The character of an ASCII code.
fn char_from_ascii(b: u8) -> (c: char)
    requires
        b < 128,
    ensures
        c as u32 == b as u32,
{
    b as char
}

/// The first `n` characters of `s` (`chars().take(n)`).
pub fn take_chars_vec(s: &[char], n: usize) -> (res: Vec<char>)
    ensures
        res@ == take_chars(s@, n as nat),
{
    if n < s.len() {
        copy_range(s, 0, n)
    } else {
        copy_range(s, 0, s.len())
    }
}

/// The string made of the characters `chars`, in order.
///
/// Trusted: collects the characters through std's `FromIterator<&char>` for
/// `String`, which appends each character in turn, so the result's characters
/// are exactly `chars`.
#[verifier::external_body]
pub(crate) fn string_from_chars(chars: &[char]) -> (res: String)
    ensures
        res@ == chars@,
{
    chars.iter().collect()
}

} // verus!
