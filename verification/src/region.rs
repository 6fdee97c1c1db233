//! The pet window's input region and the messages the page sends through its
//! title: where the model stands, and when a drag or the chat starts or ends.
use vstd::prelude::*;
use vstd::string::*;
use crate::text::{
    chars_equal, chars_of, copy_range, find, find_chars, lemma_find_from, strip_prefix,
    occurs_at, strip_prefix_chars, lemma_find_from_is, lemma_find_from_none, starts_with,
};

verus! {

/// The model's width on the page, in pixels.
pub const MODEL_WIDTH: i32 = 280;

/// The model's height on the page, in pixels.
pub const MODEL_HEIGHT: i32 = 250;

/// How far around the model clicks still reach it, in pixels.
pub const MODEL_HIT_PADDING: i32 = 14;

/// The model's left offset before the page reports one.
pub const INIT_LEFT: i32 = 5;

/// The model's bottom offset before the page reports one.
pub const INIT_BOTTOM: i32 = 0;

/// The rectangle of the window that takes pointer input; clicks elsewhere go
/// through to the windows below.
#[derive(PartialEq, Eq, Structural, Clone, Copy, Debug)]
pub struct InputRegion {
    pub x: i32,
    pub y: i32,
    pub width: i32,
    pub height: i32,
}

/// What a page title asks the window to do.
#[derive(PartialEq, Eq, Structural, Clone, Copy, Debug)]
pub enum TitleCommand {
    /// A drag began: take input everywhere.
    DragStart,
    /// The chat opened: take input everywhere and the keyboard.
    ChatOpen,
    /// The chat closed: give the keyboard back and take input around the
    /// model at this position.
    ChatClose { left: i32, bottom: i32 },
    /// The model moved (after a drag, or restored on load) to this position.
    Move { left: i32, bottom: i32 },
    /// Nothing to do.
    Ignore,
}

/// The value of a string of decimal digits.
pub open spec fn digits_value(d: Seq<char>) -> int
    decreases d.len(),
{
    if d.len() == 0 {
        0
    } else {
        digits_value(d.drop_last()) * 10 + (d.last() as int - 48)
    }
}

/// Every character of `d` is a decimal digit.
pub open spec fn all_digits(d: Seq<char>) -> bool {
    forall|i: int| 0 <= i < d.len() ==> '0' <= #[trigger] d[i] <= '9'
}

/// `i32::from_str`: an optional sign, then at least one decimal digit, and a
/// value that fits.
pub open spec fn parse_i32(s: Seq<char>) -> Option<i32> {
    if s.len() == 0 {
        None
    } else {
        let negative = s[0] == '-';
        let digits = if s[0] == '+' || s[0] == '-' {
            s.drop_first()
        } else {
            s
        };
        if digits.len() == 0 || !all_digits(digits) {
            None
        } else {
            let v = if negative {
                -digits_value(digits)
            } else {
                digits_value(digits)
            };
            if i32::MIN <= v <= i32::MAX {
                Some(v as i32)
            } else {
                None
            }
        }
    }
}

/// A coordinate from the page, or `default` when it does not parse.
pub open spec fn coordinate(s: Seq<char>, default: i32) -> i32 {
    match parse_i32(s) {
        Some(v) => v,
        None => default,
    }
}

/// The two parts of `s` around its only comma, when it has exactly one.
pub open spec fn comma_pair(s: Seq<char>) -> Option<(Seq<char>, Seq<char>)> {
    match find(s, seq![',']) {
        None => None,
        Some(i) => if s.skip(i + 1).contains(',') {
            None
        } else {
            Some((s.take(i), s.skip(i + 1)))
        },
    }
}

/// The position reported by `left,bottom`, when it has two parts.
pub open spec fn reported_position(s: Seq<char>) -> Option<(i32, i32)> {
    match comma_pair(s) {
        Some((l, b)) => Some((coordinate(l, INIT_LEFT), coordinate(b, INIT_BOTTOM))),
        None => None,
    }
}

/// What a page title asks for.
pub open spec fn title_command(title: Seq<char>) -> TitleCommand {
    if title == "drag_start"@ {
        TitleCommand::DragStart
    } else if title == "chat_open"@ {
        TitleCommand::ChatOpen
    } else if strip_prefix(title, "chat_close:"@) is Some {
        match reported_position(strip_prefix(title, "chat_close:"@).unwrap()) {
            Some((left, bottom)) => TitleCommand::ChatClose { left, bottom },
            None => TitleCommand::ChatClose { left: INIT_LEFT, bottom: INIT_BOTTOM },
        }
    } else {
        let rest = match strip_prefix(title, "drag_end:"@) {
            Some(r) => Some(r),
            None => strip_prefix(title, "restore:"@),
        };
        match rest {
            Some(r) => match reported_position(r) {
                Some((left, bottom)) => TitleCommand::Move { left, bottom },
                None => TitleCommand::Ignore,
            },
            None => TitleCommand::Ignore,
        }
    }
}

/// A position is two parts around one comma, each read as a coordinate that
/// falls back to the initial position; text without a comma, or with more
/// than one, reports none.
pub proof fn lemma_reported_position(left: Seq<char>, bottom: Seq<char>)
    requires
        !left.contains(','),
        !bottom.contains(','),
    ensures
        reported_position(left + seq![','] + bottom) == Some(
            (coordinate(left, INIT_LEFT), coordinate(bottom, INIT_BOTTOM)),
        ),
        reported_position(left) is None,
        reported_position(left + seq![','] + bottom + seq![','] + left) is None,
{
    let s = left + seq![','] + bottom;
    let n = left.len() as int;
    assert forall|j: int| 0 <= j < n implies !occurs_at(s, seq![','], j) by {
        if occurs_at(s, seq![','], j) {
            assert(s.subrange(j, j + 1)[0] == s[j]);
            assert(left[j] == ',');
        }
    }
    assert(s.subrange(n, n + 1) =~= seq![',']);
    lemma_find_from_is(s, seq![','], 0, n);
    assert(s.take(n) =~= left);
    assert(s.skip(n + 1) =~= bottom);
    assert forall|j: int| 0 <= j implies !occurs_at(left, seq![','], j) by {
        if occurs_at(left, seq![','], j) {
            assert(left.subrange(j, j + 1)[0] == left[j]);
        }
    }
    lemma_find_from_none(left, seq![','], 0);
    let t = s + seq![','] + left;
    assert forall|j: int| 0 <= j < n implies !occurs_at(t, seq![','], j) by {
        if occurs_at(t, seq![','], j) {
            assert(t.subrange(j, j + 1)[0] == t[j]);
            assert(left[j] == ',');
        }
    }
    assert(t.subrange(n, n + 1) =~= seq![',']);
    lemma_find_from_is(t, seq![','], 0, n);
    assert(t.skip(n + 1)[bottom.len() as int] == ',');
}

/// A drag's end and a restore after loading report a position in the same
/// way: both move the input region there.
pub proof fn lemma_drag_end_and_restore_agree(position: Seq<char>)
    ensures
        title_command("drag_end:"@ + position) == title_command("restore:"@ + position),
        reported_position(position) matches Some((l, b)) ==> title_command(
            "restore:"@ + position,
        ) == (TitleCommand::Move { left: l, bottom: b }),
        reported_position(position) is None ==> title_command("restore:"@ + position)
            == TitleCommand::Ignore,
        reported_position(position) is None ==> title_command("chat_close:"@ + position)
            == (TitleCommand::ChatClose { left: INIT_LEFT, bottom: INIT_BOTTOM }),
{
    reveal_strlit("drag_end:");
    reveal_strlit("restore:");
    reveal_strlit("chat_close:");
    reveal_strlit("drag_start");
    reveal_strlit("chat_open");
    let d = "drag_end:"@ + position;
    let r = "restore:"@ + position;
    let c = "chat_close:"@ + position;
    assert(d[0] == 'd' && d[4] == '_' && d[5] == 'e');
    assert(r[0] == 'r');
    assert(c[0] == 'c' && c[5] == 'c');
    assert(d != "drag_start"@) by {
        if d == "drag_start"@ {
            assert(d[5] == "drag_start"@[5]);
        }
    }
    assert(d != "chat_open"@);
    assert(r != "drag_start"@);
    assert(r != "chat_open"@);
    assert(c != "drag_start"@);
    assert(c != "chat_open"@) by {
        if c == "chat_open"@ {
            assert(c[5] == "chat_open"@[5]);
        }
    }
    assert(!starts_with(d, "chat_close:"@)) by {
        if starts_with(d, "chat_close:"@) {
            assert(d.subrange(0, 11)[0] == d[0]);
        }
    }
    assert(!starts_with(r, "chat_close:"@)) by {
        if starts_with(r, "chat_close:"@) {
            assert(r.subrange(0, 8)[0] == r[0]);
        }
    }
    assert(!starts_with(r, "drag_end:"@)) by {
        if starts_with(r, "drag_end:"@) {
            assert(r.subrange(0, 9)[0] == r[0]);
        }
    }
    assert(d.subrange(0, 9) =~= "drag_end:"@);
    assert(d.subrange(9, d.len() as int) =~= position);
    assert(r.subrange(0, 8) =~= "restore:"@);
    assert(r.subrange(8, r.len() as int) =~= position);
    assert(c.subrange(0, 11) =~= "chat_close:"@);
    assert(c.subrange(11, c.len() as int) =~= position);
}

/// A single decimal digit reads as its value, with either sign; a sign alone
/// or nothing at all is no number.
pub proof fn lemma_parse_digit(c: char)
    requires
        '0' <= c <= '9',
    ensures
        parse_i32(seq![c]) == Some((c as int - 48) as i32),
        parse_i32(seq!['-', c]) == Some((48 - c as int) as i32),
        parse_i32(seq!['+', c]) == Some((c as int - 48) as i32),
        parse_i32(seq!['-']) is None,
        parse_i32(seq!['+']) is None,
        parse_i32(Seq::empty()) is None,
{
    assert(seq![c].drop_last() =~= Seq::<char>::empty());
    assert(seq![c].last() == c);
    assert(digits_value(Seq::<char>::empty()) == 0);
    assert(digits_value(seq![c]) == c as int - 48);
    assert(all_digits(seq![c])) by {
        assert forall|i: int| 0 <= i < 1 implies '0' <= #[trigger] seq![c][i] <= '9' by {
            assert(seq![c][i] == c);
        }
    }
    assert(seq!['-', c].drop_first() =~= seq![c]);
    assert(seq!['+', c].drop_first() =~= seq![c]);
    assert(seq!['-'].drop_first() =~= Seq::<char>::empty());
    assert(seq!['+'].drop_first() =~= Seq::<char>::empty());
}

/// Appending a digit to an unsigned number multiplies it by ten and adds the
/// digit, as long as the result fits.
pub proof fn lemma_parse_append_digit(d: Seq<char>, c: char, v: i32)
    requires
        d.len() > 0,
        all_digits(d),
        parse_i32(d) == Some(v),
        '0' <= c <= '9',
        v * 10 + (c as int - 48) <= i32::MAX,
    ensures
        parse_i32(d.push(c)) == Some((v * 10 + (c as int - 48)) as i32),
{
    let e = d.push(c);
    assert(d[0] != '-' && d[0] != '+') by {
        assert('0' <= d[0] <= '9');
    }
    assert(e[0] == d[0]);
    assert(e.drop_last() =~= d);
    assert(e.last() == c);
    assert(digits_value(e) == digits_value(d) * 10 + (c as int - 48));
    assert(v == digits_value(d));
    lemma_digits_nonneg(d);
    assert(all_digits(e)) by {
        assert forall|i: int| 0 <= i < e.len() implies '0' <= #[trigger] e[i] <= '9' by {
            if i < d.len() {
                assert(e[i] == d[i]);
            }
        }
    }
}

/// The input region around the model whose box sits `left` pixels from the
/// window's left edge and `bottom` pixels above its bottom edge, in a window
/// `window_height` pixels high.
pub fn input_region(window_height: i32, left: i32, bottom: i32) -> (region: InputRegion)
    requires
        left - MODEL_HIT_PADDING >= i32::MIN,
        window_height - bottom <= i32::MAX,
        window_height - bottom - MODEL_HEIGHT - MODEL_HIT_PADDING >= i32::MIN,
    ensures
        region.x == left - MODEL_HIT_PADDING,
        region.y == window_height - bottom - MODEL_HEIGHT - MODEL_HIT_PADDING,
        region.width == MODEL_WIDTH + MODEL_HIT_PADDING * 2,
        region.height == MODEL_HEIGHT + MODEL_HIT_PADDING * 2,
{
    InputRegion {
        x: left - MODEL_HIT_PADDING,
        y: window_height - bottom - MODEL_HEIGHT - MODEL_HIT_PADDING,
        width: MODEL_WIDTH + MODEL_HIT_PADDING * 2,
        height: MODEL_HEIGHT + MODEL_HIT_PADDING * 2,
    }
}

/// The input region around the model at its initial position.
pub fn initial_input_region(window_height: i32) -> (region: InputRegion)
    requires
        window_height - INIT_BOTTOM - MODEL_HEIGHT - MODEL_HIT_PADDING >= i32::MIN,
    ensures
        region.x == INIT_LEFT - MODEL_HIT_PADDING,
        region.y == window_height - INIT_BOTTOM - MODEL_HEIGHT - MODEL_HIT_PADDING,
        region.width == MODEL_WIDTH + MODEL_HIT_PADDING * 2,
        region.height == MODEL_HEIGHT + MODEL_HIT_PADDING * 2,
{
    input_region(window_height, INIT_LEFT, INIT_BOTTOM)
}

/// A longer string of digits is worth at least as much as its prefix.
proof fn lemma_digits_prefix(d: Seq<char>, k: int)
    requires
        0 <= k <= d.len(),
        all_digits(d),
    ensures
        digits_value(d) >= digits_value(d.take(k)),
        digits_value(d.take(k)) >= 0,
    decreases d.len() - k,
{
    if k < d.len() {
        assert(d.take(k + 1).drop_last() =~= d.take(k));
        assert('0' <= d[k] <= '9');
        lemma_digits_prefix(d, k + 1);
    } else {
        assert(d.take(k) =~= d);
        lemma_digits_nonneg(d);
    }
}

proof fn lemma_digits_nonneg(d: Seq<char>)
    requires
        all_digits(d),
    ensures
        digits_value(d) >= 0,
    decreases d.len(),
{
    if d.len() > 0 {
        assert(all_digits(d.drop_last())) by {
            assert forall|i: int| 0 <= i < d.drop_last().len() implies '0' <= #[trigger] d.drop_last()[i]
                <= '9' by {
                assert(d.drop_last()[i] == d[i]);
            }
        }
        assert('0' <= d[d.len() - 1] <= '9');
        lemma_digits_nonneg(d.drop_last());
    }
}

/// `i32::from_str`.
#[verifier::rlimit(40)]
pub fn parse_i32_text(s: &[char]) -> (res: Option<i32>)
    ensures
        res == parse_i32(s@),
{
    if s.len() == 0 {
        return None;
    }
    let negative = s[0] == '-';
    let start: usize = if s[0] == '+' || s[0] == '-' {
        1
    } else {
        0
    };
    let ghost digits = if s@[0] == '+' || s@[0] == '-' {
        s@.drop_first()
    } else {
        s@
    };
    assert(digits =~= s@.skip(start as int));
    if start == s.len() {
        return None;
    }
    let mut acc: i64 = 0;
    let mut k: usize = start;
    while k < s.len()
        invariant
            s@.len() > 0,
            start <= k <= s@.len(),
            digits == (if s@[0] == '+' || s@[0] == '-' {
                s@.drop_first()
            } else {
                s@
            }),
            digits.len() > 0,
            digits =~= s@.skip(start as int),
            all_digits(digits.take(k - start)),
            acc == digits_value(digits.take(k - start)),
            0 <= acc <= 2147483648,
        decreases s.len() - k,
    {
        let c = s[k];
        if !('0' <= c && c <= '9') {
            proof {
                assert(digits[k - start] == c);
            }
            return None;
        }
        let ghost prev = digits.take(k - start);
        acc = acc * 10 + (c as u32 - 48) as i64;
        k += 1;
        proof {
            assert(digits.take(k - start).drop_last() =~= prev);
            assert(digits.take(k - start).last() == c);
            assert forall|i: int| 0 <= i < digits.take(k - start).len() implies '0'
                <= #[trigger] digits.take(k - start)[i] <= '9' by {
                if i < prev.len() {
                    assert(digits.take(k - start)[i] == prev[i]);
                }
            }
        }
        if acc > 2147483648 {
            if all_digits_from(s, k) {
                proof {
                    assert forall|i: int| 0 <= i < digits.len() implies '0' <= #[trigger] digits[i]
                        <= '9' by {
                        if i < k - start {
                            assert(digits.take(k - start)[i] == digits[i]);
                        } else {
                            assert(digits[i] == s@[i + start]);
                        }
                    }
                    lemma_digits_prefix(digits, k - start);
                }
            } else {
                proof {
                    let j = choose|j: int| k <= j < s@.len() && !('0' <= #[trigger] s@[j] <= '9');
                    assert(digits[j - start] == s@[j]);
                }
            }
            return None;
        }
    }
    assert(digits.take(k - start) =~= digits);
    let v = if negative {
        -acc
    } else {
        acc
    };
    if v < -2147483648 || v > 2147483647 {
        None
    } else {
        Some(v as i32)
    }
}

/// Whether `s[k..]` is all decimal digits.
fn all_digits_from(s: &[char], k: usize) -> (r: bool)
    requires
        k <= s@.len(),
    ensures
        r == (forall|j: int| k <= j < s@.len() ==> '0' <= #[trigger] s@[j] <= '9'),
{
    let mut j: usize = k;
    while j < s.len()
        invariant
            k <= j <= s@.len(),
            forall|m: int| k <= m < j ==> '0' <= #[trigger] s@[m] <= '9',
        decreases s.len() - j,
    {
        if !('0' <= s[j] && s[j] <= '9') {
            return false;
        }
        j += 1;
    }
    true
}

/// The position in `left,bottom`, when it has exactly two parts; a part that
/// does not parse falls back to the initial position's coordinate.
pub fn parse_position(s: &[char]) -> (res: Option<(i32, i32)>)
    ensures
        res == reported_position(s@),
{
    let comma = vec![','];
    assert(comma@ =~= seq![',']);
    let i = match find_chars(s, &comma) {
        Some(i) => i,
        None => return None,
    };
    proof {
        lemma_find_from(s@, comma@, 0);
    }
    assert(i + 1 <= s@.len());
    let n = s.len();
    let rest = copy_range(s, i + 1, n);
    assert(rest@ =~= s@.skip(i + 1));
    match find_chars(&rest, &comma) {
        Some(j) => {
            proof {
                lemma_find_from(rest@, comma@, 0);
                assert(rest@.subrange(j as int, j + 1)[0] == rest@[j as int]);
                assert(rest@[j as int] == ',');
            }
            return None;
        },
        None => {
            proof {
                lemma_find_from(rest@, comma@, 0);
                if rest@.contains(',') {
                    let k = choose|k: int| 0 <= k < rest@.len() && rest@[k] == ',';
                    assert(rest@.subrange(k, k + 1) =~= comma@);
                    assert(occurs_at(rest@, comma@, k));
                }
            }
        },
    }
    let left_text = copy_range(s, 0, i);
    assert(left_text@ =~= s@.take(i as int));
    let left = match parse_i32_text(&left_text) {
        Some(v) => v,
        None => INIT_LEFT,
    };
    let bottom = match parse_i32_text(&rest) {
        Some(v) => v,
        None => INIT_BOTTOM,
    };
    Some((left, bottom))
}

/// Read what a page title asks the window to do.
pub fn parse_title_command(title: &str) -> (command: TitleCommand)
    ensures
        command == title_command(title@),
{
    let t = chars_of(title);
    if chars_equal(&t, &chars_of("drag_start")) {
        return TitleCommand::DragStart;
    }
    if chars_equal(&t, &chars_of("chat_open")) {
        return TitleCommand::ChatOpen;
    }
    if let Some(rest) = strip_prefix_chars(&t, &chars_of("chat_close:")) {
        return match parse_position(&rest) {
            Some((left, bottom)) => TitleCommand::ChatClose { left, bottom },
            None => TitleCommand::ChatClose { left: INIT_LEFT, bottom: INIT_BOTTOM },
        };
    }
    let rest = match strip_prefix_chars(&t, &chars_of("drag_end:")) {
        Some(r) => Some(r),
        None => strip_prefix_chars(&t, &chars_of("restore:")),
    };
    match rest {
        Some(r) => match parse_position(&r) {
            Some((left, bottom)) => TitleCommand::Move { left, bottom },
            None => TitleCommand::Ignore,
        },
        None => TitleCommand::Ignore,
    }
}

} // verus!
