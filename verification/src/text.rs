//! Bytes of text: digits, decimal numbers, blanks and line endings.

use vstd::prelude::*;
use vstd::slice::slice_subrange;

verus! {

/// The line feed.
pub const LINE_FEED: u8 = 0x0a;

/// The carriage return.
pub const CARRIAGE_RETURN: u8 = 0x0d;

/// The space.
pub const SPACE: u8 = 0x20;

/// The tabulator.
pub const TAB: u8 = 0x09;

/// An ASCII digit.
pub open spec fn is_digit(b: u8) -> bool {
    0x30 <= b <= 0x39
}

/// The number that a run of digits writes, the last digit counting least.
pub open spec fn decimal(digits: Seq<u8>) -> nat
    decreases digits.len(),
{
    if digits.len() == 0 {
        0
    } else {
        decimal(digits.drop_last()) * 10 + (digits.last() - 0x30) as nat
    }
}

/// Every byte is a digit.
pub open spec fn all_digits(text: Seq<u8>) -> bool {
    forall|k: int| 0 <= k < text.len() ==> is_digit(#[trigger] text[k])
}

/// The end of the run of digits that begins at `i`.
pub open spec fn digits_end(s: Seq<u8>, i: int) -> int
    decreases s.len() - i,
{
    if 0 <= i < s.len() && is_digit(s[i]) {
        digits_end(s, i + 1)
    } else {
        i
    }
}

/// The run of digits at `i` stays inside the text, holds digits only and
/// ends before a byte that is no digit.
pub proof fn lemma_digits_end(s: Seq<u8>, i: int)
    requires
        0 <= i <= s.len(),
    ensures
        i <= digits_end(s, i) <= s.len(),
        forall|k: int| i <= k < digits_end(s, i) ==> is_digit(s[k]),
        digits_end(s, i) < s.len() ==> !is_digit(s[digits_end(s, i)]),
    decreases s.len() - i,
{
    if i < s.len() && is_digit(s[i]) {
        lemma_digits_end(s, i + 1);
    }
}

/// A position that is reached over digits only and holds no digit is the
/// end of the run.
pub proof fn lemma_digits_end_is(s: Seq<u8>, i: int, end: int)
    requires
        0 <= i <= end <= s.len(),
        forall|k: int| i <= k < end ==> is_digit(s[k]),
        end < s.len() ==> !is_digit(s[end]),
    ensures
        digits_end(s, i) == end,
    decreases end - i,
{
    if i < end {
        lemma_digits_end_is(s, i + 1, end);
    }
}

/// The run of digits in a part of a text is the run of digits in the text.
pub proof fn lemma_digits_end_in_tail(s: Seq<u8>, i: int, k: int)
    requires
        0 <= i <= s.len(),
        0 <= k <= s.len() - i,
    ensures
        digits_end(s.subrange(i, s.len() as int), k) == digits_end(s, i + k) - i,
    decreases s.len() - i - k,
{
    let tail = s.subrange(i, s.len() as int);
    if k < tail.len() && is_digit(tail[k]) {
        lemma_digits_end_in_tail(s, i, k + 1);
    }
}

/// The number written at `i`, with the position behind its last digit, if
/// a digit stands at `i` and the number fits in 32 bits.
pub open spec fn u32_at(s: Seq<u8>, i: int) -> Option<(u32, int)> {
    let end = digits_end(s, i);
    if i < end && decimal(s.subrange(i, end)) <= u32::MAX {
        Some((decimal(s.subrange(i, end)) as u32, end))
    } else {
        None
    }
}

/// The number with which a text begins, and the text behind it.
pub open spec fn leading_u32(s: Seq<u8>) -> Option<(Seq<u8>, u32)> {
    match u32_at(s, 0) {
        Some((value, end)) => Some((s.skip(end), value)),
        None => None,
    }
}

/// Calls `nom::character::complete::u32` on a text of bytes. The crate reads
/// the digits with which the text begins as a decimal number and hands back
/// the text behind them; it fails if the text does not begin with a digit,
/// or if the number does not fit in 32 bits.
#[verifier::external_body]
fn nom_u32<'a>(input: &'a [u8]) -> (r: Option<(&'a [u8], u32)>)
    ensures
        match leading_u32(input@) {
            Some((rest, value)) => r matches Some((got, v)) && got@ == rest && v == value,
            None => r is None,
        },
{
    match nom::character::complete::u32::<&[u8], nom::error::Error<&[u8]>>(input) {
        Ok((rest, value)) => Some((rest, value)),
        Err(_) => None,
    }
}

/// Reads the number written at `i`.
pub fn read_u32(input: &[u8], i: usize) -> (r: Option<(u32, usize)>)
    requires
        i <= input@.len(),
    ensures
        match u32_at(input@, i as int) {
            Some((value, end)) => {
                &&& r matches Some((v, e))
                &&& v == value
                &&& e == end
                &&& i < end <= input@.len()
            },
            None => r is None,
        },
{
    let len = input.len();
    let tail = slice_subrange(input, i, len);
    proof {
        lemma_digits_end_in_tail(input@, i as int, 0);
        lemma_digits_end(input@, i as int);
        let end = digits_end(input@, i as int);
        assert(tail@.subrange(0, end - i) =~= input@.subrange(i as int, end));
    }
    match nom_u32(tail) {
        Some((rest, value)) => Some((value, len - rest.len())),
        None => None,
    }
}

/// The position behind the line ending at `i`, a line feed or a carriage
/// return with a line feed, or `i` itself if there is none.
pub open spec fn after_line_ending(s: Seq<u8>, i: int) -> int {
    if 0 <= i < s.len() && s[i] == LINE_FEED {
        i + 1
    } else if 0 <= i && i + 1 < s.len() && s[i] == CARRIAGE_RETURN && s[i + 1] == LINE_FEED {
        i + 2
    } else {
        i
    }
}

/// Passes the line ending at `i`, if there is one.
pub fn skip_line_ending(input: &[u8], i: usize) -> (at: usize)
    requires
        i <= input@.len(),
    ensures
        at == after_line_ending(input@, i as int),
        i <= at <= input@.len(),
{
    let len = input.len();
    if i < len && input[i] == LINE_FEED {
        i + 1
    } else if i < len && len - i >= 2 && input[i] == CARRIAGE_RETURN && input[i + 1] == LINE_FEED {
        i + 2
    } else {
        i
    }
}

/// A space or a tabulator.
pub open spec fn is_space(b: u8) -> bool {
    b == SPACE || b == TAB
}

/// The end of the run of spaces and tabulators that begins at `i`.
pub open spec fn spaces_end(s: Seq<u8>, i: int) -> int
    decreases s.len() - i,
{
    if 0 <= i < s.len() && is_space(s[i]) {
        spaces_end(s, i + 1)
    } else {
        i
    }
}

/// Passes the spaces and tabulators at `i`.
pub fn skip_spaces(input: &[u8], i: usize) -> (at: usize)
    requires
        i <= input@.len(),
    ensures
        at == spaces_end(input@, i as int),
        i <= at <= input@.len(),
{
    let mut at = i;
    while at < input.len() && (input[at] == SPACE || input[at] == TAB)
        invariant
            i <= at <= input@.len(),
            spaces_end(input@, i as int) == spaces_end(input@, at as int),
        decreases input@.len() - at,
    {
        at += 1;
    }
    at
}

} // verus!
