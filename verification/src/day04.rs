//! Camp Cleanup: pairs of section assignments, counted by how the two
//! ranges of a pair lie to each other.

use crate::text::{after_line_ending, lemma_digits_end, read_u32, skip_line_ending, u32_at};
use vstd::prelude::*;
use vstd::string::StringSliceAdditionalSpecFns;

verus! {

/// The hyphen between the two ends of a range.
pub const HYPHEN: u8 = 0x2d;

/// The comma between the two ranges of a pair.
pub const COMMA: u8 = 0x2c;

/// The sections from `low` to `high`, both included.
#[derive(Debug, Clone, Copy, PartialEq, Eq)]
pub struct Assignment {
    pub low: u32,
    pub high: u32,
}

impl Assignment {
    /// Section `x` is one of this assignment.
    pub open spec fn has(self, x: int) -> bool {
        self.low <= x <= self.high
    }

    /// Every section of `other` is one of this assignment, and `other` does
    /// not begin or end outside it.
    pub open spec fn covers(self, other: Assignment) -> bool {
        self.low <= other.low && self.high >= other.high
    }

    /// An end of this assignment is a section of `other`, or `other` lies
    /// strictly inside this assignment.
    pub open spec fn touches(self, other: Assignment) -> bool {
        ||| other.has(self.low as int)
        ||| other.has(self.high as int)
        ||| (self.low < other.low && self.high > other.high)
    }

    /// Whether `other` lies within this assignment.
    pub fn contained_within(&self, other: &Assignment) -> (r: bool)
        ensures
            r == self.covers(*other),
    {
        self.low <= other.low && self.high >= other.high
    }

    /// Whether the two assignments overlap.
    pub fn overlapping(&self, other: &Assignment) -> (r: bool)
        ensures
            r == self.touches(*other),
    {
        (self.low >= other.low && self.low <= other.high) || (self.high >= other.low && self.high
            <= other.high) || (self.low < other.low && self.high > other.high)
    }
}

/// Two assignments that each hold at least one section overlap exactly if
/// they have a section in common.
pub proof fn lemma_touches(a: Assignment, b: Assignment)
    requires
        a.low <= a.high,
        b.low <= b.high,
    ensures
        a.touches(b) == exists|x: int| a.has(x) && b.has(x),
{
    if a.touches(b) {
        if b.has(a.low as int) {
            assert(a.has(a.low as int) && b.has(a.low as int));
        } else if b.has(a.high as int) {
            assert(a.has(a.high as int) && b.has(a.high as int));
        } else {
            assert(a.has(b.low as int) && b.has(b.low as int));
        }
    }
}

/// One assignment covers the other exactly if it has all its sections,
/// given that the other holds at least one section.
pub proof fn lemma_covers(a: Assignment, b: Assignment)
    requires
        b.low <= b.high,
    ensures
        a.covers(b) == forall|x: int| b.has(x) ==> a.has(x),
{
    if forall|x: int| b.has(x) ==> a.has(x) {
        assert(b.has(b.low as int));
        assert(b.has(b.high as int));
    }
}

/// The byte `b` stands at `i`.
pub open spec fn byte_at(s: Seq<u8>, i: int, b: u8) -> bool {
    0 <= i < s.len() && s[i] == b
}

/// The range written at `i`, two numbers with a hyphen between them, and
/// the position behind it.
pub open spec fn range_at(s: Seq<u8>, i: int) -> Option<(Assignment, int)> {
    match u32_at(s, i) {
        Some((low, hyphen)) => if byte_at(s, hyphen, HYPHEN) {
            match u32_at(s, hyphen + 1) {
                Some((high, end)) => Some((Assignment { low, high }, end)),
                None => None,
            }
        } else {
            None
        },
        None => None,
    }
}

/// The pair written on the line at `i`, two ranges with a comma between
/// them, and the position behind the line and its ending, if it has one.
pub open spec fn pair_at(s: Seq<u8>, i: int) -> Option<((Assignment, Assignment), int)> {
    match range_at(s, i) {
        Some((first, comma)) => if byte_at(s, comma, COMMA) {
            match range_at(s, comma + 1) {
                Some((second, end)) => Some(((first, second), after_line_ending(s, end))),
                None => None,
            }
        } else {
            None
        },
        None => None,
    }
}

/// Whether a pair counts: one assignment within the other, or, with
/// `overlaps`, the first overlapping the second.
pub open spec fn counts(pair: (Assignment, Assignment), overlaps: bool) -> bool {
    if overlaps {
        pair.0.touches(pair.1)
    } else {
        pair.0.covers(pair.1) || pair.1.covers(pair.0)
    }
}

/// How many of the pairs from `i` up to the first line that is no pair
/// count.
pub open spec fn count_from(s: Seq<u8>, i: int, overlaps: bool) -> nat
    decreases s.len() - i,
    via count_from_ends
{
    match pair_at(s, i) {
        Some((pair, next)) => (if counts(pair, overlaps) {
            1nat
        } else {
            0nat
        }) + count_from(s, next, overlaps),
        None => 0,
    }
}

#[via_fn]
proof fn count_from_ends(s: Seq<u8>, i: int, overlaps: bool) {
    if pair_at(s, i) is Some {
        lemma_pair_at(s, i);
    }
}

/// A pair ends behind where it begins, and inside the text.
pub proof fn lemma_pair_at(s: Seq<u8>, i: int)
    requires
        pair_at(s, i) is Some,
    ensures
        i < pair_at(s, i)->Some_0.1 <= s.len(),
        0 <= i,
{
    let hyphen = u32_at(s, i)->Some_0.1;
    if i < 0 {
        assert(crate::text::digits_end(s, i) == i);
    }
    lemma_digits_end(s, i);
    lemma_digits_end(s, hyphen + 1);
    let comma = range_at(s, i)->Some_0.1;
    let second_hyphen = u32_at(s, comma + 1)->Some_0.1;
    lemma_digits_end(s, comma + 1);
    lemma_digits_end(s, second_hyphen + 1);
}

/// The count of a list of pairs, if the text begins with a pair and the
/// count fits in 32 bits.
pub open spec fn list_count(s: Seq<u8>, overlaps: bool) -> Option<u32> {
    if pair_at(s, 0) is Some && count_from(s, 0, overlaps) <= u32::MAX {
        Some(count_from(s, 0, overlaps) as u32)
    } else {
        None
    }
}

/// Reads the range written at `at`.
pub fn parse_range(input: &[u8], at: usize) -> (r: Option<(Assignment, usize)>)
    requires
        at <= input@.len(),
    ensures
        match range_at(input@, at as int) {
            Some((range, end)) => {
                &&& r matches Some(found)
                &&& found.0 == range
                &&& found.1 == end
                &&& at < end <= input@.len()
            },
            None => r is None,
        },
{
    let (low, hyphen) = match read_u32(input, at) {
        Some(found) => found,
        None => {
            return None;
        },
    };
    if hyphen >= input.len() || input[hyphen] != HYPHEN {
        return None;
    }
    match read_u32(input, hyphen + 1) {
        Some((high, end)) => Some((Assignment { low, high }, end)),
        None => None,
    }
}

/// Reads the pair written on the line at `at`.
pub fn parse_assignment_pair(input: &[u8], at: usize) -> (r: Option<
    ((Assignment, Assignment), usize),
>)
    requires
        at <= input@.len(),
    ensures
        match pair_at(input@, at as int) {
            Some((pair, next)) => {
                &&& r matches Some(found)
                &&& found.0 == pair
                &&& found.1 == next
                &&& at < next <= input@.len()
            },
            None => r is None,
        },
{
    let (first, comma) = match parse_range(input, at) {
        Some(found) => found,
        None => {
            return None;
        },
    };
    if comma >= input.len() || input[comma] != COMMA {
        return None;
    }
    match parse_range(input, comma + 1) {
        Some((second, end)) => Some(((first, second), skip_line_ending(input, end))),
        None => None,
    }
}

/// How many pairs of the list with which the text begins count. `None` if
/// the text does not begin with a pair or the count does not fit in 32 bits.
pub fn count_pairs(input: &[u8], overlaps: bool) -> (r: Option<u32>)
    ensures
        r == list_count(input@, overlaps),
{
    let mut at: usize = 0;
    let mut result: u32 = 0;
    let mut seen = false;
    loop
        invariant
            at <= input@.len(),
            seen ==> pair_at(input@, 0) is Some,
            !seen ==> at == 0,
            result + count_from(input@, at as int, overlaps) == count_from(input@, 0, overlaps),
        decreases input@.len() - at,
    {
        match parse_assignment_pair(input, at) {
            Some(((first, second), next)) => {
                let hit = if overlaps {
                    first.overlapping(&second)
                } else {
                    first.contained_within(&second) || second.contained_within(&first)
                };
                if hit {
                    match result.checked_add(1) {
                        Some(more) => {
                            result = more;
                        },
                        None => {
                            return None;
                        },
                    }
                }
                at = next;
                seen = true;
            },
            None => {
                return if seen {
                    Some(result)
                } else {
                    None
                };
            },
        }
    }
}

/// How many pairs have one assignment within the other. The list has to
/// begin with a pair, and the count has to fit in 32 bits.
pub fn part1(i: &str) -> (total: u32)
    requires
        list_count(i.spec_bytes(), false) is Some,
    ensures
        Some(total) == list_count(i.spec_bytes(), false),
{
    match count_pairs(i.as_bytes(), false) {
        Some(total) => total,
        None => 0,
    }
}

/// How many pairs have assignments that overlap. The list has to begin with
/// a pair, and the count has to fit in 32 bits.
pub fn part2(i: &str) -> (total: u32)
    requires
        list_count(i.spec_bytes(), true) is Some,
    ensures
        Some(total) == list_count(i.spec_bytes(), true),
{
    match count_pairs(i.as_bytes(), true) {
        Some(total) => total,
        None => 0,
    }
}

} // verus!
