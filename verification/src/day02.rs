//! Rock Paper Scissors: the total score of a strategy guide, read under two
//! different meanings of its second column.

use crate::text::{after_line_ending, skip_line_ending, skip_spaces, spaces_end};
use vstd::prelude::*;
use vstd::string::StringSliceAdditionalSpecFns;

verus! {

/// What a player shows.
#[derive(Debug, PartialEq, Eq, Clone, Copy, Structural)]
pub enum Hand {
    Rock,
    Paper,
    Scissors,
}

/// One round of the game.
#[derive(Debug, PartialEq, Eq, Clone, Copy)]
pub struct GameRound {
    pub them: Hand,
    pub us: Hand,
}

/// `winner` defeats `loser`.
pub open spec fn beats(winner: Hand, loser: Hand) -> bool {
    ||| winner == Hand::Rock && loser == Hand::Scissors
    ||| winner == Hand::Paper && loser == Hand::Rock
    ||| winner == Hand::Scissors && loser == Hand::Paper
}

/// The points for the hand that we show.
pub open spec fn shape_points(hand: Hand) -> nat {
    match hand {
        Hand::Rock => 1,
        Hand::Paper => 2,
        Hand::Scissors => 3,
    }
}

/// The points for the outcome: 6 for a win, 3 for a draw, none for a loss.
pub open spec fn outcome_points(round: GameRound) -> nat {
    if beats(round.us, round.them) {
        6
    } else if round.us == round.them {
        3
    } else {
        0
    }
}

/// The points of a round.
pub open spec fn round_points(round: GameRound) -> nat {
    shape_points(round.us) + outcome_points(round)
}

/// The points of a round.
pub fn score(r: &GameRound) -> (points: u32)
    ensures
        points == round_points(*r),
{
    match r.us {
        Hand::Rock => match r.them {
            Hand::Rock => 1 + 3,
            Hand::Paper => 1,
            Hand::Scissors => 1 + 6,
        },
        Hand::Paper => match r.them {
            Hand::Rock => 2 + 6,
            Hand::Paper => 2 + 3,
            Hand::Scissors => 2,
        },
        Hand::Scissors => match r.them {
            Hand::Rock => 3,
            Hand::Paper => 3 + 6,
            Hand::Scissors => 3 + 3,
        },
    }
}

/// The hand to show against `them` when the guide says `us`: `X` to lose,
/// `Y` to draw, `Z` to win.
pub fn part2_hand(them: Hand, us: char) -> (hand: Hand)
    requires
        us == 'X' || us == 'Y' || us == 'Z',
    ensures
        us == 'X' ==> beats(them, hand),
        us == 'Y' ==> hand == them,
        us == 'Z' ==> beats(hand, them),
{
    if us == 'X' {
        match them {
            Hand::Rock => Hand::Scissors,
            Hand::Paper => Hand::Rock,
            Hand::Scissors => Hand::Paper,
        }
    } else if us == 'Y' {
        them
    } else {
        match them {
            Hand::Rock => Hand::Paper,
            Hand::Paper => Hand::Scissors,
            Hand::Scissors => Hand::Rock,
        }
    }
}

/// The hand that the first column names: `A`, `B` or `C`.
pub open spec fn their_hand(letter: u8) -> Option<Hand> {
    if letter == 0x41 {
        Some(Hand::Rock)
    } else if letter == 0x42 {
        Some(Hand::Paper)
    } else if letter == 0x43 {
        Some(Hand::Scissors)
    } else {
        None
    }
}

/// The hand that the second column names if it is read as a hand: `X`, `Y`
/// or `Z`.
pub open spec fn our_hand(letter: u8) -> Option<Hand> {
    if letter == 0x58 {
        Some(Hand::Rock)
    } else if letter == 0x59 {
        Some(Hand::Paper)
    } else if letter == 0x5a {
        Some(Hand::Scissors)
    } else {
        None
    }
}

/// The hand that answers `them` if the second column is read as the outcome
/// to reach: `X` to lose, `Y` to draw, `Z` to win.
pub open spec fn answer(them: Hand, letter: u8) -> Hand {
    if letter == 0x58 {
        match them {
            Hand::Rock => Hand::Scissors,
            Hand::Paper => Hand::Rock,
            Hand::Scissors => Hand::Paper,
        }
    } else if letter == 0x5a {
        match them {
            Hand::Rock => Hand::Paper,
            Hand::Paper => Hand::Scissors,
            Hand::Scissors => Hand::Rock,
        }
    } else {
        them
    }
}

/// The two letters of the line at `i`, and the position behind the line: a
/// letter of the first column, one or more spaces or tabulators, a letter of
/// the second column, and a line ending if there is one.
pub open spec fn letters_at(s: Seq<u8>, i: int) -> Option<(u8, u8, int)> {
    let second = spaces_end(s, i + 1);
    if 0 <= i < s.len() && their_hand(s[i]) is Some && i + 1 < second < s.len() && our_hand(
        s[second],
    ) is Some {
        Some((s[i], s[second], after_line_ending(s, second + 1)))
    } else {
        None
    }
}

/// The round at `i`, the second column read as a hand or as an outcome.
pub open spec fn round_at(s: Seq<u8>, i: int, by_outcome: bool) -> Option<(GameRound, int)> {
    match letters_at(s, i) {
        Some((first, second, next)) => {
            let them = their_hand(first)->Some_0;
            let us = if by_outcome {
                answer(them, second)
            } else {
                our_hand(second)->Some_0
            };
            Some((GameRound { them, us }, next))
        },
        None => None,
    }
}

/// The points of the rounds from `i` up to the first line that is no round.
pub open spec fn total_from(s: Seq<u8>, i: int, by_outcome: bool) -> nat
    decreases s.len() - i,
    via total_from_ends
{
    match round_at(s, i, by_outcome) {
        Some((round, next)) => round_points(round) + total_from(s, next, by_outcome),
        None => 0,
    }
}

#[via_fn]
proof fn total_from_ends(s: Seq<u8>, i: int, by_outcome: bool) {
    if letters_at(s, i) is Some {
        lemma_spaces_end(s, i + 1);
    }
}

/// The run of spaces at `i` does not end before `i`.
pub proof fn lemma_spaces_end(s: Seq<u8>, i: int)
    requires
        0 <= i,
    ensures
        i <= spaces_end(s, i),
        i <= s.len() ==> spaces_end(s, i) <= s.len(),
    decreases s.len() - i,
{
    if i < s.len() && crate::text::is_space(s[i]) {
        lemma_spaces_end(s, i + 1);
    }
}

/// The total of a strategy guide, if the text begins with a round and the
/// points fit in 32 bits.
pub open spec fn guide_total(s: Seq<u8>, by_outcome: bool) -> Option<u32> {
    if round_at(s, 0, by_outcome) is Some && total_from(s, 0, by_outcome) <= u32::MAX {
        Some(total_from(s, 0, by_outcome) as u32)
    } else {
        None
    }
}

/// Reads the two letters of the line at `at`.
pub fn read_letters(input: &[u8], at: usize) -> (r: Option<(u8, u8, usize)>)
    requires
        at <= input@.len(),
    ensures
        match letters_at(input@, at as int) {
            Some((first, second, next)) => {
                &&& r matches Some(found)
                &&& found.0 == first
                &&& found.1 == second
                &&& found.2 == next
                &&& at + 3 <= next <= input@.len()
            },
            None => r is None,
        },
{
    let len = input.len();
    if at >= len {
        return None;
    }
    let first = input[at];
    if !(first == 0x41 || first == 0x42 || first == 0x43) {
        return None;
    }
    let second_at = skip_spaces(input, at + 1);
    if second_at == at + 1 || second_at >= len {
        return None;
    }
    let second = input[second_at];
    if !(second == 0x58 || second == 0x59 || second == 0x5a) {
        return None;
    }
    let next = skip_line_ending(input, second_at + 1);
    Some((first, second, next))
}

/// The hand that a letter of the first column names.
fn hand_of(letter: u8, base: u8) -> (hand: Hand)
    requires
        base <= letter <= base + 2,
        base <= 0x60,
    ensures
        letter == base ==> hand == Hand::Rock,
        letter == base + 1 ==> hand == Hand::Paper,
        letter == base + 2 ==> hand == Hand::Scissors,
{
    if letter == base {
        Hand::Rock
    } else if letter == base + 1 {
        Hand::Paper
    } else {
        Hand::Scissors
    }
}

/// Reads the round at `at`, the second column as the hand that we show.
pub fn parse_part1_round(input: &[u8], at: usize) -> (r: Option<(GameRound, usize)>)
    requires
        at <= input@.len(),
    ensures
        match round_at(input@, at as int, false) {
            Some((round, next)) => {
                &&& r matches Some(found)
                &&& found.0 == round
                &&& found.1 == next
                &&& at + 3 <= next <= input@.len()
            },
            None => r is None,
        },
{
    match read_letters(input, at) {
        Some((first, second, next)) => Some(
            (GameRound { them: hand_of(first, 0x41), us: hand_of(second, 0x58) }, next),
        ),
        None => None,
    }
}

/// Reads the round at `at`, the second column as the outcome to reach.
pub fn parse_part2_round(input: &[u8], at: usize) -> (r: Option<(GameRound, usize)>)
    requires
        at <= input@.len(),
    ensures
        match round_at(input@, at as int, true) {
            Some((round, next)) => {
                &&& r matches Some(found)
                &&& found.0 == round
                &&& found.1 == next
                &&& at + 3 <= next <= input@.len()
            },
            None => r is None,
        },
{
    match read_letters(input, at) {
        Some((first, second, next)) => {
            let them = hand_of(first, 0x41);
            Some((GameRound { them, us: part2_hand(them, second as char) }, next))
        },
        None => None,
    }
}

/// The total of the rounds with which the guide begins, the second column
/// read as a hand or as an outcome. `None` if the guide does not begin with
/// a round or the total does not fit in 32 bits.
pub fn total_score(input: &[u8], by_outcome: bool) -> (r: Option<u32>)
    ensures
        r == guide_total(input@, by_outcome),
{
    let mut at: usize = 0;
    let mut sum: u32 = 0;
    let mut seen = false;
    loop
        invariant
            at <= input@.len(),
            seen ==> round_at(input@, 0, by_outcome) is Some,
            !seen ==> at == 0,
            sum + total_from(input@, at as int, by_outcome) == total_from(input@, 0, by_outcome),
        decreases input@.len() - at,
    {
        let parsed = if by_outcome {
            parse_part2_round(input, at)
        } else {
            parse_part1_round(input, at)
        };
        match parsed {
            Some((round, next)) => {
                match sum.checked_add(score(&round)) {
                    Some(more) => {
                        sum = more;
                    },
                    None => {
                        return None;
                    },
                }
                at = next;
                seen = true;
            },
            None => {
                return if seen {
                    Some(sum)
                } else {
                    None
                };
            },
        }
    }
}

/// The total score if the second column names the hand that we show. The
/// guide has to begin with a round, and the total has to fit in 32 bits.
pub fn part1(i: &str) -> (total: u32)
    requires
        guide_total(i.spec_bytes(), false) is Some,
    ensures
        Some(total) == guide_total(i.spec_bytes(), false),
{
    match total_score(i.as_bytes(), false) {
        Some(total) => total,
        None => 0,
    }
}

/// The total score if the second column names the outcome to reach. The
/// guide has to begin with a round, and the total has to fit in 32 bits.
pub fn part2(i: &str) -> (total: u32)
    requires
        guide_total(i.spec_bytes(), true) is Some,
    ensures
        Some(total) == guide_total(i.spec_bytes(), true),
{
    match total_score(i.as_bytes(), true) {
        Some(total) => total,
        None => 0,
    }
}

} // verus!
