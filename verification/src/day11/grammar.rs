//! The text that describes a troop, as a grammar over bytes.
//!
//! A troop is written as one block for each monkey, and a blank line between
//! two blocks:
//!
//! ```text
//! Monkey 0:
//!   Starting items: 79, 98
//!   Operation: new = old * 19
//!   Test: divisible by 23
//!     If true: throw to monkey 2
//!     If false: throw to monkey 3
//! ```
//!
//! Spaces and line feeds may stand in any number before each keyword, number,
//! operator and comma, and behind the last number of a block. The operand of
//! the operation is a number or, behind `*`, the word `old`.

use crate::day11::decimal::number_at;
use crate::text::{is_digit, LINE_FEED, SPACE};
use crate::day11::model::{valid_troop, Agent, MonkeyOp, MAX_ITEMS};
use vstd::prelude::*;
use vstd::string::StringSliceAdditionalSpecFns;

verus! {

/// Why a text is not the description of a troop.
#[derive(Debug, Clone, Copy, PartialEq, Eq)]
pub enum ParseError {
    /// A block does not follow the grammar, or it holds a number that no
    /// monkey can have: one that is too large, an item of worry level 0, a
    /// test modulus 0, a receiver outside the troop.
    Malformed,
    /// The text has fewer or more blocks than the troop has monkeys.
    BlockCount,
    /// A block lists more than `MAX_ITEMS` starting items.
    Capacity,
}

/// The comma between two starting items.
pub const COMMA: u8 = 0x2c;

/// The operator of an addition.
pub const PLUS: u8 = 0x2b;

/// The operator of a multiplication.
pub const STAR: u8 = 0x2a;

/// A byte that separates words and lines.
pub open spec fn is_blank(b: u8) -> bool {
    b == SPACE || b == LINE_FEED
}

/// The first position at or behind `i` that holds no blank.
pub open spec fn skip_blanks(s: Seq<u8>, i: int) -> int
    decreases s.len() - i,
{
    if 0 <= i < s.len() && is_blank(s[i]) {
        skip_blanks(s, i + 1)
    } else {
        i
    }
}

/// The bytes of `word` stand at `i`.
pub open spec fn word_at(s: Seq<u8>, i: int, word: Seq<u8>) -> bool {
    0 <= i && i + word.len() <= s.len() && s.subrange(i, i + word.len()) == word
}

/// The position behind `word`, if it is the next thing behind `i` but
/// blanks.
pub open spec fn keyword(s: Seq<u8>, i: int, word: Seq<u8>) -> Option<int> {
    let at = skip_blanks(s, i);
    if word_at(s, at, word) {
        Some(at + word.len())
    } else {
        None
    }
}

/// The number that is the next thing behind `i` but blanks, and the position
/// behind it.
pub open spec fn next_number(s: Seq<u8>, i: int) -> Option<(u64, int)> {
    number_at(s, skip_blanks(s, i))
}

/// The starting items from the one written behind `i` on, added to `got`,
/// and the position behind the last of them.
pub open spec fn more_items(s: Seq<u8>, i: int, got: Seq<u64>) -> Result<
    (Seq<u64>, int),
    ParseError,
>
    decreases s.len() - i,
    via more_items_ends
{
    match next_number(s, i) {
        None => Err(ParseError::Malformed),
        Some((worry, end)) => if worry == 0 {
            Err(ParseError::Malformed)
        } else if got.len() >= MAX_ITEMS {
            Err(ParseError::Capacity)
        } else {
            let comma = skip_blanks(s, end);
            if comma < s.len() && s[comma] == COMMA {
                more_items(s, comma + 1, got.push(worry))
            } else {
                Ok((got.push(worry), end))
            }
        },
    }
}

#[via_fn]
proof fn more_items_ends(s: Seq<u8>, i: int, got: Seq<u64>) {
    if 0 <= i <= s.len() {
        lemma_skip_blanks(s, i);
        crate::text::lemma_digits_end(s, skip_blanks(s, i));
        match next_number(s, i) {
            Some((worry, end)) => {
                lemma_skip_blanks(s, end);
            },
            None => {},
        }
    } else if i > s.len() {
        assert(skip_blanks(s, i) == i);
        assert(crate::text::digits_end(s, i) == i);
    } else {
        assert(skip_blanks(s, i) == i);
        assert(crate::text::digits_end(s, i) == i);
    }
}

/// The list of starting items behind `i`, which may be empty, and the
/// position behind it.
pub open spec fn item_list(s: Seq<u8>, i: int) -> Result<(Seq<u64>, int), ParseError> {
    let at = skip_blanks(s, i);
    if 0 <= at < s.len() && is_digit(s[at]) {
        more_items(s, i, Seq::empty())
    } else {
        Ok((Seq::empty(), i))
    }
}

/// The operation written behind `i`: an operator and its operand.
pub open spec fn operation(s: Seq<u8>, i: int) -> Option<(MonkeyOp, int)> {
    let at = skip_blanks(s, i);
    if 0 <= at < s.len() && s[at] == PLUS {
        match next_number(s, at + 1) {
            Some((x, end)) => Some((MonkeyOp::Plus(x), end)),
            None => None,
        }
    } else if 0 <= at < s.len() && s[at] == STAR {
        match keyword(s, at + 1, "old".spec_bytes()) {
            Some(end) => Some((MonkeyOp::Square, end)),
            None => match next_number(s, at + 1) {
                Some((x, end)) => Some((MonkeyOp::Times(x), end)),
                None => None,
            },
        }
    } else {
        None
    }
}

/// `skip_blanks` stays inside the text, passes blanks only and stops before a
/// byte that is no blank.
pub proof fn lemma_skip_blanks(s: Seq<u8>, i: int)
    requires
        0 <= i <= s.len(),
    ensures
        i <= skip_blanks(s, i) <= s.len(),
        forall|k: int| i <= k < skip_blanks(s, i) ==> is_blank(s[k]),
        skip_blanks(s, i) < s.len() ==> !is_blank(s[skip_blanks(s, i)]),
    decreases s.len() - i,
{
    if i < s.len() && is_blank(s[i]) {
        lemma_skip_blanks(s, i + 1);
    }
}

/// A position that is reached over blanks only and holds no blank is where
/// `skip_blanks` stops.
pub proof fn lemma_skip_blanks_is(s: Seq<u8>, i: int, at: int)
    requires
        0 <= i <= at <= s.len(),
        forall|k: int| i <= k < at ==> is_blank(s[k]),
        at < s.len() ==> !is_blank(s[at]),
    ensures
        skip_blanks(s, i) == at,
    decreases at - i,
{
    if i < at {
        lemma_skip_blanks_is(s, i + 1, at);
    }
}

/// The position that a step of the grammar has reached.
pub open spec fn behind<T>(step: Result<(T, int), ParseError>) -> Result<int, ParseError> {
    match step {
        Ok((_, end)) => Ok(end),
        Err(e) => Err(e),
    }
}

/// The keyword `word` as the next step.
pub open spec fn then_keyword(at: Result<int, ParseError>, s: Seq<u8>, word: Seq<u8>) -> Result<
    int,
    ParseError,
> {
    match at {
        Ok(i) => match keyword(s, i, word) {
            Some(end) => Ok(end),
            None => Err(ParseError::Malformed),
        },
        Err(e) => Err(e),
    }
}

/// A number as the next step.
pub open spec fn then_number(at: Result<int, ParseError>, s: Seq<u8>) -> Result<
    (u64, int),
    ParseError,
> {
    match at {
        Ok(i) => match next_number(s, i) {
            Some(found) => Ok(found),
            None => Err(ParseError::Malformed),
        },
        Err(e) => Err(e),
    }
}

/// The list of starting items as the next step.
pub open spec fn then_items(at: Result<int, ParseError>, s: Seq<u8>) -> Result<
    (Seq<u64>, int),
    ParseError,
> {
    match at {
        Ok(i) => item_list(s, i),
        Err(e) => Err(e),
    }
}

/// The operator and its operand as the next step.
pub open spec fn then_operation(at: Result<int, ParseError>, s: Seq<u8>) -> Result<
    (MonkeyOp, int),
    ParseError,
> {
    match at {
        Ok(i) => match operation(s, i) {
            Some(found) => Ok(found),
            None => Err(ParseError::Malformed),
        },
        Err(e) => Err(e),
    }
}

/// The number of the monkey, which heads the block and is not used.
pub open spec fn block_id(s: Seq<u8>) -> Result<(u64, int), ParseError> {
    then_number(then_keyword(Ok(0), s, "Monkey".spec_bytes()), s)
}

/// The starting items of the block.
pub open spec fn block_items(s: Seq<u8>) -> Result<(Seq<u64>, int), ParseError> {
    let colon = then_keyword(behind(block_id(s)), s, ":".spec_bytes());
    then_items(then_keyword(colon, s, "Starting items:".spec_bytes()), s)
}

/// The operation of the block.
pub open spec fn block_operation(s: Seq<u8>) -> Result<(MonkeyOp, int), ParseError> {
    then_operation(then_keyword(behind(block_items(s)), s, "Operation: new = old".spec_bytes()), s)
}

/// The test modulus of the block.
pub open spec fn block_modulus(s: Seq<u8>) -> Result<(u64, int), ParseError> {
    then_number(then_keyword(behind(block_operation(s)), s, "Test: divisible by".spec_bytes()), s)
}

/// The receiver of the block for a test that succeeds.
pub open spec fn block_if_true(s: Seq<u8>) -> Result<(u64, int), ParseError> {
    then_number(
        then_keyword(behind(block_modulus(s)), s, "If true: throw to monkey".spec_bytes()),
        s,
    )
}

/// The receiver of the block for a test that fails.
pub open spec fn block_if_false(s: Seq<u8>) -> Result<(u64, int), ParseError> {
    then_number(
        then_keyword(behind(block_if_true(s)), s, "If false: throw to monkey".spec_bytes()),
        s,
    )
}

/// The agent that one block describes. The steps of the grammar are taken in
/// the order of the text, and the first that fails gives the error. Nothing
/// but blanks may follow the last number, and a receiver has to fit in a
/// `usize`.
#[verifier::opaque]
pub open spec fn block_agent(s: Seq<u8>) -> Result<Agent, ParseError> {
    match (
        block_items(s),
        block_operation(s),
        block_modulus(s),
        block_if_true(s),
        block_if_false(s),
    ) {
        (
            Ok((items, _)),
            Ok((operation, _)),
            Ok((modulus, _)),
            Ok((if_true, _)),
            Ok((if_false, end)),
        ) => if skip_blanks(s, end) < s.len() || if_true > usize::MAX || if_false > usize::MAX {
            Err(ParseError::Malformed)
        } else {
            Ok(
                Agent {
                    inspection_count: 0,
                    items,
                    operation,
                    test_modulus: modulus as nat,
                    true_target: if_true as nat,
                    false_target: if_false as nat,
                },
            )
        },
        _ => match block_if_false(s) {
            Err(e) => Err(e),
            Ok(_) => Err(ParseError::Malformed),
        },
    }
}

/// For `i >= 1`: the first position at or behind `i` at which a line feed
/// follows a line feed, or the length of the text if there is none.
pub open spec fn blank_line(s: Seq<u8>, i: int) -> int
    decreases s.len() - i,
{
    if i < 1 || i >= s.len() {
        s.len() as int
    } else if s[i - 1] == LINE_FEED && s[i] == LINE_FEED {
        i
    } else {
        blank_line(s, i + 1)
    }
}

/// Where the block that begins at `start` ends: at the second of the next
/// two line feeds in a row, or with the text.
pub open spec fn block_end(s: Seq<u8>, start: int) -> int {
    blank_line(s, start + 1)
}

/// Where the block behind the one that ends at `end` begins.
pub open spec fn next_block(s: Seq<u8>, end: int) -> int {
    if end < s.len() {
        end + 1
    } else {
        end
    }
}

/// The agents that the `left` blocks from `start` on describe. Nothing but
/// blanks may follow the last block.
pub open spec fn blocks(s: Seq<u8>, start: int, left: nat) -> Result<Seq<Agent>, ParseError>
    decreases left,
{
    if skip_blanks(s, start) >= s.len() {
        if left == 0 {
            Ok(Seq::empty())
        } else {
            Err(ParseError::BlockCount)
        }
    } else if left == 0 {
        Err(ParseError::BlockCount)
    } else {
        match block_agent(s.subrange(start, block_end(s, start))) {
            Err(e) => Err(e),
            Ok(agent) => match blocks(s, next_block(s, block_end(s, start)), (left - 1) as nat) {
                Ok(rest) => Ok(seq![agent] + rest),
                Err(e) => Err(e),
            },
        }
    }
}

/// The troop of `n` agents that a text describes: the text has `n` blocks,
/// and the agents they describe form a valid troop.
pub open spec fn troop_of(s: Seq<u8>, n: nat) -> Result<Seq<Agent>, ParseError> {
    match blocks(s, 0, n) {
        Ok(agents) => if valid_troop(agents) {
            Ok(agents)
        } else {
            Err(ParseError::Malformed)
        },
        Err(e) => Err(e),
    }
}

} // verus!
