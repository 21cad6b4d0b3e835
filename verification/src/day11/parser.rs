//! Reads the description of a troop into an array of monkeys, in one pass
//! over the text and without any buffer but the array itself.

use crate::day11::decimal::number;
use crate::day11::grammar::{
    behind, blank_line, block_agent, block_end, block_id, block_if_false, block_if_true,
    block_items, block_modulus, block_operation, blocks, item_list, keyword, more_items,
    next_block, next_number, operation, skip_blanks, then_keyword, then_number, then_operation,
    troop_of, ParseError, COMMA, PLUS, STAR,
};
use crate::day11::model::{
    compact, holds, insert, is_well_formed, lemma_holds_view, no_items, troop, valid_troop,
    well_formed, Agent, Monkey, MonkeyOp, MAX_ITEMS,
};
use crate::text::{LINE_FEED, SPACE};
use vstd::prelude::*;
use vstd::slice::slice_subrange;
use vstd::string::StringSliceAdditionalSpecFns;

verus! {

/// The first position at or behind `i` that holds no blank.
pub fn skip(input: &[u8], i: usize) -> (at: usize)
    requires
        i <= input@.len(),
    ensures
        at == skip_blanks(input@, i as int),
        i <= at <= input@.len(),
{
    let mut at = i;
    while at < input.len() && (input[at] == SPACE || input[at] == LINE_FEED)
        invariant
            i <= at <= input@.len(),
            skip_blanks(input@, i as int) == skip_blanks(input@, at as int),
        decreases input@.len() - at,
    {
        at += 1;
    }
    at
}

/// The position behind `word`, if it is the next thing behind `i` but
/// blanks.
pub fn expect(input: &[u8], i: usize, word: &[u8]) -> (r: Option<usize>)
    requires
        i <= input@.len(),
    ensures
        match keyword(input@, i as int, word@) {
            Some(end) => r matches Some(e) && e == end && i <= end <= input@.len(),
            None => r is None,
        },
{
    let at = skip(input, i);
    if word.len() > input.len() - at {
        return None;
    }
    let mut k: usize = 0;
    while k < word.len()
        invariant
            k <= word@.len(),
            at == skip_blanks(input@, i as int),
            at + word@.len() <= input@.len() <= usize::MAX,
            input@.subrange(at as int, at + k) == word@.take(k as int),
        decreases word@.len() - k,
    {
        if input[at + k] != word[k] {
            proof {
                let found = input@.subrange(at as int, at + word@.len());
                assert(found[k as int] != word@[k as int]);
            }
            return None;
        }
        proof {
            assert(input@.subrange(at as int, at + k + 1) =~= word@.take(k as int).push(
                word@[k as int],
            ));
            assert(word@.take(k + 1) =~= word@.take(k as int).push(word@[k as int]));
        }
        k += 1;
    }
    proof {
        assert(word@.take(word@.len() as int) =~= word@);
    }
    Some(at + word.len())
}

/// The number that is the next thing behind `i` but blanks, and the position
/// behind it.
pub fn expect_number(input: &[u8], i: usize) -> (r: Option<(u64, usize)>)
    requires
        i <= input@.len(),
    ensures
        match next_number(input@, i as int) {
            Some((value, end)) => {
                &&& r matches Some((v, e))
                &&& v == value
                &&& e == end
                &&& i < end <= input@.len()
            },
            None => r is None,
        },
{
    let at = skip(input, i);
    number(input, at)
}

/// Reads the list of starting items behind `i` into `items`, which has to be
/// empty, and gives the position behind the list.
fn starting_items(input: &[u8], i: usize, items: &mut [u64; MAX_ITEMS]) -> (r: Result<
    usize,
    ParseError,
>)
    requires
        i <= input@.len(),
        holds(old(items)@, Seq::empty()),
    ensures
        match item_list(input@, i as int) {
            Ok((list, end)) => {
                &&& r matches Ok(e)
                &&& e == end
                &&& i <= end <= input@.len()
                &&& holds(final(items)@, list)
            },
            Err(e) => r == Err::<usize, ParseError>(e),
        },
{
    let at = skip(input, i);
    if !(at < input.len() && input[at] >= 0x30 && input[at] <= 0x39) {
        return Ok(i);
    }
    let mut pos = i;
    let ghost mut got: Seq<u64> = Seq::empty();
    loop
        invariant
            i <= pos <= input@.len(),
            holds(items@, got),
            item_list(input@, i as int) == more_items(input@, pos as int, got),
        decreases input@.len() - pos,
    {
        match expect_number(input, pos) {
            None => {
                return Err(ParseError::Malformed);
            },
            Some((worry, end)) => {
                if worry == 0 {
                    return Err(ParseError::Malformed);
                }
                proof {
                    lemma_holds_view(items@, got);
                }
                if !insert(items, worry) {
                    return Err(ParseError::Capacity);
                }
                proof {
                    got = got.push(worry);
                }
                let comma = skip(input, end);
                if comma < input.len() && input[comma] == COMMA {
                    pos = comma + 1;
                } else {
                    return Ok(end);
                }
            },
        }
    }
}

/// Reads the operator and the operand behind `i`.
pub fn read_operation(input: &[u8], i: usize) -> (r: Option<(MonkeyOp, usize)>)
    requires
        i <= input@.len(),
    ensures
        match operation(input@, i as int) {
            Some((op, end)) => {
                &&& r matches Some((o, e))
                &&& o == op
                &&& e == end
                &&& i <= end <= input@.len()
            },
            None => r is None,
        },
{
    let at = skip(input, i);
    if at >= input.len() {
        return None;
    }
    if input[at] == PLUS {
        match expect_number(input, at + 1) {
            Some((x, end)) => Some((MonkeyOp::Plus(x), end)),
            None => None,
        }
    } else if input[at] == STAR {
        match expect(input, at + 1, "old".as_bytes()) {
            Some(end) => Some((MonkeyOp::Square, end)),
            None => match expect_number(input, at + 1) {
                Some((x, end)) => Some((MonkeyOp::Times(x), end)),
                None => None,
            },
        }
    } else {
        None
    }
}

/// The keyword `word` as the next step behind `at`.
fn keyword_step(input: &[u8], at: usize, word: &[u8]) -> (r: Result<usize, ParseError>)
    requires
        at <= input@.len(),
    ensures
        match then_keyword(Ok(at as int), input@, word@) {
            Ok(end) => r matches Ok(e) && e == end && at <= end <= input@.len(),
            Err(e) => r == Err::<usize, ParseError>(e),
        },
{
    match expect(input, at, word) {
        Some(end) => Ok(end),
        None => Err(ParseError::Malformed),
    }
}

/// A number as the next step behind `at`.
fn number_step(input: &[u8], at: usize) -> (r: Result<(u64, usize), ParseError>)
    requires
        at <= input@.len(),
    ensures
        match then_number(Ok(at as int), input@) {
            Ok((value, end)) => {
                &&& r matches Ok((v, e))
                &&& v == value
                &&& e == end
                &&& at < end <= input@.len()
            },
            Err(e) => r == Err::<(u64, usize), ParseError>(e),
        },
{
    match expect_number(input, at) {
        Some(found) => Ok(found),
        None => Err(ParseError::Malformed),
    }
}

/// The operator and its operand as the next step behind `at`.
fn operation_step(input: &[u8], at: usize) -> (r: Result<(MonkeyOp, usize), ParseError>)
    requires
        at <= input@.len(),
    ensures
        match then_operation(Ok(at as int), input@) {
            Ok((op, end)) => {
                &&& r matches Ok((o, e))
                &&& o == op
                &&& e == end
                &&& at <= end <= input@.len()
            },
            Err(e) => r == Err::<(MonkeyOp, usize), ParseError>(e),
        },
{
    match read_operation(input, at) {
        Some(found) => Ok(found),
        None => Err(ParseError::Malformed),
    }
}

/// The error of the first step that fails is the error of the block.
proof fn lemma_first_error(s: Seq<u8>)
    ensures
        block_id(s) matches Err(e) ==> block_items(s) == Err::<(Seq<u64>, int), ParseError>(e),
        block_items(s) matches Err(e) ==> block_operation(s) == Err::<(MonkeyOp, int), ParseError>(
            e,
        ),
        block_operation(s) matches Err(e) ==> block_modulus(s) == Err::<(u64, int), ParseError>(e),
        block_modulus(s) matches Err(e) ==> block_if_true(s) == Err::<(u64, int), ParseError>(e),
        block_if_true(s) matches Err(e) ==> block_if_false(s) == Err::<(u64, int), ParseError>(e),
        block_if_false(s) matches Err(e) ==> block_agent(s) == Err::<Agent, ParseError>(e),
{
    reveal(block_agent);
}

/// Reads the head of a block, up to its starting items, into `items`, which
/// has to be empty.
fn read_items(input: &[u8], items: &mut [u64; MAX_ITEMS]) -> (r: Result<usize, ParseError>)
    requires
        holds(old(items)@, Seq::empty()),
    ensures
        match block_items(input@) {
            Ok((list, end)) => {
                &&& r matches Ok(e)
                &&& e == end
                &&& end <= input@.len()
                &&& holds(final(items)@, list)
            },
            Err(e) => r == Err::<usize, ParseError>(e),
        },
{
    let at = match keyword_step(input, 0, "Monkey".as_bytes()) {
        Ok(end) => end,
        Err(e) => {
            return Err(e);
        },
    };
    let at = match number_step(input, at) {
        Ok((_, end)) => end,
        Err(e) => {
            return Err(e);
        },
    };
    let at = match keyword_step(input, at, ":".as_bytes()) {
        Ok(end) => end,
        Err(e) => {
            return Err(e);
        },
    };
    let at = match keyword_step(input, at, "Starting items:".as_bytes()) {
        Ok(end) => end,
        Err(e) => {
            return Err(e);
        },
    };
    starting_items(input, at, items)
}

/// Reads the rules of a block, which stand behind its starting items: the
/// operation, the test modulus and the two receivers.
#[verifier::rlimit(30)]
fn read_rules(input: &[u8], at: usize) -> (r: Result<(MonkeyOp, u64, u64, u64, usize), ParseError>)
    requires
        at <= input@.len(),
        behind(block_items(input@)) == Ok::<int, ParseError>(at as int),
    ensures
        match block_if_false(input@) {
            Ok((if_false, end)) => {
                &&& r matches Ok(found)
                &&& block_operation(input@) matches Ok((op, _))
                &&& block_modulus(input@) matches Ok((modulus, _))
                &&& block_if_true(input@) matches Ok((if_true, _))
                &&& found.0 == op
                &&& found.1 == modulus
                &&& found.2 == if_true
                &&& found.3 == if_false
                &&& found.4 == end
                &&& end <= input@.len()
            },
            Err(e) => r == Err::<(MonkeyOp, u64, u64, u64, usize), ParseError>(e),
        },
{
    let at = match keyword_step(input, at, "Operation: new = old".as_bytes()) {
        Ok(end) => end,
        Err(e) => {
            return Err(e);
        },
    };
    let (op, at) = match operation_step(input, at) {
        Ok(found) => found,
        Err(e) => {
            return Err(e);
        },
    };
    let at = match keyword_step(input, at, "Test: divisible by".as_bytes()) {
        Ok(end) => end,
        Err(e) => {
            return Err(e);
        },
    };
    let (modulus, at) = match number_step(input, at) {
        Ok(found) => found,
        Err(e) => {
            return Err(e);
        },
    };
    let at = match keyword_step(input, at, "If true: throw to monkey".as_bytes()) {
        Ok(end) => end,
        Err(e) => {
            return Err(e);
        },
    };
    let (if_true, at) = match number_step(input, at) {
        Ok(found) => found,
        Err(e) => {
            return Err(e);
        },
    };
    let at = match keyword_step(input, at, "If false: throw to monkey".as_bytes()) {
        Ok(end) => end,
        Err(e) => {
            return Err(e);
        },
    };
    let (if_false, at) = match number_step(input, at) {
        Ok(found) => found,
        Err(e) => {
            return Err(e);
        },
    };
    Ok((op, modulus, if_true, if_false, at))
}

/// Reads one block into `monkey`. On an error `monkey` stays as it was.
pub fn parse_monkey(input: &[u8], monkey: &mut Monkey) -> (r: Result<(), ParseError>)
    ensures
        match block_agent(input@) {
            Ok(agent) => {
                &&& r is Ok
                &&& compact(final(monkey).items@)
                &&& final(monkey)@ == agent
            },
            Err(e) => r == Err::<(), ParseError>(e) && *final(monkey) == *old(monkey),
        },
{
    proof {
        reveal(block_agent);
        lemma_first_error(input@);
    }
    let mut items = no_items();
    let at = match read_items(input, &mut items) {
        Ok(end) => end,
        Err(e) => {
            return Err(e);
        },
    };
    let (op, modulus, if_true, if_false, at) = match read_rules(input, at) {
        Ok(found) => found,
        Err(e) => {
            return Err(e);
        },
    };
    if skip(input, at) < input.len() || if_true > usize::MAX as u64 || if_false
        > usize::MAX as u64 {
        return Err(ParseError::Malformed);
    }
    proof {
        lemma_holds_view(items@, block_items(input@)->Ok_0.0);
    }
    *monkey = Monkey {
        num_inspections: 0,
        items,
        op,
        modulus,
        if_true: if_true as usize,
        if_false: if_false as usize,
    };
    Ok(())
}

/// Where the block that begins at `start` ends.
pub fn find_block_end(input: &[u8], start: usize) -> (end: usize)
    requires
        start < input@.len(),
    ensures
        end == block_end(input@, start as int),
        start < end <= input@.len(),
{
    let len = input.len();
    let mut end = start + 1;
    while end < len && !(input[end - 1] == LINE_FEED && input[end] == LINE_FEED)
        invariant
            len == input@.len(),
            start < end <= input@.len(),
            blank_line(input@, start + 1) == blank_line(input@, end as int),
        decreases input@.len() - end,
    {
        end += 1;
    }
    end
}

/// The agents read so far, followed by those still to be read.
pub open spec fn followed_by(done: Seq<Agent>, rest: Result<Seq<Agent>, ParseError>) -> Result<
    Seq<Agent>,
    ParseError,
> {
    match rest {
        Ok(agents) => Ok(done + agents),
        Err(e) => Err(e),
    }
}

/// Reads the description of a troop of `N` monkeys. The text has one block
/// for each monkey; a block ends where a line feed follows a line feed, the
/// last one also with the text. On an error `monkeys` stays as it was.
#[verifier::rlimit(30)]
pub fn parse<const N: usize>(input: &[u8], monkeys: &mut [Monkey; N]) -> (r: Result<
    (),
    ParseError,
>)
    ensures
        match troop_of(input@, N as nat) {
            Ok(agents) => {
                &&& r is Ok
                &&& well_formed(final(monkeys)@)
                &&& troop(final(monkeys)@) == agents
            },
            Err(e) => r == Err::<(), ParseError>(e) && *final(monkeys) == *old(monkeys),
        },
{
    let mut parsed: [Monkey; N] = *monkeys;
    let mut start: usize = 0;
    let mut k: usize = 0;
    proof {
        assert(troop(parsed@).take(0) + blocks(input@, 0, N as nat)->Ok_0 =~= blocks(
            input@,
            0,
            N as nat,
        )->Ok_0);
    }
    while k < N
        invariant
            k <= N,
            start <= input@.len(),
            forall|j: int| 0 <= j < k ==> compact(#[trigger] parsed@[j].items@),
            blocks(input@, 0, N as nat) == followed_by(
                troop(parsed@).take(k as int),
                blocks(input@, start as int, (N - k) as nat),
            ),
        decreases N - k,
    {
        if skip(input, start) >= input.len() {
            return Err(ParseError::BlockCount);
        }
        let end = find_block_end(input, start);
        let block = slice_subrange(input, start, end);
        let ghost before = parsed@;
        match parse_monkey(block, &mut parsed[k]) {
            Ok(()) => {},
            Err(e) => {
                return Err(e);
            },
        }
        proof {
            let agent = parsed@[k as int]@;
            let rest = blocks(input@, next_block(input@, end as int), (N - k - 1) as nat);
            assert(troop(parsed@).take(k + 1) =~= troop(before).take(k as int).push(agent));
            if rest is Ok {
                assert(troop(before).take(k as int) + (seq![agent] + rest->Ok_0) =~= troop(
                    parsed@,
                ).take(k + 1) + rest->Ok_0);
            }
        }
        start = if end < input.len() {
            end + 1
        } else {
            end
        };
        k += 1;
    }
    if skip(input, start) < input.len() {
        return Err(ParseError::BlockCount);
    }
    proof {
        assert(troop(parsed@).take(N as int) =~= troop(parsed@));
        assert(troop(parsed@) + Seq::<Agent>::empty() =~= troop(parsed@));
        assert(valid_troop(troop(parsed@)) <==> well_formed(parsed@)) by {
            if valid_troop(troop(parsed@)) {
                assert forall|j: int| 0 <= j < parsed@.len() implies compact(
                    #[trigger] parsed@[j].items@,
                ) && parsed@[j]@.valid(parsed@.len()) by {
                    assert(troop(parsed@)[j].valid(troop(parsed@).len()));
                }
            }
            if well_formed(parsed@) {
                assert forall|j: int| 0 <= j < troop(parsed@).len() implies (#[trigger] troop(
                    parsed@,
                )[j]).valid(troop(parsed@).len()) by {
                    assert(compact(parsed@[j].items@));
                }
            }
        }
    }
    if !is_well_formed(&parsed) {
        return Err(ParseError::Malformed);
    }
    *monkeys = parsed;
    Ok(())
}

} // verus!
