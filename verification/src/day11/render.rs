//! The text that describes a troop, written out, and the proof that reading
//! it gives the troop back.

use crate::day11::grammar::{
    behind, blank_line, block_agent, block_end, block_id, block_items, block_modulus,
    block_operation, blocks, is_blank, item_list, keyword, lemma_skip_blanks_is, more_items,
    next_number, operation, skip_blanks, then_keyword, then_number, then_operation, troop_of,
    word_at, ParseError, COMMA, PLUS, STAR,
};
use crate::day11::model::{compact, troop, well_formed, Agent, Monkey, MonkeyOp, MAX_ITEMS};
use crate::text::{all_digits, decimal, is_digit, lemma_digits_end_is, LINE_FEED, SPACE};
use vstd::prelude::*;
use vstd::string::{is_ascii_spec_bytes, StringSliceAdditionalSpecFns};

verus! {

/// The digits that write `n`, without leading zeros.
pub open spec fn digits_of(n: nat) -> Seq<u8>
    decreases n,
{
    if n < 10 {
        seq![(0x30 + n) as u8]
    } else {
        digits_of(n / 10).push((0x30 + n % 10) as u8)
    }
}

/// The digits of a number are digits, at least one, and write the number.
pub proof fn lemma_digits_of(n: nat)
    ensures
        digits_of(n).len() >= 1,
        all_digits(digits_of(n)),
        decimal(digits_of(n)) == n,
    decreases n,
{
    reveal_with_fuel(decimal, 2);
    if n < 10 {
        assert(digits_of(n).drop_last() =~= Seq::<u8>::empty());
    } else {
        lemma_digits_of(n / 10);
        assert(digits_of(n).drop_last() =~= digits_of(n / 10));
    }
}

/// Every byte is a blank.
spec fn all_blank(gap: Seq<u8>) -> bool {
    forall|k: int| 0 <= k < gap.len() ==> is_blank(#[trigger] gap[k])
}

/// A gap, a piece of text and what follows them.
#[verifier::opaque]
pub open spec fn then(gap: Seq<u8>, piece: Seq<u8>, rest: Seq<u8>) -> Seq<u8> {
    gap + (piece + rest)
}

/// How a text that begins with a gap and a piece begins.
proof fn lemma_then_starts(gap: Seq<u8>, piece: Seq<u8>, rest: Seq<u8>)
    ensures
        then(gap, piece, rest).len() == gap.len() + piece.len() + rest.len(),
        gap.len() > 0 ==> then(gap, piece, rest)[0] == gap[0],
        gap.len() == 0 && piece.len() > 0 ==> then(gap, piece, rest)[0] == piece[0],
{
    reveal(then);
}

/// A keyword that follows a gap of blanks is found behind the gap.
proof fn lemma_keyword_found(
    before: Seq<u8>,
    gap: Seq<u8>,
    word: Seq<u8>,
    rest: Seq<u8>,
)
    requires
        all_blank(gap),
        word.len() > 0,
        !is_blank(word[0]),
    ensures
        skip_blanks(before + then(gap, word, rest), before.len() as int) == before.len()
            + gap.len(),
        keyword(before + then(gap, word, rest), before.len() as int, word) == Some(
            (before.len() + gap.len() + word.len()) as int,
        ),
        (before + then(gap, word, rest))[(before.len() + gap.len()) as int] == word[0],
{
    reveal(then);
    let s = before + (gap + (word + rest));
    let at = before.len() as int;
    let p = at + gap.len();
    assert forall|k: int| at <= k < p implies is_blank(s[k]) by {
        assert(s[k] == gap[k - at]);
    }
    assert(s[p] == word[0]);
    lemma_skip_blanks_is(s, at, p);
    assert(s.subrange(p, p + word.len()) =~= word);
}

/// A number that follows a gap of blanks, and is followed by no digit, is
/// read behind the gap.
proof fn lemma_number_found(before: Seq<u8>, gap: Seq<u8>, n: nat, rest: Seq<u8>)
    requires
        all_blank(gap),
        n <= u64::MAX,
        rest.len() > 0 ==> !is_digit(rest[0]),
    ensures
        skip_blanks(before + then(gap, digits_of(n), rest), before.len() as int) == before.len()
            + gap.len(),
        next_number(before + then(gap, digits_of(n), rest), before.len() as int) == Some(
            (n as u64, (before.len() + gap.len() + digits_of(n).len()) as int),
        ),
{
    reveal(then);
    let digits = digits_of(n);
    let s = before + (gap + (digits + rest));
    let at = before.len() as int;
    let p = at + gap.len();
    let end = p + digits.len();
    lemma_digits_of(n);
    assert forall|k: int| at <= k < p implies is_blank(s[k]) by {
        assert(s[k] == gap[k - at]);
    }
    assert(s[p] == digits[0]);
    lemma_skip_blanks_is(s, at, p);
    assert forall|k: int| p <= k < end implies is_digit(s[k]) by {
        assert(s[k] == digits[k - p]);
    }
    if end < s.len() {
        assert(s[end] == rest[0]);
    }
    lemma_digits_end_is(s, p, end);
    assert(s.subrange(p, end) =~= digits);
}

/// A word that can follow a gap, a number or a list: it begins with a byte
/// that is no blank, digit or comma, and holds no line feed.
spec fn is_word(word: Seq<u8>) -> bool {
    &&& word.len() > 0
    &&& !is_blank(word[0])
    &&& !is_digit(word[0])
    &&& word[0] != COMMA
    &&& forall|k: int| 0 <= k < word.len() ==> #[trigger] word[k] != LINE_FEED
}

/// The keywords of the grammar are words.
proof fn lemma_keywords()
    ensures
        is_word("Monkey".spec_bytes()),
        is_word(":".spec_bytes()),
        is_word("Starting items:".spec_bytes()),
        is_word("Operation: new = old".spec_bytes()),
        is_word("Test: divisible by".spec_bytes()),
        is_word("If true: throw to monkey".spec_bytes()),
        is_word("If false: throw to monkey".spec_bytes()),
        is_word("old".spec_bytes()),
        "old".spec_bytes().len() == 3,
{
    reveal_strlit("Monkey");
    reveal_strlit(":");
    reveal_strlit("Starting items:");
    reveal_strlit("Operation: new = old");
    reveal_strlit("Test: divisible by");
    reveal_strlit("If true: throw to monkey");
    reveal_strlit("If false: throw to monkey");
    reveal_strlit("old");
    is_ascii_spec_bytes("Monkey");
    is_ascii_spec_bytes(":");
    is_ascii_spec_bytes("Starting items:");
    is_ascii_spec_bytes("Operation: new = old");
    is_ascii_spec_bytes("Test: divisible by");
    is_ascii_spec_bytes("If true: throw to monkey");
    is_ascii_spec_bytes("If false: throw to monkey");
    is_ascii_spec_bytes("old");
}

/// The gap between two things on a line.
pub open spec fn space() -> Seq<u8> {
    seq![SPACE]
}

/// The gap before a line that is indented by two spaces.
pub open spec fn indent2() -> Seq<u8> {
    seq![LINE_FEED, SPACE, SPACE]
}

/// The gap before a line that is indented by four spaces.
pub open spec fn indent4() -> Seq<u8> {
    seq![LINE_FEED, SPACE, SPACE, SPACE, SPACE]
}

/// The list of starting items: the worry levels with a comma and a space
/// between them.
pub open spec fn render_items(items: Seq<u64>) -> Seq<u8>
    decreases items.len(),
{
    if items.len() == 0 {
        Seq::empty()
    } else if items.len() == 1 {
        digits_of(items[0] as nat)
    } else {
        digits_of(items[0] as nat) + (seq![COMMA, SPACE] + render_items(items.drop_first()))
    }
}

/// The operator and the operand of an operation.
pub open spec fn render_operation(op: MonkeyOp) -> Seq<u8> {
    match op {
        MonkeyOp::Plus(x) => seq![PLUS] + (space() + digits_of(x as nat)),
        MonkeyOp::Times(x) => seq![STAR] + (space() + digits_of(x as nat)),
        MonkeyOp::Square => seq![STAR] + (space() + "old".spec_bytes()),
    }
}

/// A block, whatever stands behind the keyword of its starting items.
pub open spec fn block_with(id: nat, rest: Seq<u8>) -> Seq<u8> {
    then(
        Seq::empty(),
        "Monkey".spec_bytes(),
        then(
            space(),
            digits_of(id),
            then(
                Seq::empty(),
                ":".spec_bytes(),
                then(indent2(), "Starting items:".spec_bytes(), rest),
            ),
        ),
    )
}

/// The block that describes agent `a` as the monkey with number `id`.
pub open spec fn render_agent(id: nat, a: Agent) -> Seq<u8> {
    block_with(id, then(space(), render_items(a.items), render_rules(a)))
}

/// The lines of a block behind its starting items.
pub open spec fn render_rules(a: Agent) -> Seq<u8> {
    then(indent2(), "Operation: new = old".spec_bytes(), rules_text(a))
}

/// The last two lines of a block.
pub open spec fn render_receivers(a: Agent) -> Seq<u8> {
    then(
        indent4(),
        "If true: throw to monkey".spec_bytes(),
        then(
            space(),
            digits_of(a.true_target),
            then(
                indent4(),
                "If false: throw to monkey".spec_bytes(),
                then(space(), digits_of(a.false_target), seq![LINE_FEED]),
            ),
        ),
    )
}

/// Regrouping a text into what has been read and what is still to come.
proof fn lemma_regroup(before: Seq<u8>, gap: Seq<u8>, piece: Seq<u8>, rest: Seq<u8>)
    ensures
        before + then(gap, piece, rest) == (before + (gap + piece)) + rest,
        (before + (gap + piece)).len() == before.len() + gap.len() + piece.len(),
{
    reveal(then);
    assert(before + then(gap, piece, rest) =~= (before + (gap + piece)) + rest);
}

/// A list of two or more items is its first item, a comma, and the list of
/// the other items behind a space.
proof fn lemma_items_regroup(gap: Seq<u8>, items: Seq<u64>, tail: Seq<u8>)
    requires
        items.len() >= 2,
    ensures
        then(gap, render_items(items), tail) == then(
            gap,
            digits_of(items[0] as nat),
            then(
                seq![COMMA],
                Seq::empty(),
                then(space(), render_items(items.drop_first()), tail),
            ),
        ),
        render_items(items).len() == digits_of(items[0] as nat).len() + 2 + render_items(
            items.drop_first(),
        ).len(),
{
    reveal(then);
    let first = digits_of(items[0] as nat);
    let others = render_items(items.drop_first());
    assert(gap + ((first + (seq![COMMA, SPACE] + others)) + tail) =~= gap + (first + (seq![COMMA]
        + (Seq::<u8>::empty() + (space() + (others + tail))))));
}

/// The items behind a gap are read one after the other, up to a word that
/// follows them behind a gap of its own.
#[verifier::rlimit(30)]
proof fn lemma_items_found(
    before: Seq<u8>,
    gap: Seq<u8>,
    items: Seq<u64>,
    got: Seq<u64>,
    tail_gap: Seq<u8>,
    word: Seq<u8>,
    rest: Seq<u8>,
)
    requires
        all_blank(gap),
        all_blank(tail_gap),
        tail_gap.len() > 0,
        is_word(word),
        items.len() >= 1,
        forall|k: int| 0 <= k < items.len() ==> items[k] != 0,
        got.len() + items.len() <= MAX_ITEMS,
    ensures
        more_items(
            before + then(gap, render_items(items), then(tail_gap, word, rest)),
            before.len() as int,
            got,
        ) == Ok::<(Seq<u64>, int), ParseError>(
            (got + items, (before.len() + gap.len() + render_items(items).len()) as int),
        ),
    decreases items.len(),
{
    let tail = then(tail_gap, word, rest);
    let s = before + then(gap, render_items(items), tail);
    let first = digits_of(items[0] as nat);
    let read = before + (gap + first);
    let end = read.len() as int;
    if items.len() == 1 {
        lemma_then_starts(tail_gap, word, rest);
        lemma_number_found(before, gap, items[0] as nat, tail);
        lemma_regroup(before, gap, first, tail);
        lemma_keyword_found(read, tail_gap, word, rest);
        assert(got.push(items[0]) =~= got + items);
    } else {
        let others = items.drop_first();
        let next = then(space(), render_items(others), tail);
        let more = then(seq![COMMA], Seq::empty(), next);
        lemma_items_regroup(gap, items, tail);
        lemma_then_starts(seq![COMMA], Seq::empty(), next);
        lemma_number_found(before, gap, items[0] as nat, more);
        lemma_regroup(before, gap, first, more);
        assert(s[end] == more[0]);
        assert(skip_blanks(s, end) == end);
        lemma_regroup(read, seq![COMMA], Seq::empty(), next);
        let read_comma = read + (seq![COMMA] + Seq::<u8>::empty());
        lemma_items_found(read_comma, space(), others, got.push(items[0]), tail_gap, word, rest);
        assert(got.push(items[0]) + others =~= got + items);
    }
}

/// An operation behind a gap is read with its operand.
proof fn lemma_operation_found(before: Seq<u8>, gap: Seq<u8>, op: MonkeyOp, rest: Seq<u8>)
    requires
        all_blank(gap),
        rest.len() > 0,
        !is_digit(rest[0]),
    ensures
        operation(before + then(gap, render_operation(op), rest), before.len() as int) == Some(
            (op, (before.len() + gap.len() + render_operation(op).len()) as int),
        ),
{
    reveal(then);
    lemma_keywords();
    let s = before + then(gap, render_operation(op), rest);
    let at = (before.len() + gap.len()) as int;
    assert forall|k: int| before.len() <= k < at implies is_blank(s[k]) by {
        assert(s[k] == gap[k - before.len()]);
    }
    assert(s[at] == render_operation(op)[0]);
    lemma_skip_blanks_is(s, before.len() as int, at);
    let read = (before + gap) + seq![s[at]];
    match op {
        MonkeyOp::Plus(x) => {
            assert(s =~= read + then(space(), digits_of(x as nat), rest));
            lemma_number_found(read, space(), x as nat, rest);
        },
        MonkeyOp::Times(x) => {
            assert(s =~= read + then(space(), digits_of(x as nat), rest));
            lemma_number_found(read, space(), x as nat, rest);
            lemma_digits_of(x as nat);
            let old = "old".spec_bytes();
            assert(s[at + 2] == digits_of(x as nat)[0]);
            if word_at(s, at + 2, old) {
                assert(s.subrange(at + 2, at + 2 + old.len())[0] == old[0]);
            }
        },
        MonkeyOp::Square => {
            assert(s =~= read + then(space(), "old".spec_bytes(), rest));
            lemma_keyword_found(read, space(), "old".spec_bytes(), rest);
        },
    }
}

/// An agent that a block can describe: its numbers fit the integer types of
/// a monkey, and it holds at most `MAX_ITEMS` items, none of worry level 0.
pub open spec fn writable(a: Agent) -> bool {
    &&& a.test_modulus <= u64::MAX
    &&& a.true_target <= usize::MAX
    &&& a.false_target <= usize::MAX
    &&& a.items.len() <= MAX_ITEMS
    &&& forall|k: int| 0 <= k < a.items.len() ==> a.items[k] != 0
}

/// The agent before its first inspection.
pub open spec fn rested(a: Agent) -> Agent {
    Agent { inspection_count: 0, ..a }
}

/// The list of starting items behind a space is read, whether it is empty
/// or not, and the word on the next line is found behind it.
proof fn lemma_item_list_found(before: Seq<u8>, items: Seq<u64>, word: Seq<u8>, rest: Seq<u8>)
    requires
        is_word(word),
        items.len() <= MAX_ITEMS,
        forall|k: int| 0 <= k < items.len() ==> items[k] != 0,
    ensures
        ({
            let s = before + then(space(), render_items(items), then(indent2(), word, rest));
            &&& item_list(s, before.len() as int) matches Ok((list, end))
            &&& list == items
            &&& keyword(s, end, word) == Some(
                (before.len() + 1 + render_items(items).len() + 3 + word.len()) as int,
            )
        }),
{
    reveal(then);
    let tail = then(indent2(), word, rest);
    let s = before + then(space(), render_items(items), tail);
    if items.len() == 0 {
        assert(s =~= before + then(space() + indent2(), word, rest));
        lemma_keyword_found(before, space() + indent2(), word, rest);
        assert(s[before.len() as int + 4] == word[0]);
    } else {
        let first = digits_of(items[0] as nat);
        lemma_digits_of(items[0] as nat);
        assert(render_items(items)[0] == first[0]);
        assert(s[before.len() as int + 1] == first[0]);
        assert(is_blank(s[before.len() as int]));
        lemma_skip_blanks_is(s, before.len() as int, before.len() as int + 1);
        lemma_items_found(before, space(), items, Seq::empty(), indent2(), word, rest);
        assert(Seq::<u64>::empty() + items =~= items);
        lemma_regroup(before, space(), render_items(items), tail);
        lemma_keyword_found(before + (space() + render_items(items)), indent2(), word, rest);
    }
}

/// What of a block has been read when the keyword of its starting items
/// has been passed.
spec fn heading(id: nat) -> Seq<u8> {
    let monkey = Seq::<u8>::empty() + (Seq::<u8>::empty() + "Monkey".spec_bytes());
    let number = monkey + (space() + digits_of(id));
    let colon = number + (Seq::<u8>::empty() + ":".spec_bytes());
    colon + (indent2() + "Starting items:".spec_bytes())
}

/// What of a block has been read when the keyword of its operation has
/// been passed.
spec fn head(id: nat, items: Seq<u64>) -> Seq<u8> {
    let list = heading(id) + (space() + render_items(items));
    list + (indent2() + "Operation: new = old".spec_bytes())
}

/// The first line of a block and the keyword of its starting items are
/// read as they were written.
#[verifier::rlimit(30)]
proof fn lemma_heading_found(id: nat, rest: Seq<u8>)
    requires
        id <= u64::MAX,
    ensures
        then_keyword(
            then_keyword(
                behind(block_id(block_with(id, rest))),
                block_with(id, rest),
                ":".spec_bytes(),
            ),
            block_with(id, rest),
            "Starting items:".spec_bytes(),
        ) == Ok::<int, ParseError>(heading(id).len() as int),
        block_with(id, rest) == heading(id) + rest,
{
    lemma_keywords();
    let none = Seq::<u8>::empty();
    let r3 = then(indent2(), "Starting items:".spec_bytes(), rest);
    let r2 = then(none, ":".spec_bytes(), r3);
    let r1 = then(space(), digits_of(id), r2);
    let s = then(none, "Monkey".spec_bytes(), r1);
    assert(all_blank(none));
    assert(none + s =~= s);
    lemma_keyword_found(none, none, "Monkey".spec_bytes(), r1);
    lemma_regroup(none, none, "Monkey".spec_bytes(), r1);
    let b1 = none + (none + "Monkey".spec_bytes());
    lemma_then_starts(none, ":".spec_bytes(), r3);
    lemma_number_found(b1, space(), id, r2);
    lemma_regroup(b1, space(), digits_of(id), r2);
    let b2 = b1 + (space() + digits_of(id));
    assert(block_id(s) == Ok::<(u64, int), ParseError>((id as u64, b2.len() as int)));
    lemma_keyword_found(b2, none, ":".spec_bytes(), r3);
    lemma_regroup(b2, none, ":".spec_bytes(), r3);
    let b3 = b2 + (none + ":".spec_bytes());
    lemma_keyword_found(b3, indent2(), "Starting items:".spec_bytes(), rest);
    lemma_regroup(b3, indent2(), "Starting items:".spec_bytes(), rest);
}

/// The head of a block, up to the keyword of its operation, is read as the
/// starting items that were written.
#[verifier::rlimit(30)]
proof fn lemma_head_found(id: nat, items: Seq<u64>, rest: Seq<u8>)
    requires
        id <= u64::MAX,
        items.len() <= MAX_ITEMS,
        forall|k: int| 0 <= k < items.len() ==> items[k] != 0,
    ensures
        ({
            let word = "Operation: new = old".spec_bytes();
            let s = block_with(
                id,
                then(space(), render_items(items), then(indent2(), word, rest)),
            );
            &&& block_items(s) matches Ok((list, end))
            &&& list == items
            &&& then_keyword(Ok(end), s, word) == Ok::<int, ParseError>(
                head(id, items).len() as int,
            )
            &&& s == head(id, items) + rest
        }),
{
    lemma_keywords();
    let word = "Operation: new = old".spec_bytes();
    let r5 = then(indent2(), word, rest);
    let r4 = then(space(), render_items(items), r5);
    lemma_heading_found(id, r4);
    let b4 = heading(id);
    lemma_item_list_found(b4, items, word, rest);
    lemma_regroup(b4, space(), render_items(items), r5);
    let b5 = b4 + (space() + render_items(items));
    lemma_regroup(b5, indent2(), word, rest);
}

/// A list of more items than a monkey can hold is refused at the first item
/// that finds no room.
#[verifier::rlimit(30)]
proof fn lemma_items_refused(
    before: Seq<u8>,
    gap: Seq<u8>,
    items: Seq<u64>,
    got: Seq<u64>,
    tail_gap: Seq<u8>,
    word: Seq<u8>,
    rest: Seq<u8>,
)
    requires
        all_blank(gap),
        all_blank(tail_gap),
        tail_gap.len() > 0,
        is_word(word),
        items.len() >= 1,
        forall|k: int| 0 <= k < items.len() ==> items[k] != 0,
        got.len() <= MAX_ITEMS < got.len() + items.len(),
    ensures
        more_items(
            before + then(gap, render_items(items), then(tail_gap, word, rest)),
            before.len() as int,
            got,
        ) == Err::<(Seq<u64>, int), ParseError>(ParseError::Capacity),
    decreases items.len(),
{
    let tail = then(tail_gap, word, rest);
    let s = before + then(gap, render_items(items), tail);
    let first = digits_of(items[0] as nat);
    let read = before + (gap + first);
    let end = read.len() as int;
    if items.len() == 1 {
        lemma_then_starts(tail_gap, word, rest);
        lemma_number_found(before, gap, items[0] as nat, tail);
    } else {
        let others = items.drop_first();
        let next = then(space(), render_items(others), tail);
        let more = then(seq![COMMA], Seq::empty(), next);
        lemma_items_regroup(gap, items, tail);
        lemma_then_starts(seq![COMMA], Seq::empty(), next);
        lemma_number_found(before, gap, items[0] as nat, more);
        if got.len() < MAX_ITEMS {
            lemma_regroup(before, gap, first, more);
            assert(s[end] == more[0]);
            assert(skip_blanks(s, end) == end);
            lemma_regroup(read, seq![COMMA], Seq::empty(), next);
            let read_comma = read + (seq![COMMA] + Seq::<u8>::empty());
            lemma_items_refused(
                read_comma,
                space(),
                others,
                got.push(items[0]),
                tail_gap,
                word,
                rest,
            );
        }
    }
}

/// The capacity boundary: a block that lists more items than a monkey can
/// hold, none of worry level 0, is refused for its capacity, whatever its
/// rules are.
#[verifier::rlimit(30)]
pub proof fn lemma_capacity(id: nat, a: Agent)
    requires
        id <= u64::MAX,
        a.items.len() > MAX_ITEMS,
        forall|k: int| 0 <= k < a.items.len() ==> a.items[k] != 0,
    ensures
        block_agent(render_agent(id, a)) == Err::<Agent, ParseError>(ParseError::Capacity),
{
    reveal(block_agent);
    lemma_keywords();
    let word = "Operation: new = old".spec_bytes();
    let rest = rules_text(a);
    let list = then(space(), render_items(a.items), then(indent2(), word, rest));
    let s = block_with(id, list);
    assert(s == render_agent(id, a));
    lemma_heading_found(id, list);
    let before = heading(id);
    lemma_items_refused(before, space(), a.items, Seq::empty(), indent2(), word, rest);
    lemma_digits_of(a.items[0] as nat);
    assert(render_items(a.items)[0] == digits_of(a.items[0] as nat)[0]);
    lemma_then_starts(space(), render_items(a.items), then(indent2(), word, rest));
    assert(s[before.len() as int] == list[0]);
    assert(s[before.len() as int + 1] == list[1]);
    assert(list[1] == render_items(a.items)[0]) by {
        reveal(then);
    }
    lemma_skip_blanks_is(s, before.len() as int, before.len() as int + 1);
    assert(block_items(s) == Err::<(Seq<u64>, int), ParseError>(ParseError::Capacity));
}

/// The rules of a block behind the keyword of its operation.
pub open spec fn rules_text(a: Agent) -> Seq<u8> {
    then(
        space(),
        render_operation(a.operation),
        then(
            indent2(),
            "Test: divisible by".spec_bytes(),
            then(space(), digits_of(a.test_modulus), render_receivers(a)),
        ),
    )
}

/// The operation and the test modulus of a block are read as they were
/// written.
#[verifier::rlimit(30)]
proof fn lemma_test_found(before: Seq<u8>, a: Agent)
    requires
        a.test_modulus <= u64::MAX,
    ensures
        ({
            let s = before + rules_text(a);
            let op = then_operation(Ok(before.len() as int), s);
            let modulus = then_number(
                then_keyword(behind(op), s, "Test: divisible by".spec_bytes()),
                s,
            );
            &&& op matches Ok((operation, _))
            &&& operation == a.operation
            &&& modulus == Ok::<(u64, int), ParseError>(
                (a.test_modulus as u64, test_read(before, a).len() as int),
            )
            &&& s == test_read(before, a) + render_receivers(a)
        }),
{
    lemma_keywords();
    let r9 = render_receivers(a);
    let r8 = then(space(), digits_of(a.test_modulus), r9);
    let r7 = then(indent2(), "Test: divisible by".spec_bytes(), r8);
    let s = before + then(space(), render_operation(a.operation), r7);
    lemma_then_starts(indent2(), "Test: divisible by".spec_bytes(), r8);
    lemma_operation_found(before, space(), a.operation, r7);
    lemma_regroup(before, space(), render_operation(a.operation), r7);
    let b7 = before + (space() + render_operation(a.operation));
    lemma_keyword_found(b7, indent2(), "Test: divisible by".spec_bytes(), r8);
    lemma_regroup(b7, indent2(), "Test: divisible by".spec_bytes(), r8);
    let b8 = b7 + (indent2() + "Test: divisible by".spec_bytes());
    lemma_receivers_start(a);
    lemma_number_found(b8, space(), a.test_modulus, r9);
    lemma_regroup(b8, space(), digits_of(a.test_modulus), r9);
}

/// What of a block has been read when its test modulus has been passed.
spec fn test_read(before: Seq<u8>, a: Agent) -> Seq<u8> {
    let op = before + (space() + render_operation(a.operation));
    let test = op + (indent2() + "Test: divisible by".spec_bytes());
    test + (space() + digits_of(a.test_modulus))
}

/// The last two lines of a block begin with a line feed.
proof fn lemma_receivers_start(a: Agent)
    ensures
        render_receivers(a).len() > 0,
        render_receivers(a)[0] == LINE_FEED,
{
    lemma_then_starts(
        indent4(),
        "If true: throw to monkey".spec_bytes(),
        then(
            space(),
            digits_of(a.true_target),
            then(
                indent4(),
                "If false: throw to monkey".spec_bytes(),
                then(space(), digits_of(a.false_target), seq![LINE_FEED]),
            ),
        ),
    );
}

/// The receivers of a block are read as they were written, and nothing but
/// a line feed follows them.
#[verifier::rlimit(30)]
proof fn lemma_receivers_found(before: Seq<u8>, a: Agent)
    requires
        a.true_target <= u64::MAX,
        a.false_target <= u64::MAX,
    ensures
        ({
            let s = before + render_receivers(a);
            let if_true = then_number(
                then_keyword(
                    Ok(before.len() as int),
                    s,
                    "If true: throw to monkey".spec_bytes(),
                ),
                s,
            );
            let if_false = then_number(
                then_keyword(behind(if_true), s, "If false: throw to monkey".spec_bytes()),
                s,
            );
            &&& if_true matches Ok((t, _))
            &&& t == a.true_target
            &&& if_false matches Ok((f, end))
            &&& f == a.false_target
            &&& skip_blanks(s, end) == s.len()
        }),
{
    lemma_keywords();
    let r13 = seq![LINE_FEED];
    let r12 = then(space(), digits_of(a.false_target), r13);
    let r11 = then(indent4(), "If false: throw to monkey".spec_bytes(), r12);
    let r10 = then(space(), digits_of(a.true_target), r11);
    let s = before + render_receivers(a);
    lemma_keyword_found(before, indent4(), "If true: throw to monkey".spec_bytes(), r10);
    lemma_regroup(before, indent4(), "If true: throw to monkey".spec_bytes(), r10);
    let b10 = before + (indent4() + "If true: throw to monkey".spec_bytes());
    lemma_then_starts(indent4(), "If false: throw to monkey".spec_bytes(), r12);
    lemma_number_found(b10, space(), a.true_target, r11);
    lemma_regroup(b10, space(), digits_of(a.true_target), r11);
    let b11 = b10 + (space() + digits_of(a.true_target));
    lemma_keyword_found(b11, indent4(), "If false: throw to monkey".spec_bytes(), r12);
    lemma_regroup(b11, indent4(), "If false: throw to monkey".spec_bytes(), r12);
    let b12 = b11 + (indent4() + "If false: throw to monkey".spec_bytes());
    lemma_number_found(b12, space(), a.false_target, r13);
    lemma_regroup(b12, space(), digits_of(a.false_target), r13);
    let b13 = b12 + (space() + digits_of(a.false_target));
    assert(s == b13 + r13);
    assert(is_blank(s[b13.len() as int]));
    lemma_skip_blanks_is(s, b13.len() as int, s.len() as int);
}

/// Reading the block that describes an agent gives the agent back, as it is
/// before its first inspection.
#[verifier::rlimit(30)]
pub proof fn lemma_block_round_trip(id: nat, a: Agent)
    requires
        id <= u64::MAX,
        writable(a),
    ensures
        block_agent(render_agent(id, a)) == Ok::<Agent, ParseError>(rested(a)),
{
    reveal(block_agent);
    let s = render_agent(id, a);
    assert(render_rules(a) == then(
        indent2(),
        "Operation: new = old".spec_bytes(),
        rules_text(a),
    ));
    lemma_head_found(id, a.items, rules_text(a));
    let before = head(id, a.items);
    lemma_test_found(before, a);
    lemma_receivers_found(test_read(before, a), a);
    assert(block_operation(s) == then_operation(Ok(before.len() as int), s));
    assert(block_modulus(s) == Ok::<(u64, int), ParseError>(
        (a.test_modulus as u64, test_read(before, a).len() as int),
    ));
    assert(block_agent(s)->Ok_0 =~= rested(a));
}

/// The text holds no line feed.
spec fn no_line_feed(text: Seq<u8>) -> bool {
    forall|k: int| 0 <= k < text.len() ==> #[trigger] text[k] != LINE_FEED
}

/// No line feed of the text follows a line feed.
spec fn no_blank_line(text: Seq<u8>) -> bool {
    forall|k: int| 1 <= k < text.len() ==> !(text[k - 1] == LINE_FEED && #[trigger] text[k]
        == LINE_FEED)
}

/// The text has no blank line and does not end with a line feed.
spec fn ends_clean(text: Seq<u8>) -> bool {
    no_blank_line(text) && (text.len() > 0 ==> text.last() != LINE_FEED)
}

/// The text has no blank line and ends with a line feed.
spec fn line_ended(text: Seq<u8>) -> bool {
    no_blank_line(text) && text.len() > 0 && text.last() == LINE_FEED
}

/// A gap and a piece that end clean, before a text that ends its last line,
/// give a text that ends its last line.
proof fn lemma_then_line_ended(gap: Seq<u8>, piece: Seq<u8>, rest: Seq<u8>)
    requires
        ends_clean(gap),
        ends_clean(piece),
        line_ended(rest),
    ensures
        line_ended(then(gap, piece, rest)),
{
    reveal(then);
    let text = gap + (piece + rest);
    assert forall|k: int| 1 <= k < text.len() implies !(text[k - 1] == LINE_FEED
        && #[trigger] text[k] == LINE_FEED) by {
        let g = gap.len() as int;
        let p = g + piece.len();
        if k < g {
            assert(text[k] == gap[k] && text[k - 1] == gap[k - 1]);
        } else if k == g {
            if g > 0 {
                assert(text[k - 1] == gap.last());
            }
        } else if k < p {
            assert(text[k] == piece[k - g] && text[k - 1] == piece[k - 1 - g]);
        } else if k == p {
            if piece.len() > 0 {
                assert(text[k - 1] == piece.last());
            } else if g > 0 {
                assert(text[k - 1] == gap.last());
            }
        } else {
            assert(text[k] == rest[k - p] && text[k - 1] == rest[k - 1 - p]);
        }
    }
    assert(text.last() == rest.last());
}

/// The list of starting items holds no line feed.
proof fn lemma_items_no_line_feed(items: Seq<u64>)
    ensures
        no_line_feed(render_items(items)),
    decreases items.len(),
{
    if items.len() >= 1 {
        lemma_digits_of(items[0] as nat);
        if items.len() >= 2 {
            lemma_items_no_line_feed(items.drop_first());
        }
    }
}

/// The block of an agent begins with a byte that is no blank, has no blank
/// line, and ends with a line feed.
#[verifier::rlimit(30)]
proof fn lemma_block_shape(id: nat, a: Agent)
    ensures
        line_ended(render_agent(id, a)),
        !is_blank(render_agent(id, a)[0]),
{
    lemma_keywords();
    let none = Seq::<u8>::empty();
    lemma_digits_of(id);
    lemma_digits_of(a.test_modulus);
    lemma_digits_of(a.true_target);
    lemma_digits_of(a.false_target);
    lemma_items_no_line_feed(a.items);
    assert(no_line_feed(render_operation(a.operation))) by {
        match a.operation {
            MonkeyOp::Plus(x) => {
                lemma_digits_of(x as nat);
            },
            MonkeyOp::Times(x) => {
                lemma_digits_of(x as nat);
            },
            MonkeyOp::Square => {},
        }
    }
    let r13 = seq![LINE_FEED];
    let r12 = then(space(), digits_of(a.false_target), r13);
    let r11 = then(indent4(), "If false: throw to monkey".spec_bytes(), r12);
    let r10 = then(space(), digits_of(a.true_target), r11);
    let r9 = then(indent4(), "If true: throw to monkey".spec_bytes(), r10);
    let r8 = then(space(), digits_of(a.test_modulus), r9);
    let r7 = then(indent2(), "Test: divisible by".spec_bytes(), r8);
    let r6 = then(space(), render_operation(a.operation), r7);
    let r5 = then(indent2(), "Operation: new = old".spec_bytes(), r6);
    let r4 = then(space(), render_items(a.items), r5);
    let r3 = then(indent2(), "Starting items:".spec_bytes(), r4);
    let r2 = then(none, ":".spec_bytes(), r3);
    let r1 = then(space(), digits_of(id), r2);
    lemma_then_line_ended(space(), digits_of(a.false_target), r13);
    lemma_then_line_ended(indent4(), "If false: throw to monkey".spec_bytes(), r12);
    lemma_then_line_ended(space(), digits_of(a.true_target), r11);
    lemma_then_line_ended(indent4(), "If true: throw to monkey".spec_bytes(), r10);
    lemma_then_line_ended(space(), digits_of(a.test_modulus), r9);
    lemma_then_line_ended(indent2(), "Test: divisible by".spec_bytes(), r8);
    lemma_then_line_ended(space(), render_operation(a.operation), r7);
    lemma_then_line_ended(indent2(), "Operation: new = old".spec_bytes(), r6);
    lemma_then_line_ended(space(), render_items(a.items), r5);
    lemma_then_line_ended(indent2(), "Starting items:".spec_bytes(), r4);
    lemma_then_line_ended(none, ":".spec_bytes(), r3);
    lemma_then_line_ended(space(), digits_of(id), r2);
    lemma_then_line_ended(none, "Monkey".spec_bytes(), r1);
    lemma_then_starts(none, "Monkey".spec_bytes(), r1);
}

/// The blocks of a troop, the first for the monkey with number `id`, and a
/// blank line between two blocks.
pub open spec fn render_from(agents: Seq<Agent>, id: nat) -> Seq<u8>
    decreases agents.len(),
{
    if agents.len() == 0 {
        Seq::empty()
    } else if agents.len() == 1 {
        render_agent(id, agents[0])
    } else {
        render_agent(id, agents[0]) + (seq![LINE_FEED] + render_from(
            agents.drop_first(),
            id + 1,
        ))
    }
}

/// The text that describes a troop.
pub open spec fn render(agents: Seq<Agent>) -> Seq<u8> {
    render_from(agents, 0)
}

/// The troop before its first round.
pub open spec fn rested_troop(agents: Seq<Agent>) -> Seq<Agent> {
    Seq::new(agents.len(), |k: int| rested(agents[k]))
}

/// A position that is reached without passing a blank line, and at which a
/// line feed follows a line feed or the text ends, is where `blank_line`
/// stops.
proof fn lemma_blank_line_is(s: Seq<u8>, from: int, end: int)
    requires
        1 <= from <= end <= s.len(),
        forall|k: int|
            from <= k < end ==> !(s[k - 1] == LINE_FEED && #[trigger] s[k] == LINE_FEED),
        end < s.len() ==> s[end - 1] == LINE_FEED && s[end] == LINE_FEED,
    ensures
        blank_line(s, from) == end,
    decreases end - from,
{
    if from < end {
        lemma_blank_line_is(s, from + 1, end);
    }
}

/// A block that stands in a text, with a line feed or nothing behind it, is
/// found there from its first byte to its last.
#[verifier::rlimit(30)]
proof fn lemma_block_in_text(before: Seq<u8>, block: Seq<u8>, after: Seq<u8>)
    requires
        line_ended(block),
        !is_blank(block[0]),
        after.len() > 0 ==> after[0] == LINE_FEED,
    ensures
        skip_blanks(before + (block + after), before.len() as int) < (before + (block
            + after)).len(),
        block_end(before + (block + after), before.len() as int) == before.len() + block.len(),
        (before + (block + after)).subrange(
            before.len() as int,
            (before.len() + block.len()) as int,
        ) == block,
        before + (block + after) == (before + block) + after,
{
    let s = before + (block + after);
    let start = before.len() as int;
    let end = start + block.len();
    assert(s[start] == block[0]);
    assert forall|k: int| start + 1 <= k < end implies !(s[k - 1] == LINE_FEED && #[trigger] s[k]
        == LINE_FEED) by {
        assert(s[k] == block[k - start] && s[k - 1] == block[k - 1 - start]);
    }
    assert(s[end - 1] == block.last());
    if after.len() > 0 {
        assert(s[end] == after[0]);
    }
    lemma_blank_line_is(s, start + 1, end);
    assert(s.subrange(start, end) =~= block);
    assert(s =~= (before + block) + after);
}

/// Reading the blocks of a troop, wherever in a text they begin, gives the
/// troop back.
#[verifier::rlimit(30)]
proof fn lemma_blocks_round_trip(before: Seq<u8>, agents: Seq<Agent>, id: nat)
    requires
        id + agents.len() <= u64::MAX,
        forall|k: int| 0 <= k < agents.len() ==> writable(#[trigger] agents[k]),
    ensures
        blocks(before + render_from(agents, id), before.len() as int, agents.len())
            == Ok::<Seq<Agent>, ParseError>(rested_troop(agents)),
    decreases agents.len(),
{
    let s = before + render_from(agents, id);
    if agents.len() == 0 {
        assert(rested_troop(agents) =~= Seq::<Agent>::empty());
    } else {
        let block = render_agent(id, agents[0]);
        assert(writable(agents[0]));
        lemma_block_shape(id, agents[0]);
        lemma_block_round_trip(id, agents[0]);
        if agents.len() == 1 {
            let none = Seq::<u8>::empty();
            assert(block + none =~= block);
            lemma_block_in_text(before, block, none);
            assert(blocks(s, s.len() as int, 0) == Ok::<Seq<Agent>, ParseError>(
                Seq::<Agent>::empty(),
            ));
            assert(seq![rested(agents[0])] + Seq::<Agent>::empty() =~= rested_troop(agents));
        } else {
            let others = agents.drop_first();
            let after = seq![LINE_FEED] + render_from(others, id + 1);
            lemma_block_in_text(before, block, after);
            let read = (before + block) + seq![LINE_FEED];
            assert(s =~= read + render_from(others, id + 1));
            assert forall|k: int| 0 <= k < others.len() implies writable(#[trigger] others[k]) by {
                assert(others[k] == agents[k + 1]);
            }
            lemma_blocks_round_trip(read, others, id + 1);
            assert(seq![rested(agents[0])] + rested_troop(others) =~= rested_troop(agents));
        }
    }
}

/// The round trip: the text that describes the troop of well-formed
/// monkeys is read as that troop, each agent as it is before its first
/// inspection.
pub proof fn lemma_round_trip(monkeys: Seq<Monkey>)
    requires
        well_formed(monkeys),
        monkeys.len() <= usize::MAX,
    ensures
        troop_of(render(troop(monkeys)), monkeys.len()) == Ok::<Seq<Agent>, ParseError>(
            rested_troop(troop(monkeys)),
        ),
{
    let agents = troop(monkeys);
    assert forall|k: int| 0 <= k < agents.len() implies writable(#[trigger] agents[k]) by {
        assert(compact(monkeys[k].items@));
    }
    lemma_blocks_round_trip(Seq::empty(), agents, 0);
    assert(Seq::<u8>::empty() + render(agents) =~= render(agents));
    assert forall|k: int| 0 <= k < agents.len() implies (#[trigger] rested_troop(agents)[k]).valid(
        agents.len(),
    ) by {
        assert(compact(monkeys[k].items@));
    }
}

} // verus!
