//! Calorie Counting: the calories that each elf carries, one number on a
//! line and an empty line between two elves.

use crate::min_heap::{heap_items, heap_len, heap_new, heap_peek, heap_pop, heap_push, is_least};
use crate::text::{after_line_ending, lemma_digits_end, read_u32, skip_line_ending, u32_at};
use heapless::binary_heap::{BinaryHeap, Min};
use vstd::multiset::lemma_multiset_empty_len;
use vstd::prelude::*;
use vstd::seq_lib::{to_multiset_contains, to_multiset_insert, to_multiset_len, to_multiset_remove};
use vstd::string::StringSliceAdditionalSpecFns;

verus! {

/// The calories that one elf carries.
pub type Elf = u32;

/// The calories of an elf, or of the elves that are asked for, do not fit
/// in 32 bits.
#[derive(Debug, Clone, Copy, PartialEq, Eq)]
pub struct Overflow;

/// The number on the line at `p` and the position behind the line, if a
/// number that fits in 32 bits stands at `p` with a line ending behind it.
pub open spec fn line_at(s: Seq<u8>, p: int) -> Option<(u32, int)> {
    match u32_at(s, p) {
        Some((value, end)) => if after_line_ending(s, end) > end {
            Some((value, after_line_ending(s, end)))
        } else {
            None
        },
        None => None,
    }
}

/// The sum of the numbers on the lines from `p` on, up to the first line
/// that holds no number, and the position of that line.
pub open spec fn lines_from(s: Seq<u8>, p: int) -> (nat, int)
    decreases s.len() - p,
    via lines_from_ends
{
    match line_at(s, p) {
        Some((value, next)) => ((value + lines_from(s, next).0) as nat, lines_from(s, next).1),
        None => (0, p),
    }
}

#[via_fn]
proof fn lines_from_ends(s: Seq<u8>, p: int) {
    if line_at(s, p) is Some {
        lemma_line_at(s, p);
    }
}

/// A line ends behind where it begins, and inside the text.
pub proof fn lemma_line_at(s: Seq<u8>, p: int)
    requires
        line_at(s, p) is Some,
    ensures
        0 <= p < line_at(s, p)->Some_0.1 <= s.len(),
{
    if p < 0 {
        assert(crate::text::digits_end(s, p) == p);
    }
    lemma_digits_end(s, p);
}

/// The calories of the elf whose lines begin at `i`, behind a line ending
/// if there is one, and the position behind its last line. An elf has at
/// least one line.
pub open spec fn elf_at(s: Seq<u8>, i: int) -> Option<(nat, int)> {
    if line_at(s, after_line_ending(s, i)) is Some {
        Some(lines_from(s, after_line_ending(s, i)))
    } else {
        None
    }
}

/// The lines of an elf end behind where they begin, and inside the text.
pub proof fn lemma_lines_from(s: Seq<u8>, p: int)
    requires
        0 <= p <= s.len(),
    ensures
        p <= lines_from(s, p).1 <= s.len(),
        line_at(s, p) is Some ==> p < lines_from(s, p).1,
    decreases s.len() - p,
{
    if line_at(s, p) is Some {
        lemma_line_at(s, p);
        lemma_lines_from(s, line_at(s, p)->Some_0.1);
    }
}

/// The calories of the elves from `i` on, up to the first position at which
/// no elf begins.
pub open spec fn elves_from(s: Seq<u8>, i: int) -> Seq<nat>
    decreases s.len() - i,
    via elves_from_ends
{
    match elf_at(s, i) {
        Some((calories, next)) => seq![calories] + elves_from(s, next),
        None => Seq::empty(),
    }
}

#[via_fn]
proof fn elves_from_ends(s: Seq<u8>, i: int) {
    if elf_at(s, i) is Some {
        lemma_elf_at(s, i);
    }
}

/// An elf ends behind where it begins, and inside the text.
pub proof fn lemma_elf_at(s: Seq<u8>, i: int)
    requires
        elf_at(s, i) is Some,
    ensures
        0 <= i < elf_at(s, i)->Some_0.1 <= s.len(),
{
    let start = after_line_ending(s, i);
    lemma_line_at(s, start);
    lemma_lines_from(s, start);
}

/// Every number fits in 32 bits.
pub open spec fn all_fit(calories: Seq<nat>) -> bool {
    forall|k: int| 0 <= k < calories.len() ==> #[trigger] calories[k] <= u32::MAX
}

/// The largest of the numbers, 0 if there is none.
pub open spec fn most(calories: Seq<nat>) -> nat
    decreases calories.len(),
{
    if calories.len() == 0 {
        0
    } else if calories.last() > most(calories.drop_last()) {
        calories.last()
    } else {
        most(calories.drop_last())
    }
}

/// `most` is one of the numbers and no smaller than any of them.
pub proof fn lemma_most(calories: Seq<nat>)
    ensures
        forall|k: int| 0 <= k < calories.len() ==> #[trigger] calories[k] <= most(calories),
        calories.len() > 0 ==> calories.contains(most(calories)),
    decreases calories.len(),
{
    if calories.len() > 0 {
        let front = calories.drop_last();
        lemma_most(front);
        assert forall|k: int| 0 <= k < calories.len() implies #[trigger] calories[k] <= most(
            calories,
        ) by {
            if k < front.len() {
                assert(front[k] == calories[k]);
            }
        }
        if calories.last() > most(front) {
            assert(calories[calories.len() - 1] == most(calories));
        } else if front.len() > 0 {
            let k = choose|k: int| 0 <= k < front.len() && front[k] == most(front);
            assert(calories[k] == most(calories));
        } else {
            assert(calories[0] == most(calories));
        }
    }
}

/// The calories of the elf that carries most, if the text begins with an
/// elf and the calories of each elf fit in 32 bits.
pub open spec fn most_of(s: Seq<u8>) -> Option<u32> {
    if elves_from(s, 0).len() > 0 && all_fit(elves_from(s, 0)) {
        Some(most(elves_from(s, 0)) as u32)
    } else {
        None
    }
}

/// Reads the elf whose lines begin at `at`: `Ok(None)` if no elf begins
/// there, `Err` if its calories do not fit in 32 bits.
pub fn parse_elf(input: &[u8], at: usize) -> (r: Result<Option<(Elf, usize)>, Overflow>)
    requires
        at <= input@.len(),
    ensures
        match elf_at(input@, at as int) {
            Some((calories, next)) => if calories > u32::MAX {
                r is Err
            } else {
                &&& r matches Ok(Some(found))
                &&& found.0 == calories
                &&& found.1 == next
                &&& at < next <= input@.len()
            },
            None => r == Ok::<Option<(Elf, usize)>, Overflow>(None),
        },
{
    let start = skip_line_ending(input, at);
    let mut p = start;
    let mut sum: u32 = 0;
    let mut seen = false;
    loop
        invariant
            at <= start <= p <= input@.len(),
            start == after_line_ending(input@, at as int),
            seen ==> line_at(input@, start as int) is Some,
            seen ==> start < p,
            !seen ==> p == start,
            sum + lines_from(input@, p as int).0 == lines_from(input@, start as int).0,
            lines_from(input@, p as int).1 == lines_from(input@, start as int).1,
        ensures
            line_at(input@, p as int) is None,
        decreases input@.len() - p,
    {
        let (value, end) = match read_u32(input, p) {
            Some(found) => found,
            None => {
                break ;
            },
        };
        let next = skip_line_ending(input, end);
        if next == end {
            break ;
        }
        match sum.checked_add(value) {
            Some(more) => {
                sum = more;
            },
            None => {
                return Err(Overflow);
            },
        }
        p = next;
        seen = true;
    }
    if seen {
        Ok(Some((sum, p)))
    } else {
        Ok(None)
    }
}

/// The calories of the elf that carries most. `None` if the text does not
/// begin with an elf or the calories of an elf do not fit in 32 bits.
pub fn most_calories(input: &[u8]) -> (r: Option<u32>)
    ensures
        r == most_of(input@),
{
    let mut at: usize = 0;
    let mut best: u32 = 0;
    let mut seen = false;
    let ghost mut done: Seq<nat> = Seq::empty();
    proof {
        assert(done + elves_from(input@, 0) =~= elves_from(input@, 0));
    }
    loop
        invariant
            at <= input@.len(),
            seen == (done.len() > 0),
            all_fit(done),
            best == most(done),
            elves_from(input@, 0) == done + elves_from(input@, at as int),
        decreases input@.len() - at,
    {
        match parse_elf(input, at) {
            Err(_) => {
                proof {
                    let rest = elves_from(input@, at as int);
                    assert(elves_from(input@, 0)[done.len() as int] == rest[0]);
                }
                return None;
            },
            Ok(None) => {
                proof {
                    assert(done + Seq::<nat>::empty() =~= done);
                }
                return if seen {
                    Some(best)
                } else {
                    None
                };
            },
            Ok(Some((val, next))) => {
                proof {
                    let rest = elves_from(input@, next as int);
                    assert(done + (seq![val as nat] + rest) =~= done.push(val as nat) + rest);
                    assert(done.push(val as nat).drop_last() =~= done);
                    done = done.push(val as nat);
                }
                if val > best {
                    best = val;
                }
                at = next;
                seen = true;
            },
        }
    }
}

/// The calories of the elf that carries most. The text has to begin with
/// an elf, and the calories of each elf have to fit in 32 bits.
pub fn part1(i: &str) -> (calories: Elf)
    requires
        most_of(i.spec_bytes()) is Some,
    ensures
        Some(calories) == most_of(i.spec_bytes()),
{
    match most_calories(i.as_bytes()) {
        Some(calories) => calories,
        None => 0,
    }
}

/// How many numbers are kept.
pub const K: usize = 3;

/// No number is smaller than one before it.
pub open spec fn ascending(s: Seq<nat>) -> bool {
    forall|i: int, j: int| 0 <= i <= j < s.len() ==> s[i] <= s[j]
}

/// The place of the first number larger than `v`, or the length if there is
/// none.
pub open spec fn place(s: Seq<nat>, v: nat) -> int
    decreases s.len(),
{
    if s.len() == 0 || s[0] > v {
        0
    } else {
        1 + place(s.drop_first(), v)
    }
}

/// The smallest of the kept numbers, 0 if none is kept.
pub open spec fn floor(s: Seq<nat>) -> nat {
    if s.len() == 0 {
        0
    } else {
        s[0]
    }
}

/// The kept numbers, in ascending order, once `v` has been seen: `v` joins
/// them if it is larger than the smallest that is kept, and the smallest
/// leaves if more than `K` are kept then.
pub open spec fn keep(s: Seq<nat>, v: nat) -> Seq<nat> {
    let joined = if v > floor(s) {
        s.insert(place(s, v), v)
    } else {
        s
    };
    if joined.len() > K {
        joined.drop_first()
    } else {
        joined
    }
}

/// The numbers that are kept once all of `calories` have been seen, in
/// their order.
pub open spec fn kept(calories: Seq<nat>) -> Seq<nat>
    decreases calories.len(),
{
    if calories.len() == 0 {
        Seq::empty()
    } else {
        keep(kept(calories.drop_last()), calories.last())
    }
}

/// The sum of the numbers.
pub open spec fn sum_of(s: Seq<nat>) -> nat
    decreases s.len(),
{
    if s.len() == 0 {
        0
    } else {
        s[0] + sum_of(s.drop_first())
    }
}

/// The sum of the kept calories, if the text begins with an elf, the
/// calories of each elf fit in 32 bits, and so does the sum.
pub open spec fn top_of(s: Seq<u8>) -> Option<u32> {
    if elves_from(s, 0).len() > 0 && all_fit(elves_from(s, 0)) && sum_of(
        kept(elves_from(s, 0)),
    ) <= u32::MAX {
        Some(sum_of(kept(elves_from(s, 0))) as u32)
    } else {
        None
    }
}

/// The numbers as they are held in 32 bits.
pub open spec fn narrow(s: Seq<nat>) -> Seq<u32> {
    Seq::new(s.len(), |k: int| s[k] as u32)
}

/// `place` is inside the numbers, behind those that are no larger than `v`
/// and before those that are larger.
pub proof fn lemma_place(s: Seq<nat>, v: nat)
    requires
        ascending(s),
    ensures
        0 <= place(s, v) <= s.len(),
        forall|k: int| 0 <= k < place(s, v) ==> s[k] <= v,
        forall|k: int| place(s, v) <= k < s.len() ==> s[k] > v,
        ascending(s.insert(place(s, v), v)),
    decreases s.len(),
{
    if s.len() > 0 && s[0] <= v {
        let rest = s.drop_first();
        assert(ascending(rest)) by {
            assert forall|i: int, j: int| 0 <= i <= j < rest.len() implies rest[i] <= rest[j] by {
                assert(s[i + 1] <= s[j + 1]);
            }
        }
        lemma_place(rest, v);
        assert forall|k: int| 0 <= k < place(s, v) implies s[k] <= v by {
            if k > 0 {
                assert(rest[k - 1] <= v);
            }
        }
        assert forall|k: int| place(s, v) <= k < s.len() implies s[k] > v by {
            assert(rest[k - 1] > v);
        }
    }
    let p = place(s, v);
    let joined = s.insert(p, v);
    assert forall|i: int, j: int| 0 <= i <= j < joined.len() implies joined[i] <= joined[j] by {
        if i < p && j > p {
            assert(s[i] <= s[j - 1]);
        } else if i > p {
            assert(s[i - 1] <= s[j - 1]);
        } else if j < p {
            assert(s[i] <= s[j]);
        }
    }
}

/// The smallest number of a heap that holds ascending numbers is the first
/// of them.
proof fn lemma_least_is_first(held: Seq<nat>, x: u32)
    requires
        ascending(held),
        all_fit(held),
        held.len() > 0,
        is_least(narrow(held).to_multiset(), x),
    ensures
        x == held[0],
{
    let items = narrow(held);
    to_multiset_contains(items, x);
    to_multiset_contains(items, items[0]);
    assert(items[0] == held[0]);
    assert(items.contains(items[0]));
    assert(items.to_multiset().contains(items[0]));
    assert(x <= items[0]);
    assert(items.contains(x));
    let k = choose|k: int| 0 <= k < items.len() && items[k] == x;
    assert(items[k] == held[k]);
    assert(held[0] <= held[k]);
}

/// Keeps `val` in the heap if it is larger than the smallest number that is
/// kept, and takes the smallest out if more than `K` are kept then.
fn keep_in_heap(heap: &mut BinaryHeap<u32, Min, 4>, val: u32, Ghost(held): Ghost<Seq<nat>>)
    requires
        ascending(held),
        all_fit(held),
        held.len() <= K,
        heap_items(*old(heap)) == narrow(held).to_multiset(),
    ensures
        ascending(keep(held, val as nat)),
        all_fit(keep(held, val as nat)),
        keep(held, val as nat).len() <= K,
        heap_items(*final(heap)) == narrow(keep(held, val as nat)).to_multiset(),
{
    proof {
        to_multiset_len(narrow(held));
    }
    let smallest = match heap_peek(heap) {
        Some(x) => {
            proof {
                lemma_least_is_first(held, x);
            }
            x
        },
        None => 0,
    };
    let ghost joined = held;
    if val > smallest {
        proof {
            lemma_place(held, val as nat);
            joined = held.insert(place(held, val as nat), val as nat);
            to_multiset_insert(narrow(held), place(held, val as nat), val);
            assert(narrow(joined) =~= narrow(held).insert(place(held, val as nat), val));
        }
        let stored = heap_push(heap, val);
        assert(stored);
    }
    proof {
        to_multiset_len(narrow(joined));
    }
    if heap_len(heap) > K {
        let top = heap_pop(heap);
        proof {
            lemma_least_is_first(joined, top->Some_0);
            to_multiset_remove(narrow(joined), 0);
            assert(narrow(joined).remove(0) =~= narrow(joined.drop_first()));
            assert(ascending(joined.drop_first())) by {
                let rest = joined.drop_first();
                assert forall|i: int, j: int| 0 <= i <= j < rest.len() implies rest[i]
                    <= rest[j] by {
                    assert(joined[i + 1] <= joined[j + 1]);
                }
            }
        }
    }
}

/// The sum of what the heap holds; the heap is empty afterwards. `None` if
/// the sum does not fit in 32 bits.
fn drain_sum(heap: &mut BinaryHeap<u32, Min, 4>, Ghost(held): Ghost<Seq<nat>>) -> (r: Option<u32>)
    requires
        ascending(held),
        all_fit(held),
        heap_items(*old(heap)) == narrow(held).to_multiset(),
    ensures
        r == if sum_of(held) <= u32::MAX {
            Some(sum_of(held) as u32)
        } else {
            None
        },
{
    let ghost mut left = held;
    let mut sum: u32 = 0;
    proof {
        to_multiset_len(narrow(left));
    }
    while heap_len(heap) > 0
        invariant
            ascending(left),
            all_fit(left),
            heap_items(*heap) == narrow(left).to_multiset(),
            heap_items(*heap).len() == left.len(),
            sum + sum_of(left) == sum_of(held),
        decreases left.len(),
    {
        let top = heap_pop(heap);
        proof {
            lemma_least_is_first(left, top->Some_0);
            to_multiset_remove(narrow(left), 0);
            assert(narrow(left).remove(0) =~= narrow(left.drop_first()));
            assert(ascending(left.drop_first())) by {
                let rest = left.drop_first();
                assert forall|i: int, j: int| 0 <= i <= j < rest.len() implies rest[i]
                    <= rest[j] by {
                    assert(left[i + 1] <= left[j + 1]);
                }
            }
            to_multiset_len(narrow(left.drop_first()));
        }
        let x = match top {
            Some(x) => x,
            None => 0,
        };
        match sum.checked_add(x) {
            Some(more) => {
                sum = more;
            },
            None => {
                return None;
            },
        }
        proof {
            left = left.drop_first();
        }
    }
    Some(sum)
}

/// The sum of the calories that are kept when the elves have been seen one
/// after the other: each elf that carries more than the least that is kept
/// joins, and the least leaves when more than `K` are kept. `None` if the
/// text does not begin with an elf, or the calories of an elf or the sum
/// do not fit in 32 bits.
pub fn top_calories(input: &[u8]) -> (r: Option<u32>)
    ensures
        r == top_of(input@),
{
    let mut heap = heap_new();
    let mut at: usize = 0;
    let mut seen = false;
    let ghost mut done: Seq<nat> = Seq::empty();
    proof {
        assert(done + elves_from(input@, 0) =~= elves_from(input@, 0));
        assert(narrow(kept(done)) =~= Seq::<u32>::empty());
        to_multiset_len(narrow(kept(done)));
        lemma_multiset_empty_len(narrow(kept(done)).to_multiset());
    }
    loop
        invariant
            at <= input@.len(),
            seen == (done.len() > 0),
            all_fit(done),
            ascending(kept(done)),
            all_fit(kept(done)),
            kept(done).len() <= K,
            heap_items(heap) == narrow(kept(done)).to_multiset(),
            elves_from(input@, 0) == done + elves_from(input@, at as int),
        decreases input@.len() - at,
    {
        match parse_elf(input, at) {
            Err(_) => {
                proof {
                    let rest = elves_from(input@, at as int);
                    assert(elves_from(input@, 0)[done.len() as int] == rest[0]);
                }
                return None;
            },
            Ok(None) => {
                proof {
                    assert(done + Seq::<nat>::empty() =~= done);
                }
                if !seen {
                    return None;
                }
                return drain_sum(&mut heap, Ghost(kept(done)));
            },
            Ok(Some((val, next))) => {
                keep_in_heap(&mut heap, val, Ghost(kept(done)));
                proof {
                    let rest = elves_from(input@, next as int);
                    assert(done + (seq![val as nat] + rest) =~= done.push(val as nat) + rest);
                    assert(done.push(val as nat).drop_last() =~= done);
                    done = done.push(val as nat);
                }
                at = next;
                seen = true;
            },
        }
    }
}

/// The sum of the calories that are kept when the elves have been seen one
/// after the other. The text has to begin with an elf, and the calories of
/// each elf and the sum have to fit in 32 bits.
pub fn part2(i: &str) -> (calories: Elf)
    requires
        top_of(i.spec_bytes()) is Some,
    ensures
        Some(calories) == top_of(i.spec_bytes()),
{
    match top_calories(i.as_bytes()) {
        Some(calories) => calories,
        None => 0,
    }
}

} // verus!
