//! The rounds, run on the fixed arrays: a monkey's slots are walked in order,
//! each held item is taken out, changed, and put into the first empty slot
//! of the monkey it is thrown to.

use crate::day11::business::business_level;
use crate::day11::model::{
    compact, first_empty, insert, lemma_first_empty, lemma_first_empty_is, troop, well_formed,
    Agent, Monkey, MonkeyOp, MAX_ITEMS,
};
use crate::day11::rounds::{
    apply, counted, inspect, moduli_product, outcome, round, rounds_from, simulation, turn, turns,
    with_item, without_front, Relief, SimError,
};
use vstd::arithmetic::mul::lemma_mul_inequality;
use vstd::prelude::*;

verus! {

/// The items that a monkey standing before slot `i` of its turn has yet to
/// inspect.
spec fn pending(slots: Seq<u64>, i: int) -> Seq<u64> {
    slots.subrange(i, first_empty(slots, i))
}

/// The items that came back to a monkey standing before slot `i` of its
/// turn: they fill the slots it has already left.
spec fn came_back(slots: Seq<u64>, i: int) -> Seq<u64> {
    slots.subrange(0, first_empty(slots.take(i), 0))
}

/// The slots of a monkey standing before slot `i` of its turn: the items
/// that came back, then empty slots up to `i`, then the pending items, then
/// empty slots.
spec fn in_turn(slots: Seq<u64>, i: int) -> bool {
    &&& 0 <= i <= slots.len()
    &&& forall|k: int| first_empty(slots.take(i), 0) <= k < i ==> slots[k] == 0
    &&& forall|k: int| first_empty(slots, i) <= k < slots.len() ==> slots[k] == 0
}

/// The agent that a monkey standing before slot `i` of its turn stands for.
spec fn agent_in_turn(monkey: Monkey, i: int) -> Agent {
    Agent { items: pending(monkey.items@, i) + came_back(monkey.items@, i), ..monkey@ }
}

/// The troop while monkey `m` stands before slot `i` of its turn.
spec fn troop_in_turn(monkeys: Seq<Monkey>, m: int, i: int) -> Seq<Agent> {
    Seq::new(
        monkeys.len(),
        |k: int|
            if k == m {
                agent_in_turn(monkeys[k], i)
            } else {
                monkeys[k]@
            },
    )
}

/// The rules of every monkey can be followed: a positive modulus and
/// receivers inside the troop.
spec fn rules_ok(monkeys: Seq<Monkey>) -> bool {
    forall|k: int|
        0 <= k < monkeys.len() ==> {
            &&& (#[trigger] monkeys[k]).modulus > 0
            &&& monkeys[k].if_true < monkeys.len()
            &&& monkeys[k].if_false < monkeys.len()
        }
}

/// Nothing but items and inspection counts differs between the two arrays.
pub open spec fn same_rules(before: Seq<Monkey>, after: Seq<Monkey>) -> bool {
    &&& before.len() == after.len()
    &&& forall|k: int|
        0 <= k < before.len() ==> {
            &&& (#[trigger] after[k]).op == before[k].op
            &&& after[k].modulus == before[k].modulus
            &&& after[k].if_true == before[k].if_true
            &&& after[k].if_false == before[k].if_false
        }
}

/// The array while monkey `m` stands before slot `i` of its turn.
spec fn table_in_turn(monkeys: Seq<Monkey>, m: int, i: int) -> bool {
    &&& 0 <= m < monkeys.len()
    &&& rules_ok(monkeys)
    &&& in_turn(monkeys[m].items@, i)
    &&& forall|k: int| 0 <= k < monkeys.len() && k != m ==> compact(#[trigger] monkeys[k].items@)
}

/// At the beginning of its turn a monkey stands for the agent it is viewed
/// as.
proof fn lemma_turn_begins(slots: Seq<u64>)
    requires
        compact(slots),
    ensures
        in_turn(slots, 0),
        pending(slots, 0) + came_back(slots, 0) == slots.take(first_empty(slots, 0)),
{
    lemma_first_empty(slots, 0);
    assert(slots.take(0).len() == 0);
    assert(pending(slots, 0) + came_back(slots, 0) =~= slots.take(first_empty(slots, 0)));
}

/// At the end of its turn a monkey holds the items that came back, compact
/// again.
proof fn lemma_turn_ends(slots: Seq<u64>)
    requires
        in_turn(slots, slots.len() as int),
    ensures
        compact(slots),
        pending(slots, slots.len() as int) + came_back(slots, slots.len() as int) == slots.take(
            first_empty(slots, 0),
        ),
{
    let n = slots.len() as int;
    assert(slots.take(n) =~= slots);
    lemma_first_empty(slots, 0);
    assert(pending(slots, n) + came_back(slots, n) =~= slots.take(first_empty(slots, 0)));
}

/// The items that came back fill the first slots without a gap.
proof fn lemma_came_back(slots: Seq<u64>, i: int)
    requires
        0 <= i <= slots.len(),
    ensures
        0 <= first_empty(slots.take(i), 0) <= i,
        forall|k: int| 0 <= k < first_empty(slots.take(i), 0) ==> slots[k] != 0,
        first_empty(slots.take(i), 0) < i ==> slots[first_empty(slots.take(i), 0)] == 0,
{
    lemma_first_empty(slots.take(i), 0);
    let j = first_empty(slots.take(i), 0);
    assert forall|k: int| 0 <= k < j implies slots[k] != 0 by {
        assert(slots.take(i)[k] == slots[k]);
    }
    if j < i {
        assert(slots.take(i)[j] == slots[j]);
    }
}

/// Passing an empty slot changes nothing.
proof fn lemma_pass_empty(slots: Seq<u64>, i: int)
    requires
        in_turn(slots, i),
        i < slots.len(),
        slots[i] == 0,
    ensures
        in_turn(slots, i + 1),
        pending(slots, i + 1) == pending(slots, i),
        came_back(slots, i + 1) == came_back(slots, i),
        pending(slots, i).len() == 0,
{
    lemma_came_back(slots, i);
    let j = first_empty(slots.take(i), 0);
    lemma_first_empty_is(slots.take(i + 1), 0, j);
    lemma_first_empty(slots, i + 1);
    assert(first_empty(slots, i) == i);
    if i + 1 < slots.len() {
        assert(slots[i + 1] == 0);
    }
    assert(first_empty(slots, i + 1) == i + 1);
    assert(pending(slots, i + 1) =~= pending(slots, i));
}

/// Taking the item out of slot `i` removes the front of the pending items.
proof fn lemma_take_out(slots: Seq<u64>, i: int)
    requires
        in_turn(slots, i),
        i < slots.len(),
        slots[i] != 0,
    ensures
        in_turn(slots.update(i, 0), i + 1),
        pending(slots, i).len() > 0,
        pending(slots, i)[0] == slots[i],
        pending(slots.update(i, 0), i + 1) == pending(slots, i).drop_first(),
        came_back(slots.update(i, 0), i + 1) == came_back(slots, i),
        first_empty(slots.update(i, 0), i + 1) == first_empty(slots, i),
        first_empty(slots.update(i, 0), 0) == first_empty(slots.take(i), 0),
        first_empty(slots.take(i), 0) <= i,
{
    let cleared = slots.update(i, 0);
    lemma_came_back(slots, i);
    let j = first_empty(slots.take(i), 0);
    lemma_first_empty(slots, i + 1);
    let e = first_empty(slots, i + 1);
    assert(first_empty(slots, i) == e);
    lemma_first_empty_is(cleared, i + 1, e);
    lemma_first_empty_is(cleared.take(i + 1), 0, j);
    lemma_first_empty_is(cleared, 0, j);
    assert(pending(cleared, i + 1) =~= pending(slots, i).drop_first());
    assert(came_back(cleared, i + 1) =~= came_back(slots, i));
}

/// An item thrown by a monkey to itself lands behind the items that came
/// back before it.
proof fn lemma_comes_back(slots: Seq<u64>, i: int, worry: u64)
    requires
        in_turn(slots, i),
        i > 0,
        slots[i - 1] == 0,
        worry != 0,
    ensures
        first_empty(slots, 0) == first_empty(slots.take(i), 0),
        first_empty(slots, 0) < i,
        in_turn(slots.update(first_empty(slots, 0), worry), i),
        pending(slots.update(first_empty(slots, 0), worry), i) == pending(slots, i),
        came_back(slots.update(first_empty(slots, 0), worry), i) == came_back(slots, i).push(worry),
        first_empty(slots.update(first_empty(slots, 0), worry), i) == first_empty(slots, i),
{
    lemma_came_back(slots, i);
    let j = first_empty(slots.take(i), 0);
    if j == i {
        assert(slots[i - 1] != 0);
    }
    lemma_first_empty_is(slots, 0, j);
    let filled = slots.update(j, worry);
    lemma_first_empty(slots, i);
    let e = first_empty(slots, i);
    lemma_first_empty_is(filled, i, e);
    lemma_first_empty_is(filled.take(i), 0, j + 1);
    assert(pending(filled, i) =~= pending(slots, i));
    assert(came_back(filled, i) =~= came_back(slots, i).push(worry));
}

/// A monkey that has just emptied a slot has room for an item thrown to
/// itself.
proof fn lemma_comes_back_room(slots: Seq<u64>, i: int)
    requires
        in_turn(slots, i),
        i > 0,
        slots[i - 1] == 0,
    ensures
        first_empty(slots, 0) == first_empty(slots.take(i), 0),
        first_empty(slots, 0) < i,
        pending(slots, i).len() + came_back(slots, i).len() < slots.len(),
{
    lemma_came_back(slots, i);
    let j = first_empty(slots.take(i), 0);
    if j == i {
        assert(slots[i - 1] != 0);
    }
    lemma_first_empty_is(slots, 0, j);
    lemma_first_empty(slots, i);
}

/// An item thrown to another monkey joins the back of its queue.
proof fn lemma_arrives(slots: Seq<u64>, worry: u64)
    requires
        compact(slots),
        first_empty(slots, 0) < slots.len(),
        worry != 0,
    ensures
        compact(slots.update(first_empty(slots, 0), worry)),
        slots.update(first_empty(slots, 0), worry).take(
            first_empty(slots.update(first_empty(slots, 0), worry), 0),
        ) == slots.take(first_empty(slots, 0)).push(worry),
{
    lemma_first_empty(slots, 0);
    let k = first_empty(slots, 0);
    let filled = slots.update(k, worry);
    lemma_first_empty_is(filled, 0, k + 1);
    assert(filled.take(k + 1) =~= slots.take(k).push(worry));
}

/// The worry level after the operation, in a type wide enough for it.
fn operate(op: MonkeyOp, worry: u64) -> (wide: u128)
    ensures
        wide == apply(op, worry),
{
    match op {
        MonkeyOp::Plus(x) => worry as u128 + x as u128,
        MonkeyOp::Times(x) => {
            assert(worry * x <= u64::MAX * u64::MAX) by (nonlinear_arith)
                requires
                    worry <= u64::MAX,
                    x <= u64::MAX,
            ;
            (worry as u128) * (x as u128)
        },
        MonkeyOp::Square => {
            assert(worry * worry <= u64::MAX * u64::MAX) by (nonlinear_arith)
                requires
                    worry <= u64::MAX,
            ;
            (worry as u128) * (worry as u128)
        },
    }
}

/// Monkey `m` inspects the item in slot `i` and throws it.
#[verifier::rlimit(30)]
fn inspect_slot<const N: usize>(
    monkeys: &mut [Monkey; N],
    m: usize,
    i: usize,
    relief: Relief,
    common: u64,
) -> (r: Result<(), SimError>)
    requires
        table_in_turn(old(monkeys)@, m as int, i as int),
        i < MAX_ITEMS,
        old(monkeys)@[m as int].items@[i as int] != 0,
        relief is Stabilize ==> common > 0,
    ensures
        match inspect(
            troop_in_turn(old(monkeys)@, m as int, i as int),
            m as int,
            relief,
            common as nat,
        ) {
            Ok(next) => {
                &&& r is Ok
                &&& table_in_turn(final(monkeys)@, m as int, i + 1)
                &&& troop_in_turn(final(monkeys)@, m as int, i + 1) == next
                &&& first_empty(final(monkeys)@[m as int].items@, i + 1) == first_empty(
                    old(monkeys)@[m as int].items@,
                    i as int,
                )
            },
            Err(e) => r == Err::<(), SimError>(e),
        },
        same_rules(old(monkeys)@, final(monkeys)@),
{
    let ghost before = monkeys@;
    let ghost agents = troop_in_turn(before, m as int, i as int);
    let ghost slots = before[m as int].items@;
    proof {
        lemma_take_out(slots, i as int);
    }
    let worry = monkeys[m].items[i];
    monkeys[m].items[i] = 0;
    let ghost cleared = monkeys@;
    let op = monkeys[m].op;
    let modulus = monkeys[m].modulus;
    let wide = operate(op, worry);
    let probe: u128 = match relief {
        Relief::Decay => wide / 3,
        Relief::Stabilize => wide,
    };
    let arriving: u128 = match relief {
        Relief::Decay => wide / 3,
        Relief::Stabilize => wide % (common as u128),
    };
    let target = if probe % (modulus as u128) == 0 {
        monkeys[m].if_true
    } else {
        monkeys[m].if_false
    };
    assert(agents[m as int].items[0] == worry);
    if arriving > u64::MAX as u128 {
        return Err(SimError::Overflow);
    }
    let ghost taken = agents.update(m as int, without_front(agents[m as int]));
    proof {
        assert((pending(slots, i as int) + came_back(slots, i as int)).drop_first()
            =~= pending(slots, i as int).drop_first() + came_back(slots, i as int));
        assert(troop_in_turn(cleared, m as int, i + 1) =~= taken);
        if target == m {
            lemma_comes_back_room(cleared[m as int].items@, i + 1);
        } else {
            lemma_first_empty(cleared[target as int].items@, 0);
        }
    }
    let stored = insert(&mut monkeys[target].items, arriving as u64);
    if !stored {
        return Err(SimError::Capacity);
    }
    let ghost passed = taken.update(
        target as int,
        with_item(taken[target as int], arriving as u64),
    );
    proof {
        let thrown_to = cleared[target as int].items@;
        if arriving != 0 {
            if target == m {
                lemma_comes_back(thrown_to, i + 1, arriving as u64);
            } else {
                lemma_arrives(thrown_to, arriving as u64);
            }
        } else {
            assert(monkeys@[target as int].items@ =~= thrown_to);
        }
        assert(troop_in_turn(monkeys@, m as int, i + 1) =~= passed);
    }
    if monkeys[m].num_inspections == usize::MAX {
        return Err(SimError::Overflow);
    }
    monkeys[m].num_inspections += 1;
    proof {
        assert(troop_in_turn(monkeys@, m as int, i + 1) =~= passed.update(
            m as int,
            counted(passed[m as int]),
        ));
    }
    Ok(())
}

/// Monkeys that keep their items compact and have rules that can be followed
/// are well formed.
proof fn lemma_well_formed(monkeys: Seq<Monkey>)
    requires
        rules_ok(monkeys),
        forall|k: int| 0 <= k < monkeys.len() ==> compact(#[trigger] monkeys[k].items@),
    ensures
        well_formed(monkeys),
{
    assert forall|k: int| 0 <= k < monkeys.len() implies compact(#[trigger] monkeys[k].items@)
        && monkeys[k]@.valid(monkeys.len()) by {
        lemma_first_empty(monkeys[k].items@, 0);
    }
}

/// Well-formed monkeys have rules that can be followed.
proof fn lemma_rules_ok(monkeys: Seq<Monkey>)
    requires
        well_formed(monkeys),
    ensures
        rules_ok(monkeys),
        forall|k: int| 0 <= k < monkeys.len() ==> compact(#[trigger] monkeys[k].items@),
{
    assert forall|k: int| 0 <= k < monkeys.len() implies {
        &&& (#[trigger] monkeys[k]).modulus > 0
        &&& monkeys[k].if_true < monkeys.len()
        &&& monkeys[k].if_false < monkeys.len()
    } by {
        assert(compact(monkeys[k].items@));
    }
}

/// Monkey `m` takes its turn: it inspects and throws every item that it
/// holds when the turn begins, in the order in which they arrived.
#[verifier::rlimit(30)]
pub fn take_turn<const N: usize>(
    monkeys: &mut [Monkey; N],
    m: usize,
    relief: Relief,
    common: u64,
) -> (r: Result<(), SimError>)
    requires
        m < N,
        well_formed(old(monkeys)@),
        relief is Stabilize ==> common > 0,
    ensures
        match turn(
            troop(old(monkeys)@),
            m as int,
            troop(old(monkeys)@)[m as int].items.len(),
            relief,
            common as nat,
        ) {
            Ok(next) => {
                &&& r is Ok
                &&& well_formed(final(monkeys)@)
                &&& troop(final(monkeys)@) == next
            },
            Err(e) => r == Err::<(), SimError>(e),
        },
        same_rules(old(monkeys)@, final(monkeys)@),
{
    let ghost start = monkeys@;
    proof {
        lemma_rules_ok(start);
        lemma_turn_begins(start[m as int].items@);
        assert(troop_in_turn(start, m as int, 0) =~= troop(start));
    }
    let mut i: usize = 0;
    while i < MAX_ITEMS
        invariant
            i <= MAX_ITEMS,
            m < N,
            start == old(monkeys)@,
            relief is Stabilize ==> common > 0,
            table_in_turn(monkeys@, m as int, i as int),
            same_rules(start, monkeys@),
            turn(troop(start), m as int, troop(start)[m as int].items.len(), relief, common as nat)
                == turn(
                troop_in_turn(monkeys@, m as int, i as int),
                m as int,
                pending(monkeys@[m as int].items@, i as int).len(),
                relief,
                common as nat,
            ),
        decreases MAX_ITEMS - i,
    {
        let ghost here = monkeys@;
        if monkeys[m].items[i] != 0 {
            proof {
                lemma_take_out(here[m as int].items@, i as int);
            }
            match inspect_slot(monkeys, m, i, relief, common) {
                Ok(()) => {
                    proof {
                        lemma_first_empty(monkeys@[m as int].items@, i + 1);
                    }
                },
                Err(e) => {
                    return Err(e);
                },
            }
        } else {
            proof {
                lemma_pass_empty(here[m as int].items@, i as int);
                assert(troop_in_turn(here, m as int, i + 1) =~= troop_in_turn(
                    here,
                    m as int,
                    i as int,
                ));
            }
        }
        i += 1;
    }
    proof {
        lemma_turn_ends(monkeys@[m as int].items@);
        lemma_first_empty(monkeys@[m as int].items@, MAX_ITEMS as int);
        assert(troop_in_turn(monkeys@, m as int, MAX_ITEMS as int) =~= troop(monkeys@));
        lemma_well_formed(monkeys@);
    }
    Ok(())
}

/// One round: every monkey takes its turn, monkey 0 first.
pub fn run_round<const N: usize>(monkeys: &mut [Monkey; N], relief: Relief, common: u64) -> (r:
    Result<(), SimError>)
    requires
        well_formed(old(monkeys)@),
        relief is Stabilize ==> common > 0,
    ensures
        match round(troop(old(monkeys)@), relief, common as nat) {
            Ok(next) => {
                &&& r is Ok
                &&& well_formed(final(monkeys)@)
                &&& troop(final(monkeys)@) == next
            },
            Err(e) => r == Err::<(), SimError>(e),
        },
        same_rules(old(monkeys)@, final(monkeys)@),
{
    let ghost start = monkeys@;
    let mut m: usize = 0;
    while m < N
        invariant
            m <= N,
            start == old(monkeys)@,
            relief is Stabilize ==> common > 0,
            well_formed(monkeys@),
            same_rules(start, monkeys@),
            round(troop(start), relief, common as nat) == turns(
                troop(monkeys@),
                m as int,
                (N - m) as nat,
                relief,
                common as nat,
            ),
        decreases N - m,
    {
        match take_turn(monkeys, m, relief, common) {
            Ok(()) => {},
            Err(e) => {
                return Err(e);
            },
        }
        m += 1;
    }
    Ok(())
}

/// The product of the moduli of the first `k` agents is positive and no
/// larger than the product of all of them.
pub proof fn lemma_product_grows(agents: Seq<Agent>, k: int)
    requires
        0 <= k <= agents.len(),
        forall|i: int| 0 <= i < agents.len() ==> (#[trigger] agents[i]).test_modulus > 0,
    ensures
        1 <= moduli_product(agents.take(k)) <= moduli_product(agents),
    decreases agents.len() - k,
{
    if k == agents.len() {
        assert(agents.take(k) =~= agents);
        lemma_product_positive(agents);
    } else {
        lemma_product_grows(agents, k + 1);
        let longer = agents.take(k + 1);
        assert(longer.drop_last() =~= agents.take(k));
        assert(longer.last() == agents[k]);
        lemma_product_positive(agents.take(k));
        lemma_mul_inequality(
            1,
            agents[k].test_modulus as int,
            moduli_product(agents.take(k)) as int,
        );
        assert(moduli_product(agents.take(k)) * agents[k].test_modulus == agents[k].test_modulus
            * moduli_product(agents.take(k))) by (nonlinear_arith);
    }
}

/// A product of positive moduli is positive.
pub proof fn lemma_product_positive(agents: Seq<Agent>)
    requires
        forall|i: int| 0 <= i < agents.len() ==> (#[trigger] agents[i]).test_modulus > 0,
    ensures
        moduli_product(agents) >= 1,
    decreases agents.len(),
{
    if agents.len() > 0 {
        lemma_product_positive(agents.drop_last());
        assert(moduli_product(agents.drop_last()) * agents.last().test_modulus >= 1)
            by (nonlinear_arith)
            requires
                moduli_product(agents.drop_last()) >= 1,
                agents.last().test_modulus >= 1,
        ;
    }
}

/// The product of all test moduli, or `None` if it does not fit in 64 bits.
pub fn common_modulus<const N: usize>(monkeys: &[Monkey; N]) -> (r: Option<u64>)
    requires
        well_formed(monkeys@),
    ensures
        r == if moduli_product(troop(monkeys@)) > u64::MAX {
            None
        } else {
            Some(moduli_product(troop(monkeys@)) as u64)
        },
        r matches Some(c) ==> c > 0,
{
    let ghost agents = troop(monkeys@);
    proof {
        lemma_rules_ok(monkeys@);
        assert(agents.take(0) =~= Seq::<Agent>::empty());
    }
    let mut product: u64 = 1;
    let mut k: usize = 0;
    while k < N
        invariant
            k <= N,
            agents == troop(monkeys@),
            rules_ok(monkeys@),
            product == moduli_product(agents.take(k as int)),
        decreases N - k,
    {
        proof {
            assert(agents.take(k + 1).drop_last() =~= agents.take(k as int));
            assert(agents.take(k + 1).last() == agents[k as int]);
            assert forall|i: int| 0 <= i < agents.len() implies (#[trigger] agents[i]).test_modulus
                > 0 by {
                assert(monkeys@[i].modulus > 0);
            }
            lemma_product_grows(agents, k + 1);
        }
        match product.checked_mul(monkeys[k].modulus) {
            Some(p) => {
                product = p;
            },
            None => {
                return None;
            },
        }
        k += 1;
    }
    proof {
        assert(agents.take(N as int) =~= agents);
        assert forall|i: int| 0 <= i < agents.len() implies (#[trigger] agents[i]).test_modulus
            > 0 by {
            assert(monkeys@[i].modulus > 0);
        }
        lemma_product_positive(agents);
    }
    Some(product)
}

/// Runs `rounds` rounds on a copy of `parsed`, which stays as it is, and
/// gives the copy back as it is after the last round.
pub fn simulated<const N: usize>(parsed: &[Monkey; N], rounds: u32, relief: Relief) -> (r: Result<
    [Monkey; N],
    SimError,
>)
    requires
        well_formed(parsed@),
    ensures
        match simulation(troop(parsed@), rounds as nat, relief) {
            Ok(last) => {
                &&& r matches Ok(monkeys)
                &&& well_formed(monkeys@)
                &&& same_rules(parsed@, monkeys@)
                &&& troop(monkeys@) == last
            },
            Err(e) => r matches Err(x) && x == e,
        },
{
    let mut monkeys: [Monkey; N] = *parsed;
    let common: u64 = match relief {
        Relief::Decay => 1,
        Relief::Stabilize => match common_modulus(&monkeys) {
            Some(c) => c,
            None => {
                return Err(SimError::Overflow);
            },
        },
    };
    let mut done: u32 = 0;
    while done < rounds
        invariant
            done <= rounds,
            relief is Stabilize ==> common > 0,
            well_formed(monkeys@),
            same_rules(parsed@, monkeys@),
            simulation(troop(parsed@), rounds as nat, relief) == rounds_from(
                troop(monkeys@),
                (rounds - done) as nat,
                relief,
                common as nat,
            ),
        decreases rounds - done,
    {
        match run_round(&mut monkeys, relief, common) {
            Ok(()) => {},
            Err(e) => {
                return Err(e);
            },
        }
        done += 1;
    }
    Ok(monkeys)
}

/// Runs `rounds` rounds on the monkeys. On an error the monkeys stay as
/// they were.
pub fn simulate<const N: usize>(monkeys: &mut [Monkey; N], rounds: u32, relief: Relief) -> (r:
    Result<(), SimError>)
    requires
        well_formed(old(monkeys)@),
    ensures
        match simulation(troop(old(monkeys)@), rounds as nat, relief) {
            Ok(last) => {
                &&& r is Ok
                &&& well_formed(final(monkeys)@)
                &&& troop(final(monkeys)@) == last
            },
            Err(e) => r == Err::<(), SimError>(e) && *final(monkeys) == *old(monkeys),
        },
        same_rules(old(monkeys)@, final(monkeys)@),
{
    match simulated(monkeys, rounds, relief) {
        Ok(last) => {
            *monkeys = last;
            Ok(())
        },
        Err(e) => Err(e),
    }
}

/// Runs `rounds` rounds on a copy of `parsed`, which stays as it is, and
/// reports the business level after the last round.
pub fn run<const N: usize>(parsed: &[Monkey; N], rounds: u32, relief: Relief) -> (r: Result<
    u64,
    SimError,
>)
    requires
        well_formed(parsed@),
    ensures
        r == outcome(troop(parsed@), rounds as nat, relief),
{
    match simulated(parsed, rounds, relief) {
        Ok(monkeys) => business_level(&monkeys),
        Err(e) => Err(e),
    }
}

/// The business level after 20 rounds in which every inspection is followed
/// by relief: the worry level is divided by three.
pub fn part1<const N: usize>(parsed: &[Monkey; N]) -> (r: Result<u64, SimError>)
    requires
        well_formed(parsed@),
    ensures
        r == outcome(troop(parsed@), 20, Relief::Decay),
{
    run(parsed, 20, Relief::Decay)
}

/// The business level after 10000 rounds without relief, the worry levels
/// kept in range by reducing them modulo the product of all test moduli.
pub fn part2<const N: usize>(parsed: &[Monkey; N]) -> (r: Result<u64, SimError>)
    requires
        well_formed(parsed@),
    ensures
        r == outcome(troop(parsed@), 10000, Relief::Stabilize),
{
    run(parsed, 10000, Relief::Stabilize)
}

} // verus!
