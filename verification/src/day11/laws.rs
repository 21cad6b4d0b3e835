//! What holds of every simulation, whatever troop it starts from.

use crate::day11::model::{valid_troop, Agent, MonkeyOp};
use crate::day11::rounds::{
    counted, inspect, moduli_product, receiver, round, rounds_from, simulation, thrown, turn,
    turns, with_item, without_front, Relief,
};
use vstd::arithmetic::div_mod::{lemma_add_mod_noop, lemma_mod_mod, lemma_mul_mod_noop_general};
use vstd::prelude::*;

verus! {

/// The two troops have the same agents with the same rules; items and
/// inspection counts may differ.
pub open spec fn kept_rules(before: Seq<Agent>, after: Seq<Agent>) -> bool {
    &&& before.len() == after.len()
    &&& forall|k: int|
        0 <= k < before.len() ==> {
            &&& (#[trigger] after[k]).operation == before[k].operation
            &&& after[k].test_modulus == before[k].test_modulus
            &&& after[k].true_target == before[k].true_target
            &&& after[k].false_target == before[k].false_target
        }
}

/// No agent of `after` has inspected fewer items than it has in `before`.
pub open spec fn counts_grew(before: Seq<Agent>, after: Seq<Agent>) -> bool {
    &&& before.len() == after.len()
    &&& forall|k: int|
        0 <= k < before.len() ==> before[k].inspection_count <= (
        #[trigger] after[k]).inspection_count
}

/// One inspection: the troop stays valid, the rules stay, the inspecting
/// agent counts one more, the item moves from the front of its queue to the
/// back of the receiver's, and nothing else changes.
pub proof fn lemma_inspect(agents: Seq<Agent>, m: int, relief: Relief, common: nat)
    requires
        valid_troop(agents),
        0 <= m < agents.len(),
        agents[m].items.len() > 0,
        inspect(agents, m, relief, common) is Ok,
    ensures
        ({
            let next = inspect(agents, m, relief, common)->Ok_0;
            let to = receiver(agents[m], relief);
            let worry = thrown(agents[m].operation, agents[m].items[0], relief, common);
            &&& valid_troop(next)
            &&& kept_rules(agents, next)
            &&& 0 <= to < agents.len()
            &&& worry <= u64::MAX
            &&& next[m].inspection_count == agents[m].inspection_count + 1
            &&& forall|k: int|
                0 <= k < agents.len() && k != m ==> (#[trigger] next[k]).inspection_count
                    == agents[k].inspection_count
            &&& forall|k: int|
                0 <= k < agents.len() && k != m && k != to ==> (#[trigger] next[k]).items
                    == agents[k].items
            &&& to != m ==> next[m].items == agents[m].items.drop_first() && next[to].items
                == with_item(agents[to], worry as u64).items
            &&& to == m ==> next[m].items == with_item(
                without_front(agents[m]),
                worry as u64,
            ).items
        }),
{
    let a = agents[m];
    let next = inspect(agents, m, relief, common)->Ok_0;
    let to = receiver(a, relief);
    let worry = thrown(a.operation, a.items[0], relief, common);
    assert(a.valid(agents.len()));
    let taken = agents.update(m, without_front(a));
    let passed = taken.update(to, with_item(taken[to], worry as u64));
    assert(next == passed.update(m, counted(passed[m])));
    assert forall|k: int| 0 <= k < next.len() implies (#[trigger] next[k]).valid(next.len()) by {
        assert(agents[k].valid(agents.len()));
        if k == m {
            assert forall|i: int| 0 <= i < next[k].items.len() implies next[k].items[i] != 0 by {
                if i < a.items.len() - 1 {
                    assert(a.items.drop_first()[i] == a.items[i + 1]);
                }
            }
        }
    }
}

/// A turn of `k` inspections: the troop stays valid, the rules stay, the
/// agent whose turn it is counts `k` more, and no other count changes.
pub proof fn lemma_turn(agents: Seq<Agent>, m: int, k: nat, relief: Relief, common: nat)
    requires
        valid_troop(agents),
        0 <= m < agents.len(),
        k <= agents[m].items.len(),
        turn(agents, m, k, relief, common) is Ok,
    ensures
        ({
            let last = turn(agents, m, k, relief, common)->Ok_0;
            &&& valid_troop(last)
            &&& kept_rules(agents, last)
            &&& last[m].inspection_count == agents[m].inspection_count + k
            &&& last[m].items.len() >= agents[m].items.len() - k
            &&& forall|j: int|
                0 <= j < agents.len() && j != m ==> (#[trigger] last[j]).inspection_count
                    == agents[j].inspection_count
        }),
    decreases k,
{
    if k > 0 {
        lemma_inspect(agents, m, relief, common);
        let next = inspect(agents, m, relief, common)->Ok_0;
        lemma_turn(next, m, (k - 1) as nat, relief, common);
    }
}

/// The turns of the agents from `m` on: the troop stays valid, the rules
/// stay, and no inspection count gets smaller.
pub proof fn lemma_turns(agents: Seq<Agent>, m: int, left: nat, relief: Relief, common: nat)
    requires
        valid_troop(agents),
        0 <= m,
        m + left == agents.len(),
        turns(agents, m, left, relief, common) is Ok,
    ensures
        ({
            let last = turns(agents, m, left, relief, common)->Ok_0;
            &&& valid_troop(last)
            &&& kept_rules(agents, last)
            &&& counts_grew(agents, last)
        }),
    decreases left,
{
    if left > 0 {
        lemma_turn(agents, m, agents[m].items.len(), relief, common);
        let next = turn(agents, m, agents[m].items.len(), relief, common)->Ok_0;
        lemma_turns(next, m + 1, (left - 1) as nat, relief, common);
        let last = turns(agents, m, left, relief, common)->Ok_0;
        assert forall|k: int| 0 <= k < agents.len() implies agents[k].inspection_count <= (
        #[trigger] last[k]).inspection_count by {
            assert(next[k].inspection_count <= last[k].inspection_count);
        }
        assert forall|k: int| 0 <= k < agents.len() implies {
            &&& (#[trigger] last[k]).operation == agents[k].operation
            &&& last[k].test_modulus == agents[k].test_modulus
            &&& last[k].true_target == agents[k].true_target
            &&& last[k].false_target == agents[k].false_target
        } by {
            assert(next[k].operation == agents[k].operation);
        }
    }
}

/// Any number of rounds: the troop stays valid, the rules stay, and no
/// inspection count gets smaller.
pub proof fn lemma_rounds(agents: Seq<Agent>, rounds: nat, relief: Relief, common: nat)
    requires
        valid_troop(agents),
        rounds_from(agents, rounds, relief, common) is Ok,
    ensures
        ({
            let last = rounds_from(agents, rounds, relief, common)->Ok_0;
            &&& valid_troop(last)
            &&& kept_rules(agents, last)
            &&& counts_grew(agents, last)
        }),
    decreases rounds,
{
    if rounds > 0 {
        lemma_turns(agents, 0, agents.len(), relief, common);
        let next = round(agents, relief, common)->Ok_0;
        lemma_rounds(next, (rounds - 1) as nat, relief, common);
        let last = rounds_from(agents, rounds, relief, common)->Ok_0;
        assert forall|k: int| 0 <= k < agents.len() implies agents[k].inspection_count <= (
        #[trigger] last[k]).inspection_count by {
            assert(next[k].inspection_count <= last[k].inspection_count);
        }
        assert forall|k: int| 0 <= k < agents.len() implies {
            &&& (#[trigger] last[k]).operation == agents[k].operation
            &&& last[k].test_modulus == agents[k].test_modulus
            &&& last[k].true_target == agents[k].true_target
            &&& last[k].false_target == agents[k].false_target
        } by {
            assert(next[k].operation == agents[k].operation);
        }
    }
}

/// One round more is the rounds before it, followed by one round.
pub proof fn lemma_one_more_round(agents: Seq<Agent>, rounds: nat, relief: Relief, common: nat)
    ensures
        rounds_from(agents, rounds + 1, relief, common) == match rounds_from(
            agents,
            rounds,
            relief,
            common,
        ) {
            Ok(earlier) => round(earlier, relief, common),
            Err(e) => Err(e),
        },
    decreases rounds,
{
    reveal_with_fuel(rounds_from, 3);
    if rounds > 0 {
        match round(agents, relief, common) {
            Ok(next) => {
                lemma_one_more_round(next, (rounds - 1) as nat, relief, common);
            },
            Err(e) => {},
        }
    }
}

/// Inspection counts never decrease from one round to the next: if a
/// simulation of `rounds + 1` rounds ends well, so does the simulation of
/// `rounds` rounds, and after it no agent has inspected more items than
/// after the longer one.
pub proof fn lemma_counts_never_decrease(agents: Seq<Agent>, rounds: nat, relief: Relief)
    requires
        valid_troop(agents),
        simulation(agents, rounds + 1, relief) is Ok,
    ensures
        simulation(agents, rounds, relief) is Ok,
        counts_grew(
            simulation(agents, rounds, relief)->Ok_0,
            simulation(agents, rounds + 1, relief)->Ok_0,
        ),
        counts_grew(agents, simulation(agents, rounds, relief)->Ok_0),
{
    let common = match relief {
        Relief::Decay => 1nat,
        Relief::Stabilize => moduli_product(agents),
    };
    lemma_one_more_round(agents, rounds, relief, common);
    lemma_rounds(agents, rounds, relief, common);
    let earlier = rounds_from(agents, rounds, relief, common)->Ok_0;
    lemma_turns(earlier, 0, earlier.len(), relief, common);
}

/// Reducing a worry level modulo the product of all test moduli changes the
/// outcome of no agent's test.
pub proof fn lemma_stabilization_keeps_tests(agents: Seq<Agent>, k: int, worry: nat)
    requires
        0 <= k < agents.len(),
        forall|i: int| 0 <= i < agents.len() ==> (#[trigger] agents[i]).test_modulus > 0,
    ensures
        (worry % moduli_product(agents)) % agents[k].test_modulus == worry
            % agents[k].test_modulus,
    decreases agents.len(),
{
    let front = agents.drop_last();
    let p = moduli_product(front) as int;
    let q = agents.last().test_modulus as int;
    crate::day11::simulator::lemma_product_positive(front);
    assert(moduli_product(agents) == p * q);
    if k == agents.len() - 1 {
        lemma_mod_mod(worry as int, q, p);
        assert(p * q == q * p) by (nonlinear_arith);
    } else {
        lemma_mod_mod(worry as int, p, q);
        let reduced = (worry % moduli_product(agents)) as nat;
        lemma_stabilization_keeps_tests(front, k, reduced);
        lemma_stabilization_keeps_tests(front, k, worry);
        assert(front[k] == agents[k]);
    }
}

/// The worry level after the operation, of a worry level of any size.
pub open spec fn apply_to(op: MonkeyOp, worry: nat) -> nat {
    match op {
        MonkeyOp::Plus(x) => (worry + x) as nat,
        MonkeyOp::Times(x) => (worry * x) as nat,
        MonkeyOp::Square => worry * worry,
    }
}

/// An item that was stored reduced modulo the product of all test moduli
/// passes and fails every agent's test after any operation exactly as the
/// item that was not reduced does.
pub proof fn lemma_operations_keep_tests(agents: Seq<Agent>, k: int, op: MonkeyOp, worry: nat)
    requires
        0 <= k < agents.len(),
        forall|i: int| 0 <= i < agents.len() ==> (#[trigger] agents[i]).test_modulus > 0,
    ensures
        apply_to(op, worry % moduli_product(agents)) % agents[k].test_modulus == apply_to(
            op,
            worry,
        ) % agents[k].test_modulus,
{
    let m = agents[k].test_modulus as int;
    let reduced = (worry % moduli_product(agents)) as int;
    let w = worry as int;
    crate::day11::simulator::lemma_product_positive(agents);
    lemma_stabilization_keeps_tests(agents, k, worry);
    assert(reduced % m == w % m);
    match op {
        MonkeyOp::Plus(x) => {
            lemma_add_mod_noop(reduced, x as int, m);
            lemma_add_mod_noop(w, x as int, m);
        },
        MonkeyOp::Times(x) => {
            lemma_mul_mod_noop_general(reduced, x as int, m);
            lemma_mul_mod_noop_general(w, x as int, m);
        },
        MonkeyOp::Square => {
            lemma_mul_mod_noop_general(reduced, reduced, m);
            lemma_mul_mod_noop_general(w, w, m);
        },
    }
}

/// The worry levels with which the items of a queue arrive once an agent
/// with operation `op` has inspected and thrown them, in the order of the
/// queue. An item that arrives with worry level 0 is lost.
pub open spec fn arrivals(op: MonkeyOp, items: Seq<u64>, relief: Relief, common: nat) -> Seq<u64>
    decreases items.len(),
{
    if items.len() == 0 {
        Seq::empty()
    } else {
        let worry = thrown(op, items[0], relief, common);
        let rest = arrivals(op, items.drop_first(), relief, common);
        if worry == 0 {
            rest
        } else {
            seq![worry as u64] + rest
        }
    }
}

/// A turn of an agent that throws every item to the same other agent: the
/// first `k` items leave its queue and join the back of the receiver's, in
/// their order, and no other queue changes.
pub proof fn lemma_turn_to_one(
    agents: Seq<Agent>,
    m: int,
    to: int,
    k: nat,
    relief: Relief,
    common: nat,
)
    requires
        valid_troop(agents),
        0 <= m < agents.len(),
        to != m,
        agents[m].true_target == to,
        agents[m].false_target == to,
        k <= agents[m].items.len(),
        turn(agents, m, k, relief, common) is Ok,
    ensures
        ({
            let last = turn(agents, m, k, relief, common)->Ok_0;
            &&& last[m].items == agents[m].items.skip(k as int)
            &&& last[to].items == agents[to].items + arrivals(
                agents[m].operation,
                agents[m].items.take(k as int),
                relief,
                common,
            )
            &&& forall|j: int|
                0 <= j < agents.len() && j != m && j != to ==> (#[trigger] last[j]).items
                    == agents[j].items
        }),
    decreases k,
{
    let queue = agents[m].items;
    let op = agents[m].operation;
    if k == 0 {
        assert(queue.skip(0) =~= queue);
        assert(agents[to].items + arrivals(op, queue.take(0), relief, common)
            =~= agents[to].items);
    } else {
        lemma_inspect(agents, m, relief, common);
        let next = inspect(agents, m, relief, common)->Ok_0;
        lemma_turn_to_one(next, m, to, (k - 1) as nat, relief, common);
        let last = turn(agents, m, k, relief, common)->Ok_0;
        let worry = thrown(op, queue[0], relief, common);
        let rest = arrivals(op, queue.drop_first().take(k - 1), relief, common);
        assert(queue.drop_first().skip(k - 1) =~= queue.skip(k as int));
        assert(queue.take(k as int).drop_first() =~= queue.drop_first().take(k - 1));
        assert(queue.take(k as int)[0] == queue[0]);
        if worry != 0 {
            assert(agents[to].items.push(worry as u64) + rest =~= agents[to].items + (seq![
                worry as u64,
            ] + rest));
        }
    }
}

/// First in, first out within a round, on two agents that throw every item
/// to each other. After one round the first agent has inspected each item it
/// began with exactly once. The second has inspected the items it began
/// with and then, in the same round, those that arrived from the first. What
/// the second threw back waits in the first agent's queue for the next
/// round, in the order in which it was thrown.
pub proof fn lemma_two_agents_round(agents: Seq<Agent>, relief: Relief, common: nat)
    requires
        agents.len() == 2,
        valid_troop(agents),
        agents[0].true_target == 1,
        agents[0].false_target == 1,
        agents[1].true_target == 0,
        agents[1].false_target == 0,
        round(agents, relief, common) is Ok,
    ensures
        ({
            let last = round(agents, relief, common)->Ok_0;
            let from_first = arrivals(agents[0].operation, agents[0].items, relief, common);
            &&& last[0].inspection_count == agents[0].inspection_count + agents[0].items.len()
            &&& last[1].inspection_count == agents[1].inspection_count + agents[1].items.len()
                + from_first.len()
            &&& last[1].items == Seq::<u64>::empty()
            &&& last[0].items == arrivals(
                agents[1].operation,
                agents[1].items + from_first,
                relief,
                common,
            )
        }),
{
    reveal_with_fuel(turns, 3);
    let first = agents[0].items.len();
    lemma_turn(agents, 0, first, relief, common);
    lemma_turn_to_one(agents, 0, 1, first, relief, common);
    let mid = turn(agents, 0, first, relief, common)->Ok_0;
    assert(agents[0].items.take(first as int) =~= agents[0].items);
    assert(mid[0].items =~= Seq::<u64>::empty());
    let second = mid[1].items.len();
    lemma_turn(mid, 1, second, relief, common);
    lemma_turn_to_one(mid, 1, 0, second, relief, common);
    let last = turn(mid, 1, second, relief, common)->Ok_0;
    assert(mid[1].items.take(second as int) =~= mid[1].items);
    assert(last[1].items =~= Seq::<u64>::empty());
    assert(mid[0].items + arrivals(mid[1].operation, mid[1].items, relief, common) =~= arrivals(
        mid[1].operation,
        mid[1].items,
        relief,
        common,
    ));
}

} // verus!
