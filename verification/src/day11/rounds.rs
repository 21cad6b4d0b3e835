//! What a round is: the rules by which agents inspect and throw their items,
//! stated over queues of worry levels.

use crate::day11::model::{Agent, MonkeyOp, MAX_ITEMS};
use vstd::prelude::*;

verus! {

/// How worry levels are kept from growing without bound.
#[derive(Debug, Clone, Copy, PartialEq, Eq)]
pub enum Relief {
    /// The worry level is divided by three after each inspection.
    Decay,
    /// The worry level is reduced modulo the product of all test moduli
    /// before it is stored.
    Stabilize,
}

/// Why a simulation stopped before its last round.
#[derive(Debug, Clone, Copy, PartialEq, Eq)]
pub enum SimError {
    /// An item was thrown to an agent that already holds `MAX_ITEMS` items.
    Capacity,
    /// A worry level, the product of the test moduli, an inspection count or
    /// the business level does not fit its integer type.
    Overflow,
}

/// The worry level after the operation.
pub open spec fn apply(op: MonkeyOp, worry: u64) -> nat {
    match op {
        MonkeyOp::Plus(x) => (worry + x) as nat,
        MonkeyOp::Times(x) => (worry * x) as nat,
        MonkeyOp::Square => (worry * worry) as nat,
    }
}

/// The worry level that decides where the item goes.
pub open spec fn tested(op: MonkeyOp, worry: u64, relief: Relief) -> nat {
    match relief {
        Relief::Decay => apply(op, worry) / 3,
        Relief::Stabilize => apply(op, worry),
    }
}

/// The worry level with which the item arrives. `common` is the product of
/// all test moduli.
pub open spec fn thrown(op: MonkeyOp, worry: u64, relief: Relief, common: nat) -> nat {
    match relief {
        Relief::Decay => apply(op, worry) / 3,
        Relief::Stabilize => apply(op, worry) % common,
    }
}

/// The product of the test moduli of all agents.
pub open spec fn moduli_product(agents: Seq<Agent>) -> nat
    decreases agents.len(),
{
    if agents.len() == 0 {
        1
    } else {
        moduli_product(agents.drop_last()) * agents.last().test_modulus
    }
}

/// The agent without the item at the front of its queue.
pub open spec fn without_front(a: Agent) -> Agent {
    Agent { items: a.items.drop_first(), ..a }
}

/// The agent with one more item at the back of its queue. An item of worry
/// level 0 cannot be told from an empty slot and is lost.
pub open spec fn with_item(a: Agent, worry: u64) -> Agent {
    if worry == 0 {
        a
    } else {
        Agent { items: a.items.push(worry), ..a }
    }
}

/// The agent after one more inspection.
pub open spec fn counted(a: Agent) -> Agent {
    Agent { inspection_count: a.inspection_count + 1, ..a }
}

/// The agent to which `a` throws the item at the front of its queue.
pub open spec fn receiver(a: Agent, relief: Relief) -> int {
    if tested(a.operation, a.items[0], relief) % a.test_modulus == 0 {
        a.true_target as int
    } else {
        a.false_target as int
    }
}

/// Agent `m` inspects the item at the front of its queue: the item leaves the
/// queue, its worry level is changed by the agent's operation and the relief,
/// the test picks the receiver, the item joins the back of the receiver's
/// queue, and the inspection is counted.
pub open spec fn inspect(agents: Seq<Agent>, m: int, relief: Relief, common: nat) -> Result<
    Seq<Agent>,
    SimError,
> {
    let a = agents[m];
    let target = receiver(a, relief);
    let arriving = thrown(a.operation, a.items[0], relief, common);
    let taken = agents.update(m, without_front(a));
    if arriving > u64::MAX {
        Err(SimError::Overflow)
    } else if taken[target].items.len() >= MAX_ITEMS {
        Err(SimError::Capacity)
    } else if a.inspection_count >= usize::MAX {
        Err(SimError::Overflow)
    } else {
        let passed = taken.update(target, with_item(taken[target], arriving as u64));
        Ok(passed.update(m, counted(passed[m])))
    }
}

/// Agent `m` inspects the first `k` items of its queue, one after the other.
pub open spec fn turn(agents: Seq<Agent>, m: int, k: nat, relief: Relief, common: nat) -> Result<
    Seq<Agent>,
    SimError,
>
    decreases k,
{
    if k == 0 {
        Ok(agents)
    } else {
        match inspect(agents, m, relief, common) {
            Ok(next) => turn(next, m, (k - 1) as nat, relief, common),
            Err(e) => Err(e),
        }
    }
}

/// `left` agents take their turns in increasing order, beginning with agent
/// `m`. In its turn an agent inspects the items it holds when the turn
/// begins, so an item thrown to a later agent is inspected again in the same
/// round, and one thrown to an earlier agent or to the thrower waits for the
/// next round.
pub open spec fn turns(
    agents: Seq<Agent>,
    m: int,
    left: nat,
    relief: Relief,
    common: nat,
) -> Result<Seq<Agent>, SimError>
    decreases left,
{
    if left == 0 {
        Ok(agents)
    } else {
        match turn(agents, m, agents[m].items.len(), relief, common) {
            Ok(next) => turns(next, m + 1, (left - 1) as nat, relief, common),
            Err(e) => Err(e),
        }
    }
}

/// One round: every agent takes its turn, agent 0 first.
pub open spec fn round(agents: Seq<Agent>, relief: Relief, common: nat) -> Result<
    Seq<Agent>,
    SimError,
> {
    turns(agents, 0, agents.len(), relief, common)
}

/// `rounds` rounds, one after the other.
pub open spec fn rounds_from(
    agents: Seq<Agent>,
    rounds: nat,
    relief: Relief,
    common: nat,
) -> Result<Seq<Agent>, SimError>
    decreases rounds,
{
    if rounds == 0 {
        Ok(agents)
    } else {
        match round(agents, relief, common) {
            Ok(next) => rounds_from(next, (rounds - 1) as nat, relief, common),
            Err(e) => Err(e),
        }
    }
}

/// The whole simulation. With `Relief::Stabilize` the product of the test
/// moduli is taken once, before the first round, and has to fit in 64 bits;
/// `Relief::Decay` makes no use of it.
pub open spec fn simulation(agents: Seq<Agent>, rounds: nat, relief: Relief) -> Result<
    Seq<Agent>,
    SimError,
> {
    match relief {
        Relief::Decay => rounds_from(agents, rounds, relief, 1),
        Relief::Stabilize => if moduli_product(agents) > u64::MAX {
            Err(SimError::Overflow)
        } else {
            rounds_from(agents, rounds, relief, moduli_product(agents))
        },
    }
}

/// How often each agent has inspected an item.
pub open spec fn inspection_counts(agents: Seq<Agent>) -> Seq<nat> {
    Seq::new(agents.len(), |k: int| agents[k].inspection_count)
}

/// The order in which the larger number comes first.
pub open spec fn descending() -> spec_fn(nat, nat) -> bool {
    |a: nat, b: nat| a >= b
}

/// The business level: sort the inspection counts in descending order and
/// multiply the first two. A troop of fewer than two agents has level 0.
pub open spec fn monkey_business(counts: Seq<nat>) -> nat {
    if counts.len() < 2 {
        0
    } else {
        counts.sort_by(descending())[0] * counts.sort_by(descending())[1]
    }
}

/// What a run reports: the business level after the last round.
pub open spec fn outcome(agents: Seq<Agent>, rounds: nat, relief: Relief) -> Result<u64, SimError> {
    match simulation(agents, rounds, relief) {
        Ok(last) => if monkey_business(inspection_counts(last)) > u64::MAX {
            Err(SimError::Overflow)
        } else {
            Ok(monkey_business(inspection_counts(last)) as u64)
        },
        Err(e) => Err(e),
    }
}

} // verus!
