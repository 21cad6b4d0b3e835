//! The records of the simulation and the mathematical agents they stand for.

use vstd::prelude::*;

verus! {

/// How many monkeys the published puzzle has.
pub const NUM_MONKEYS: usize = 8;

/// How many worry levels one monkey can hold at a time.
pub const MAX_ITEMS: usize = 64;

/// What a monkey does to the worry level of an item it inspects.
#[derive(Debug, Clone, Copy, PartialEq, Eq)]
pub enum MonkeyOp {
    /// The worry level grows by a constant.
    Plus(u64),
    /// The worry level is multiplied by a constant.
    Times(u64),
    /// The worry level is multiplied by itself.
    Square,
}

/// One monkey. A slot of `items` that holds 0 is empty, so no held item has
/// worry level 0.
#[derive(Debug, Clone, Copy, PartialEq, Eq)]
pub struct Monkey {
    /// How many items the monkey has inspected.
    pub num_inspections: usize,
    /// The worry levels of the items it holds, the one that came first in
    /// the first slot.
    pub items: [u64; MAX_ITEMS],
    /// What an inspection does to a worry level.
    pub op: MonkeyOp,
    /// The monkey tests whether the worry level is divisible by this.
    pub modulus: u64,
    /// The monkey that gets the item if the test succeeds.
    pub if_true: usize,
    /// The monkey that gets the item if the test fails.
    pub if_false: usize,
}

/// The agent a monkey stands for: its items as a queue in arrival order.
#[verifier::ext_equal]
pub struct Agent {
    pub inspection_count: nat,
    pub items: Seq<u64>,
    pub operation: MonkeyOp,
    pub test_modulus: nat,
    pub true_target: nat,
    pub false_target: nat,
}

/// The index of the first empty slot at or after `from`, or the number of
/// slots if every slot from there on is taken.
pub open spec fn first_empty(slots: Seq<u64>, from: int) -> int
    decreases slots.len() - from,
{
    if 0 <= from < slots.len() && slots[from] != 0 {
        first_empty(slots, from + 1)
    } else {
        from
    }
}

/// The taken slots come first: behind the first empty slot all are empty.
pub open spec fn compact(slots: Seq<u64>) -> bool {
    forall|i: int| first_empty(slots, 0) <= i < slots.len() ==> slots[i] == 0
}

/// The slots hold exactly `items`, in this order, and nothing else.
pub open spec fn holds(slots: Seq<u64>, items: Seq<u64>) -> bool {
    &&& items.len() <= slots.len()
    &&& forall|i: int| 0 <= i < items.len() ==> slots[i] == items[i] && items[i] != 0
    &&& forall|i: int| items.len() <= i < slots.len() ==> slots[i] == 0
}

impl View for Monkey {
    type V = Agent;

    open spec fn view(&self) -> Agent {
        Agent {
            inspection_count: self.num_inspections as nat,
            items: self.items@.take(first_empty(self.items@, 0)),
            operation: self.op,
            test_modulus: self.modulus as nat,
            true_target: self.if_true as nat,
            false_target: self.if_false as nat,
        }
    }
}

impl Agent {
    /// An agent that can take part in a troop of `n`: it tests by a positive
    /// modulus, throws to agents of the troop, and holds at most `MAX_ITEMS`
    /// items, none of worry level 0.
    pub open spec fn valid(self, n: nat) -> bool {
        &&& self.test_modulus > 0
        &&& self.true_target < n
        &&& self.false_target < n
        &&& self.items.len() <= MAX_ITEMS
        &&& forall|i: int| 0 <= i < self.items.len() ==> self.items[i] != 0
    }
}

/// Every agent is a valid member of the troop.
pub open spec fn valid_troop(agents: Seq<Agent>) -> bool {
    forall|k: int| 0 <= k < agents.len() ==> (#[trigger] agents[k]).valid(agents.len())
}

/// The troop of agents that an array of monkeys stands for.
pub open spec fn troop(monkeys: Seq<Monkey>) -> Seq<Agent> {
    Seq::new(monkeys.len(), |i: int| monkeys[i]@)
}

/// Every monkey keeps its items compact and is a valid member of the troop.
pub open spec fn well_formed(monkeys: Seq<Monkey>) -> bool {
    forall|i: int|
        0 <= i < monkeys.len() ==> compact(#[trigger] monkeys[i].items@) && monkeys[i]@.valid(
            monkeys.len(),
        )
}

/// `first_empty` stays inside the slots, skips only taken slots and stops at
/// an empty one.
pub proof fn lemma_first_empty(slots: Seq<u64>, from: int)
    requires
        0 <= from <= slots.len(),
    ensures
        from <= first_empty(slots, from) <= slots.len(),
        forall|i: int| from <= i < first_empty(slots, from) ==> slots[i] != 0,
        first_empty(slots, from) < slots.len() ==> slots[first_empty(slots, from)] == 0,
    decreases slots.len() - from,
{
    if from < slots.len() && slots[from] != 0 {
        lemma_first_empty(slots, from + 1);
    }
}

/// A slot that is empty and has only taken slots between `from` and itself is
/// the first empty one.
pub proof fn lemma_first_empty_is(slots: Seq<u64>, from: int, k: int)
    requires
        0 <= from <= k <= slots.len(),
        forall|i: int| from <= i < k ==> slots[i] != 0,
        k < slots.len() ==> slots[k] == 0,
    ensures
        first_empty(slots, from) == k,
    decreases k - from,
{
    if from < k {
        lemma_first_empty_is(slots, from + 1, k);
    }
}

/// Slots that hold `items` are compact and are viewed as `items`.
pub proof fn lemma_holds_view(slots: Seq<u64>, items: Seq<u64>)
    requires
        holds(slots, items),
    ensures
        first_empty(slots, 0) == items.len(),
        compact(slots),
        slots.take(first_empty(slots, 0)) == items,
{
    lemma_first_empty_is(slots, 0, items.len() as int);
    assert(slots.take(items.len() as int) =~= items);
}

/// An empty store.
pub fn no_items() -> (items: [u64; MAX_ITEMS])
    ensures
        holds(items@, Seq::empty()),
{
    [0; MAX_ITEMS]
}

/// Puts `worry` into the first empty slot and says whether there was one.
/// A worry level of 0 leaves the slot empty.
pub fn insert(items: &mut [u64; MAX_ITEMS], worry: u64) -> (stored: bool)
    ensures
        stored == (first_empty(old(items)@, 0) < MAX_ITEMS),
        stored ==> final(items)@ == old(items)@.update(first_empty(old(items)@, 0), worry),
        !stored ==> final(items)@ == old(items)@,
{
    let mut t: usize = 0;
    while t < MAX_ITEMS
        invariant
            t <= MAX_ITEMS,
            *items == *old(items),
            first_empty(items@, 0) == first_empty(items@, t as int),
        decreases MAX_ITEMS - t,
    {
        if items[t] == 0 {
            items[t] = worry;
            return true;
        }
        t += 1;
    }
    false
}

/// Whether the taken slots come first.
pub fn is_compact(items: &[u64; MAX_ITEMS]) -> (ok: bool)
    ensures
        ok == compact(items@),
{
    let mut k: usize = 0;
    while k < MAX_ITEMS && items[k] != 0
        invariant
            k <= MAX_ITEMS,
            first_empty(items@, 0) == first_empty(items@, k as int),
        decreases MAX_ITEMS - k,
    {
        k += 1;
    }
    while k < MAX_ITEMS
        invariant
            first_empty(items@, 0) <= k <= MAX_ITEMS,
            forall|i: int| first_empty(items@, 0) <= i < k ==> items@[i] == 0,
        decreases MAX_ITEMS - k,
    {
        if items[k] != 0 {
            return false;
        }
        k += 1;
    }
    true
}

/// Whether the monkeys can be put through rounds: their items are compact,
/// their moduli positive, their receivers inside the troop.
pub fn is_well_formed<const N: usize>(monkeys: &[Monkey; N]) -> (ok: bool)
    ensures
        ok == well_formed(monkeys@),
{
    let mut k: usize = 0;
    while k < N
        invariant
            k <= N,
            forall|i: int|
                0 <= i < k ==> compact(#[trigger] monkeys@[i].items@) && monkeys@[i]@.valid(
                    N as nat,
                ),
        decreases N - k,
    {
        proof {
            lemma_first_empty(monkeys@[k as int].items@, 0);
        }
        if monkeys[k].modulus == 0 || monkeys[k].if_true >= N || monkeys[k].if_false >= N
            || !is_compact(&monkeys[k].items) {
            assert(!(compact(monkeys@[k as int].items@) && monkeys@[k as int]@.valid(N as nat)));
            return false;
        }
        k += 1;
    }
    true
}

} // verus!
