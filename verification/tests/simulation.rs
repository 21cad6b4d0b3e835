use aoc2022::day11::model::{Monkey, MonkeyOp, MAX_ITEMS};
use aoc2022::day11::rounds::{Relief, SimError};
use aoc2022::day11::simulator::{part1, part2, run, simulate, simulated};

fn monkey(items: &[u64], op: MonkeyOp, modulus: u64, if_true: usize, if_false: usize) -> Monkey {
    let mut slots = [0u64; MAX_ITEMS];
    for (k, w) in items.iter().enumerate() {
        slots[k] = *w;
    }
    Monkey { num_inspections: 0, items: slots, op, modulus, if_true, if_false }
}

fn reference_troop() -> [Monkey; 4] {
    [
        monkey(&[79, 98], MonkeyOp::Times(19), 23, 2, 3),
        monkey(&[54, 65, 75, 74], MonkeyOp::Plus(6), 19, 2, 0),
        monkey(&[79, 60, 97], MonkeyOp::Square, 13, 1, 3),
        monkey(&[74], MonkeyOp::Plus(3), 17, 0, 1),
    ]
}

fn held(m: &Monkey) -> Vec<u64> {
    m.items.iter().copied().take_while(|w| *w != 0).collect()
}

#[test]
fn reference_business_level_with_decay() {
    assert_eq!(part1(&reference_troop()), Ok(10605));
}

#[test]
fn reference_business_level_with_stabilization() {
    assert_eq!(part2(&reference_troop()), Ok(2713310158));
}

#[test]
fn reference_first_round_with_decay() {
    let mut troop = reference_troop();
    assert_eq!(simulate(&mut troop, 1, Relief::Decay), Ok(()));
    assert_eq!(held(&troop[0]), vec![20, 23, 27, 26]);
    assert_eq!(held(&troop[1]), vec![2080, 25, 167, 207, 401, 1046]);
    assert_eq!(held(&troop[2]), Vec::<u64>::new());
    assert_eq!(held(&troop[3]), Vec::<u64>::new());
    assert_eq!(troop[0].num_inspections, 2);
    assert_eq!(troop[1].num_inspections, 4);
    assert_eq!(troop[2].num_inspections, 3);
    assert_eq!(troop[3].num_inspections, 5);
}

#[test]
fn reference_counts_after_twenty_rounds_with_stabilization() {
    let mut troop = reference_troop();
    assert_eq!(simulate(&mut troop, 20, Relief::Stabilize), Ok(()));
    let counts: Vec<usize> = troop.iter().map(|m| m.num_inspections).collect();
    assert_eq!(counts, vec![99, 97, 8, 103]);
}

#[test]
fn run_leaves_the_parsed_troop_untouched() {
    let troop = reference_troop();
    assert_eq!(run(&troop, 20, Relief::Decay), Ok(10605));
    assert_eq!(troop, reference_troop());
    assert_eq!(run(&troop, 20, Relief::Decay), Ok(10605));
}

#[test]
fn full_receiver_is_a_capacity_error() {
    let full: Vec<u64> = (1..=MAX_ITEMS as u64).collect();
    let mut troop = [
        monkey(&[5], MonkeyOp::Plus(1), 2, 1, 1),
        monkey(&full, MonkeyOp::Plus(1), 2, 0, 0),
    ];
    let before = troop;
    assert_eq!(simulate(&mut troop, 1, Relief::Stabilize), Err(SimError::Capacity));
    assert_eq!(troop, before);
    assert_eq!(simulated(&troop, 1, Relief::Stabilize), Err(SimError::Capacity));
}

#[test]
fn simulated_gives_the_monkeys_after_the_last_round() {
    let troop = reference_troop();
    let last = simulated(&troop, 20, Relief::Decay).unwrap();
    let counts: Vec<usize> = last.iter().map(|m| m.num_inspections).collect();
    assert_eq!(counts, vec![101, 95, 7, 105]);
    assert_eq!(held(&last[0]), vec![10, 12, 14, 26, 34]);
    assert_eq!(held(&last[1]), vec![245, 93, 53, 199, 115]);
    assert_eq!(troop, reference_troop());
    assert_eq!(simulated(&troop, 0, Relief::Stabilize), Ok(troop));
}

#[test]
fn squaring_out_of_range_is_an_overflow_error() {
    let troop = [
        monkey(&[u64::MAX], MonkeyOp::Square, 7, 1, 1),
        monkey(&[], MonkeyOp::Plus(1), 2, 0, 0),
    ];
    assert_eq!(run(&troop, 1, Relief::Decay), Err(SimError::Overflow));
}
