use aoc2022::day11::business::business_level;
use aoc2022::day11::model::{insert, is_compact, is_well_formed, no_items};
use aoc2022::day11::simulator::{common_modulus, run_round, take_turn};
use aoc2022::day11::{run, simulate, Monkey, MonkeyOp, Relief, SimError, MAX_ITEMS};

fn monkey(items: &[u64], op: MonkeyOp, modulus: u64, if_true: usize, if_false: usize) -> Monkey {
    let mut slots = [0u64; MAX_ITEMS];
    for (k, w) in items.iter().enumerate() {
        slots[k] = *w;
    }
    Monkey { num_inspections: 0, items: slots, op, modulus, if_true, if_false }
}

fn counted(count: usize) -> Monkey {
    let mut m = monkey(&[], MonkeyOp::Square, 1, 0, 0);
    m.num_inspections = count;
    m
}

fn held(m: &Monkey) -> Vec<u64> {
    m.items.iter().copied().take_while(|w| *w != 0).collect()
}

fn reference_troop() -> [Monkey; 4] {
    [
        monkey(&[79, 98], MonkeyOp::Times(19), 23, 2, 3),
        monkey(&[54, 65, 75, 74], MonkeyOp::Plus(6), 19, 2, 0),
        monkey(&[79, 60, 97], MonkeyOp::Square, 13, 1, 3),
        monkey(&[74], MonkeyOp::Plus(3), 17, 0, 1),
    ]
}

fn level_by_sorting(counts: &[usize]) -> u64 {
    let mut sorted: Vec<u64> = counts.iter().map(|c| *c as u64).collect();
    sorted.sort_by(|a, b| b.cmp(a));
    if sorted.len() < 2 {
        0
    } else {
        sorted[0] * sorted[1]
    }
}

fn level_of<const N: usize>(counts: [usize; N]) -> Result<u64, SimError> {
    business_level(&counts.map(counted))
}

#[test]
fn two_agents_pass_items_first_in_first_out() {
    let mut troop = [
        monkey(&[10, 20, 30], MonkeyOp::Plus(1), 7, 1, 1),
        monkey(&[5], MonkeyOp::Times(2), 7, 0, 0),
    ];
    assert_eq!(simulate(&mut troop, 1, Relief::Stabilize), Ok(()));
    assert_eq!(troop[0].num_inspections, 3);
    assert_eq!(troop[1].num_inspections, 4);
    assert_eq!(held(&troop[1]), Vec::<u64>::new());
    assert_eq!(held(&troop[0]), vec![10, 22, 42, 13]);
    assert_eq!(simulate(&mut troop, 1, Relief::Stabilize), Ok(()));
    assert_eq!(troop[0].num_inspections, 7);
    assert_eq!(troop[1].num_inspections, 8);
    assert_eq!(held(&troop[0]), vec![22, 46, 37, 28]);
}

#[test]
fn a_turn_handles_only_what_is_held_when_it_begins() {
    let mut troop = [
        monkey(&[3, 4], MonkeyOp::Plus(1), 2, 0, 1),
        monkey(&[9], MonkeyOp::Plus(1), 2, 0, 0),
    ];
    assert_eq!(take_turn(&mut troop, 0, Relief::Stabilize, 1000), Ok(()));
    assert_eq!(troop[0].num_inspections, 2);
    assert_eq!(held(&troop[0]), vec![4]);
    assert_eq!(held(&troop[1]), vec![9, 5]);
    assert_eq!(troop[1].num_inspections, 0);
    assert_eq!(take_turn(&mut troop, 1, Relief::Stabilize, 1000), Ok(()));
    assert_eq!(troop[1].num_inspections, 2);
    assert_eq!(held(&troop[0]), vec![4, 10, 6]);
    assert_eq!(held(&troop[1]), Vec::<u64>::new());
}

#[test]
fn a_full_monkey_can_throw_to_itself() {
    let full: Vec<u64> = (1..=MAX_ITEMS as u64).collect();
    let mut troop = [monkey(&full, MonkeyOp::Plus(1), 1, 0, 0)];
    assert_eq!(run_round(&mut troop, Relief::Stabilize, 1 << 40), Ok(()));
    let expected: Vec<u64> = (2..=MAX_ITEMS as u64 + 1).collect();
    assert_eq!(held(&troop[0]), expected);
    assert_eq!(troop[0].num_inspections, MAX_ITEMS);
    assert!(is_well_formed(&troop));
}

#[test]
fn an_item_of_worry_level_zero_is_lost() {
    let mut troop = [
        monkey(&[1, 5, 2], MonkeyOp::Plus(0), 3, 1, 1),
        monkey(&[], MonkeyOp::Plus(0), 3, 0, 0),
    ];
    assert_eq!(take_turn(&mut troop, 0, Relief::Decay, 1), Ok(()));
    assert_eq!(held(&troop[1]), vec![1]);
    assert_eq!(troop[0].num_inspections, 3);
    let mut troop = [monkey(&[6, 7], MonkeyOp::Times(1), 2, 0, 0), monkey(&[], MonkeyOp::Square, 3, 1, 1)];
    assert_eq!(simulate(&mut troop, 1, Relief::Stabilize), Ok(()));
    assert_eq!(held(&troop[0]), vec![1]);
}

#[test]
fn reduction_keeps_every_test() {
    let moduli = [23u64, 19, 13, 17, 2, 1];
    let product: u64 = moduli.iter().product();
    assert_eq!(product, 193154);
    let mut worry: u64 = 1;
    for _ in 0..200 {
        worry = worry.wrapping_mul(6364136223846793005).wrapping_add(1442695040888963407);
        for m in moduli {
            assert_eq!((worry % product) % m, worry % m);
        }
    }
    let troop = moduli.map(|m| monkey(&[], MonkeyOp::Square, m, 0, 0));
    assert_eq!(common_modulus(&troop), Some(193154));
    let wide = [monkey(&[], MonkeyOp::Square, 1 << 32, 0, 0); 2];
    assert_eq!(common_modulus(&wide), None);
    assert_eq!(run(&wide, 0, Relief::Stabilize), Err(SimError::Overflow));
    assert_eq!(run(&wide, 0, Relief::Decay), Ok(0));
    let fits = [monkey(&[], MonkeyOp::Square, u64::MAX, 0, 0)];
    assert_eq!(common_modulus(&fits), Some(u64::MAX));
}

#[test]
fn inspection_counts_never_decrease() {
    for relief in [Relief::Decay, Relief::Stabilize] {
        let mut troop = reference_troop();
        let mut before = [0usize; 4];
        for _ in 0..50 {
            assert_eq!(simulate(&mut troop, 1, relief), Ok(()));
            for k in 0..4 {
                assert!(troop[k].num_inspections >= before[k]);
                before[k] = troop[k].num_inspections;
            }
        }
    }
}

#[test]
fn rounds_add_up() {
    let mut once = reference_troop();
    assert_eq!(simulate(&mut once, 20, Relief::Decay), Ok(()));
    let mut stepwise = reference_troop();
    for _ in 0..20 {
        assert_eq!(run_round(&mut stepwise, Relief::Decay, 1), Ok(()));
    }
    assert_eq!(once, stepwise);
    let counts: Vec<usize> = once.iter().map(|m| m.num_inspections).collect();
    assert_eq!(counts, vec![101, 95, 7, 105]);
}

#[test]
fn business_level_is_the_product_of_the_two_largest() {
    assert_eq!(level_of([101, 95, 7, 105]), Ok(10605));
    assert_eq!(level_of([52166, 47830, 1938, 52013]), Ok(2713310158));
    assert_eq!(level_of([5, 5, 5, 5]), Ok(25));
    assert_eq!(level_of([9, 1, 9]), Ok(81));
    assert_eq!(level_of([1, 2, 3]), Ok(6));
    assert_eq!(level_of([3, 2, 1]), Ok(6));
    assert_eq!(level_of([0, 0]), Ok(0));
    assert_eq!(level_of([7, 0]), Ok(0));
    assert_eq!(level_of([7]), Ok(0));
    assert_eq!(level_of([]), Ok(0));
    let mut seed: u64 = 7;
    for _ in 0..100 {
        let mut counts = [0usize; 6];
        for c in counts.iter_mut() {
            seed = seed.wrapping_mul(6364136223846793005).wrapping_add(1442695040888963407);
            *c = ((seed >> 33) % 10) as usize;
        }
        assert_eq!(level_of(counts), Ok(level_by_sorting(&counts)));
    }
}

#[test]
fn numbers_that_do_not_fit_are_overflow_errors() {
    assert_eq!(level_of([usize::MAX, usize::MAX]), Err(SimError::Overflow));
    assert_eq!(level_of([usize::MAX, 1]), Ok(usize::MAX as u64));
    let mut troop = [monkey(&[4], MonkeyOp::Plus(1), 2, 0, 0)];
    troop[0].num_inspections = usize::MAX;
    assert_eq!(simulate(&mut troop, 1, Relief::Stabilize), Err(SimError::Overflow));
    let troop = [monkey(&[3], MonkeyOp::Times(u64::MAX), 5, 0, 0)];
    assert_eq!(run(&troop, 1, Relief::Decay), Ok(0));
    let troop = [monkey(&[4], MonkeyOp::Times(u64::MAX), 5, 0, 0)];
    assert_eq!(run(&troop, 1, Relief::Decay), Err(SimError::Overflow));
    let troop = [monkey(&[3], MonkeyOp::Times(u64::MAX), 5, 0, 0), monkey(&[], MonkeyOp::Square, 5, 0, 0)];
    assert_eq!(run(&troop, 1, Relief::Stabilize), Ok(0));
    let troop = [monkey(&[u64::MAX], MonkeyOp::Plus(u64::MAX), 5, 0, 0)];
    assert_eq!(run(&troop, 3, Relief::Decay), Ok(0));
}

#[test]
fn item_store_takes_the_first_empty_slot() {
    let mut items = no_items();
    assert!(is_compact(&items));
    assert!(insert(&mut items, 7));
    assert!(insert(&mut items, 0));
    assert!(insert(&mut items, 9));
    assert_eq!(&items[..3], &[7, 9, 0]);
    items[5] = 1;
    assert!(!is_compact(&items));
    assert!(insert(&mut items, 4));
    assert_eq!(&items[..6], &[7, 9, 4, 0, 0, 1]);
    let mut full = [1u64; MAX_ITEMS];
    assert!(is_compact(&full));
    assert!(!insert(&mut full, 2));
    assert!(!insert(&mut full, 0));
    assert_eq!(full, [1u64; MAX_ITEMS]);
}

#[test]
fn well_formed_monkeys() {
    assert!(is_well_formed(&reference_troop()));
    assert!(is_well_formed::<0>(&[]));
    let mut troop = reference_troop();
    troop[2].modulus = 0;
    assert!(!is_well_formed(&troop));
    let mut troop = reference_troop();
    troop[1].if_true = 4;
    assert!(!is_well_formed(&troop));
    let mut troop = reference_troop();
    troop[3].if_false = 4;
    assert!(!is_well_formed(&troop));
    let mut troop = reference_troop();
    troop[0].items[10] = 5;
    assert!(!is_well_formed(&troop));
    let mut troop = reference_troop();
    troop[0].if_true = 0;
    assert!(is_well_formed(&troop));
}
