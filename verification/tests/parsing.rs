use aoc2022::day11::decimal::number;
use aoc2022::day11::parser::{expect, find_block_end, read_operation, skip};
use aoc2022::day11::{
    parse, parse_monkey, part1, part2, Monkey, MonkeyOp, ParseError, MAX_ITEMS, NUM_MONKEYS,
};

const REFERENCE: &str = "Monkey 0:
  Starting items: 79, 98
  Operation: new = old * 19
  Test: divisible by 23
    If true: throw to monkey 2
    If false: throw to monkey 3

Monkey 1:
  Starting items: 54, 65, 75, 74
  Operation: new = old + 6
  Test: divisible by 19
    If true: throw to monkey 2
    If false: throw to monkey 0

Monkey 2:
  Starting items: 79, 60, 97
  Operation: new = old * old
  Test: divisible by 13
    If true: throw to monkey 1
    If false: throw to monkey 3

Monkey 3:
  Starting items: 74
  Operation: new = old + 3
  Test: divisible by 17
    If true: throw to monkey 0
    If false: throw to monkey 1
";

fn blank() -> Monkey {
    Monkey {
        num_inspections: 0,
        items: [0; MAX_ITEMS],
        op: MonkeyOp::Square,
        modulus: 0,
        if_true: 0,
        if_false: 0,
    }
}

fn monkey(items: &[u64], op: MonkeyOp, modulus: u64, if_true: usize, if_false: usize) -> Monkey {
    let mut slots = [0u64; MAX_ITEMS];
    for (k, w) in items.iter().enumerate() {
        slots[k] = *w;
    }
    Monkey { num_inspections: 0, items: slots, op, modulus, if_true, if_false }
}

fn render_op(op: MonkeyOp) -> String {
    match op {
        MonkeyOp::Plus(x) => format!("+ {}", x),
        MonkeyOp::Times(x) => format!("* {}", x),
        MonkeyOp::Square => "* old".to_string(),
    }
}

fn render(troop: &[Monkey]) -> String {
    let mut text = String::new();
    for (k, m) in troop.iter().enumerate() {
        if k > 0 {
            text.push('\n');
        }
        let items: Vec<String> =
            m.items.iter().take_while(|w| **w != 0).map(|w| w.to_string()).collect();
        text.push_str(&format!("Monkey {}:\n", k));
        text.push_str(&format!("  Starting items: {}\n", items.join(", ")));
        text.push_str(&format!("  Operation: new = old {}\n", render_op(m.op)));
        text.push_str(&format!("  Test: divisible by {}\n", m.modulus));
        text.push_str(&format!("    If true: throw to monkey {}\n", m.if_true));
        text.push_str(&format!("    If false: throw to monkey {}\n", m.if_false));
    }
    text
}

fn block_with_items(count: usize) -> String {
    let items: Vec<String> = (1..=count).map(|w| w.to_string()).collect();
    format!(
        "Monkey 0:\n  Starting items: {}\n  Operation: new = old + 1\n  Test: divisible by 2\n    If true: throw to monkey 0\n    If false: throw to monkey 0\n",
        items.join(", ")
    )
}

#[test]
fn reference_text_parses_to_the_reference_troop() {
    let mut troop = [blank(); 4];
    assert_eq!(parse(REFERENCE.as_bytes(), &mut troop), Ok(()));
    assert_eq!(troop[0], monkey(&[79, 98], MonkeyOp::Times(19), 23, 2, 3));
    assert_eq!(troop[1], monkey(&[54, 65, 75, 74], MonkeyOp::Plus(6), 19, 2, 0));
    assert_eq!(troop[2], monkey(&[79, 60, 97], MonkeyOp::Square, 13, 1, 3));
    assert_eq!(troop[3], monkey(&[74], MonkeyOp::Plus(3), 17, 0, 1));
}

#[test]
fn reference_text_gives_the_published_business_levels() {
    let mut troop = [blank(); 4];
    assert_eq!(parse(REFERENCE.as_bytes(), &mut troop), Ok(()));
    assert_eq!(part1(&troop), Ok(10605));
    assert_eq!(part2(&troop), Ok(2713310158));
    assert_eq!(part1(&troop), Ok(10605));
}

#[test]
fn rendered_troop_parses_back() {
    let troop = [
        monkey(&[7, 8, 9], MonkeyOp::Plus(4), 5, 1, 2),
        monkey(&[], MonkeyOp::Times(18446744073709551615), 18446744073709551615, 0, 0),
        monkey(&[18446744073709551615, 1], MonkeyOp::Square, 1, 2, 1),
    ];
    let text = render(&troop);
    let mut parsed = [blank(); 3];
    assert_eq!(parse(text.as_bytes(), &mut parsed), Ok(()));
    assert_eq!(parsed, troop);
}

#[test]
fn rendered_full_troop_parses_back() {
    let full: Vec<u64> = (1..=MAX_ITEMS as u64).collect();
    let mut troop = [monkey(&full, MonkeyOp::Plus(0), 3, 7, 0); NUM_MONKEYS];
    troop[3] = monkey(&[5], MonkeyOp::Square, 11, 3, 3);
    let text = render(&troop);
    let mut parsed = [blank(); NUM_MONKEYS];
    assert_eq!(parse(text.as_bytes(), &mut parsed), Ok(()));
    assert_eq!(parsed, troop);
}

#[test]
fn exactly_max_items_parse() {
    let mut m = blank();
    assert_eq!(parse_monkey(block_with_items(MAX_ITEMS).as_bytes(), &mut m), Ok(()));
    let expected: Vec<u64> = (1..=MAX_ITEMS as u64).collect();
    assert_eq!(m.items.to_vec(), expected);
}

#[test]
fn one_item_more_than_max_is_a_capacity_error() {
    let mut m = blank();
    assert_eq!(
        parse_monkey(block_with_items(MAX_ITEMS + 1).as_bytes(), &mut m),
        Err(ParseError::Capacity)
    );
    assert_eq!(m, blank());
    let mut troop = [blank(); 1];
    assert_eq!(
        parse(block_with_items(MAX_ITEMS + 1).as_bytes(), &mut troop),
        Err(ParseError::Capacity)
    );
}

#[test]
fn blanks_are_free_between_tokens() {
    let text = "\n  Monkey7 :Starting items:3 ,4\n,\n5 Operation: new = old*old\nTest: divisible by\n\t"
        .replace('\t', " 9 If true: throw to monkey 0 If false: throw to monkey   0  \n ");
    let mut m = blank();
    assert_eq!(parse_monkey(text.as_bytes(), &mut m), Ok(()));
    assert_eq!(m, monkey(&[3, 4, 5], MonkeyOp::Square, 9, 0, 0));
}

#[test]
fn empty_item_list_parses() {
    let text = "Monkey 0: Starting items: Operation: new = old + 2 Test: divisible by 3 If true: throw to monkey 0 If false: throw to monkey 0";
    let mut m = blank();
    assert_eq!(parse_monkey(text.as_bytes(), &mut m), Ok(()));
    assert_eq!(m, monkey(&[], MonkeyOp::Plus(2), 3, 0, 0));
}

fn malformed(text: &str) {
    let mut m = blank();
    assert_eq!(parse_monkey(text.as_bytes(), &mut m), Err(ParseError::Malformed), "{}", text);
    assert_eq!(m, blank());
}

#[test]
fn malformed_blocks_are_rejected() {
    let good = "Monkey 0: Starting items: 1 Operation: new = old + 2 Test: divisible by 3 If true: throw to monkey 0 If false: throw to monkey 0";
    let mut m = blank();
    assert_eq!(parse_monkey(good.as_bytes(), &mut m), Ok(()));
    malformed("");
    malformed(&good.replace("Monkey", "monkey"));
    malformed(&good.replace("Monkey 0", "Monkey"));
    malformed(&good.replace("0:", "0"));
    malformed(&good.replace("Starting items:", "Starting  items:"));
    malformed(&good.replace("items: 1", "items: 1,"));
    malformed(&good.replace("items: 1", "items: 1 2"));
    malformed(&good.replace("items: 1", "items: 0"));
    malformed(&good.replace("items: 1", "items: 18446744073709551616"));
    malformed(&good.replace("old + 2", "old - 2"));
    malformed(&good.replace("old + 2", "old + old"));
    malformed(&good.replace("old + 2", "old * new"));
    malformed(&good.replace("old + 2", "old +"));
    malformed(&good.replace("by 3", "by three"));
    malformed(&good.replace("If true", "If True"));
    malformed(&good.replace("If false: throw to monkey 0", "If false: throw to monkey"));
    malformed(&format!("{} x", good));
    malformed(&good.replace(' ', "\t"));
}

#[test]
fn numbers_out_of_range_for_the_troop_are_rejected() {
    let good = "Monkey 0: Starting items: 1 Operation: new = old + 2 Test: divisible by 3 If true: throw to monkey 0 If false: throw to monkey 0";
    let mut troop = [blank(); 1];
    assert_eq!(parse(good.as_bytes(), &mut troop), Ok(()));
    for bad in [
        good.replace("by 3", "by 0"),
        good.replace("true: throw to monkey 0", "true: throw to monkey 1"),
        good.replace("false: throw to monkey 0", "false: throw to monkey 1"),
        good.replace("false: throw to monkey 0", "false: throw to monkey 99999999999999999999"),
    ] {
        let mut troop = [blank(); 1];
        assert_eq!(parse(bad.as_bytes(), &mut troop), Err(ParseError::Malformed), "{}", bad);
    }
}

#[test]
fn wrong_number_of_blocks_is_rejected() {
    let mut three = [blank(); 3];
    assert_eq!(parse(REFERENCE.as_bytes(), &mut three), Err(ParseError::BlockCount));
    let mut five = [blank(); 5];
    assert_eq!(parse(REFERENCE.as_bytes(), &mut five), Err(ParseError::BlockCount));
    let mut none: [Monkey; 0] = [];
    assert_eq!(parse(b" \n\n \n", &mut none), Ok(()));
    assert_eq!(parse(b"x", &mut none), Err(ParseError::BlockCount));
    let mut one = [blank(); 1];
    assert_eq!(parse(b"", &mut one), Err(ParseError::BlockCount));
}

#[test]
fn a_blank_line_inside_a_block_splits_it() {
    let text = REFERENCE.replace("98\n", "98\n\n");
    let mut troop = [blank(); 4];
    assert_eq!(parse(text.as_bytes(), &mut troop), Err(ParseError::Malformed));
}

#[test]
fn number_reads_the_digits_at_the_position() {
    assert_eq!(number(b"ab0042,", 2), Some((42, 6)));
    assert_eq!(number(b"18446744073709551615", 0), Some((18446744073709551615, 20)));
    assert_eq!(number(b"18446744073709551616", 0), None);
    assert_eq!(number(b"7", 1), None);
    assert_eq!(number(b"+7", 0), None);
    assert_eq!(number(b"x7", 0), None);
}

#[test]
fn scanner_steps() {
    assert_eq!(skip(b"  \n x", 0), 4);
    assert_eq!(skip(b"  \n x", 4), 4);
    assert_eq!(skip(b"  ", 0), 2);
    assert_eq!(expect(b"  Test: x", 0, b"Test:"), Some(7));
    assert_eq!(expect(b"  Test", 0, b"Test:"), None);
    assert_eq!(expect(b"", 0, b""), Some(0));
    assert_eq!(read_operation(b" * old", 0), Some((MonkeyOp::Square, 6)));
    assert_eq!(read_operation(b"*3", 0), Some((MonkeyOp::Times(3), 2)));
    assert_eq!(read_operation(b"+ 12 ", 0), Some((MonkeyOp::Plus(12), 4)));
    assert_eq!(read_operation(b"/ 12 ", 0), None);
    assert_eq!(find_block_end(b"ab\n\ncd", 0), 3);
    assert_eq!(find_block_end(b"ab\ncd", 0), 5);
    assert_eq!(find_block_end(b"\n\n\nab", 0), 1);
}
