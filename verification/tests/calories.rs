use aoc2022::day01::{most_calories, parse_elf, part1, part2, top_calories, Overflow};

const EXAMPLE: &str = "1000\n2000\n3000\n\n4000\n\n5000\n6000\n\n7000\n8000\n9000\n\n10000\n";

#[test]
fn example_calories() {
    assert_eq!(part1(EXAMPLE), 24000);
    assert_eq!(part2(EXAMPLE), 45000);
}

#[test]
fn elves_are_read_one_after_the_other() {
    let text = EXAMPLE.as_bytes();
    assert_eq!(parse_elf(text, 0), Ok(Some((6000, 15))));
    assert_eq!(parse_elf(text, 15), Ok(Some((4000, 21))));
    assert_eq!(parse_elf(text, 21), Ok(Some((11000, 32))));
    assert_eq!(parse_elf(text, 32), Ok(Some((24000, 48))));
    assert_eq!(parse_elf(text, 48), Ok(Some((10000, 55))));
    assert_eq!(parse_elf(text, 55), Ok(None));
    assert_eq!(parse_elf(b"\r\n7\r\n8\r\nx", 0), Ok(Some((15, 8))));
}

#[test]
fn a_line_without_ending_is_no_line() {
    assert_eq!(parse_elf(b"1\n2", 0), Ok(Some((1, 2))));
    assert_eq!(parse_elf(b"2", 0), Ok(None));
    assert_eq!(most_calories(b"1\n2"), Some(1));
    assert_eq!(most_calories(b"2"), None);
    assert_eq!(most_calories(b""), None);
    assert_eq!(top_calories(b""), None);
}

#[test]
fn calories_that_do_not_fit() {
    assert_eq!(parse_elf(b"4000000000\n4000000000\n", 0), Err(Overflow));
    assert_eq!(most_calories(b"1\n\n4000000000\n4000000000\n"), None);
    assert_eq!(top_calories(b"1\n\n4000000000\n4000000000\n"), None);
    assert_eq!(parse_elf(b"5000000000\n", 0), Ok(None));
    assert_eq!(most_calories(b"4294967295\n"), Some(4294967295));
    assert_eq!(top_calories(b"4294967294\n\n4294967295\n"), None);
    assert_eq!(top_calories(b"4294967295\n"), Some(4294967295));
}

#[test]
fn an_elf_joins_only_above_the_least_that_is_kept() {
    assert_eq!(top_calories(b"5\n\n3\n\n4\n"), Some(5));
    assert_eq!(top_calories(b"3\n\n4\n\n5\n"), Some(12));
    assert_eq!(top_calories(b"1\n\n2\n\n3\n\n4\n\n5\n"), Some(12));
    assert_eq!(top_calories(b"1\n\n5\n\n4\n\n3\n\n2\n"), Some(12));
    assert_eq!(top_calories(b"0\n\n0\n"), Some(0));
    assert_eq!(top_calories(b"7\n\n7\n\n7\n\n7\n"), Some(7));
    assert_eq!(most_calories(b"5\n\n3\n\n4\n"), Some(5));
}
