use aoc2022::day02::{
    parse_part1_round, parse_part2_round, part1, part2, part2_hand, read_letters, score,
    total_score, GameRound, Hand,
};

#[test]
fn example_guide_totals() {
    assert_eq!(part1("A Y\nB X\nC Z\n"), 15);
    assert_eq!(part2("A Y\nB X\nC Z\n"), 12);
    assert_eq!(part1("A Y\r\nB X\r\nC Z"), 15);
    assert_eq!(part2("A \t Y\nB  X\nC Z"), 12);
}

#[test]
fn score_of_every_round() {
    let hands = [Hand::Rock, Hand::Paper, Hand::Scissors];
    let expected = [[4, 1, 7], [8, 5, 2], [3, 9, 6]];
    for (u, us) in hands.iter().enumerate() {
        for (t, them) in hands.iter().enumerate() {
            assert_eq!(score(&GameRound { them: *them, us: *us }), expected[u][t]);
        }
    }
}

#[test]
fn hand_for_every_outcome() {
    assert_eq!(part2_hand(Hand::Rock, 'X'), Hand::Scissors);
    assert_eq!(part2_hand(Hand::Paper, 'X'), Hand::Rock);
    assert_eq!(part2_hand(Hand::Scissors, 'X'), Hand::Paper);
    assert_eq!(part2_hand(Hand::Rock, 'Y'), Hand::Rock);
    assert_eq!(part2_hand(Hand::Paper, 'Y'), Hand::Paper);
    assert_eq!(part2_hand(Hand::Scissors, 'Y'), Hand::Scissors);
    assert_eq!(part2_hand(Hand::Rock, 'Z'), Hand::Paper);
    assert_eq!(part2_hand(Hand::Paper, 'Z'), Hand::Scissors);
    assert_eq!(part2_hand(Hand::Scissors, 'Z'), Hand::Rock);
}

#[test]
fn rounds_are_read_with_their_line_ending() {
    assert_eq!(read_letters(b"A Y\nB X", 0), Some((b'A', b'Y', 4)));
    assert_eq!(read_letters(b"A Y\nB X", 4), Some((b'B', b'X', 7)));
    assert_eq!(read_letters(b"C\t\tZ\r\n", 0), Some((b'C', b'Z', 6)));
    assert_eq!(read_letters(b"C Z\r", 0), Some((b'C', b'Z', 3)));
    assert_eq!(read_letters(b"AY", 0), None);
    assert_eq!(read_letters(b"D Y", 0), None);
    assert_eq!(read_letters(b"A W", 0), None);
    assert_eq!(read_letters(b"A ", 0), None);
    assert_eq!(read_letters(b"", 0), None);
    assert_eq!(
        parse_part1_round(b"B Z\n", 0),
        Some((GameRound { them: Hand::Paper, us: Hand::Scissors }, 4))
    );
    assert_eq!(
        parse_part2_round(b"B Z\n", 0),
        Some((GameRound { them: Hand::Paper, us: Hand::Scissors }, 4))
    );
    assert_eq!(
        parse_part2_round(b"C X", 0),
        Some((GameRound { them: Hand::Scissors, us: Hand::Paper }, 3))
    );
    assert_eq!(parse_part1_round(b"x", 0), None);
}

#[test]
fn a_guide_ends_at_the_first_line_that_is_no_round() {
    assert_eq!(total_score(b"A Y\nB X\n\nC Z\n", false), Some(9));
    assert_eq!(total_score(b"A Y\nB X\nC ZA X", true), Some(15));
    assert_eq!(total_score(b"", false), None);
    assert_eq!(total_score(b"\nA Y", false), None);
    assert_eq!(total_score(b"a y", true), None);
}
