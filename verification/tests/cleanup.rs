use aoc2022::day04::{
    count_pairs, parse_assignment_pair, parse_range, part1, part2, Assignment,
};

const EXAMPLE: &str = "2-4,6-8\n2-3,4-5\n5-7,7-9\n2-8,3-7\n6-6,4-6\n2-6,4-8\n";

fn range(low: u32, high: u32) -> Assignment {
    Assignment { low, high }
}

#[test]
fn example_list_counts() {
    assert_eq!(part1(EXAMPLE), 2);
    assert_eq!(part2(EXAMPLE), 4);
}

#[test]
fn containment_of_ranges() {
    assert!(range(2, 8).contained_within(&range(3, 7)));
    assert!(!range(3, 7).contained_within(&range(2, 8)));
    assert!(range(4, 6).contained_within(&range(6, 6)));
    assert!(range(5, 5).contained_within(&range(5, 5)));
    assert!(!range(2, 4).contained_within(&range(6, 8)));
}

#[test]
fn overlap_of_ranges() {
    assert!(range(5, 7).overlapping(&range(7, 9)));
    assert!(range(7, 9).overlapping(&range(5, 7)));
    assert!(range(2, 8).overlapping(&range(3, 7)));
    assert!(range(3, 7).overlapping(&range(2, 8)));
    assert!(!range(2, 4).overlapping(&range(6, 8)));
    assert!(!range(6, 8).overlapping(&range(2, 4)));
    assert!(!range(2, 3).overlapping(&range(4, 5)));
    assert!(range(0, u32::MAX).overlapping(&range(u32::MAX, u32::MAX)));
}

#[test]
fn pairs_are_read_with_their_line_ending() {
    assert_eq!(parse_range(b"12-345,", 0), Some((range(12, 345), 6)));
    assert_eq!(parse_range(b"12-", 0), None);
    assert_eq!(parse_range(b"12,3", 0), None);
    assert_eq!(parse_range(b"-3", 0), None);
    assert_eq!(parse_range(b"1-4294967296", 0), None);
    assert_eq!(parse_range(b"1-4294967295", 0), Some((range(1, 4294967295), 12)));
    assert_eq!(
        parse_assignment_pair(b"2-4,6-8\n2-3", 0),
        Some(((range(2, 4), range(6, 8)), 8))
    );
    assert_eq!(
        parse_assignment_pair(b"x2-4,06-008\r\n", 1),
        Some(((range(2, 4), range(6, 8)), 13))
    );
    assert_eq!(parse_assignment_pair(b"2-4;6-8", 0), None);
    assert_eq!(parse_assignment_pair(b"2-4,6", 0), None);
    assert_eq!(parse_assignment_pair(b"", 0), None);
}

#[test]
fn a_list_ends_at_the_first_line_that_is_no_pair() {
    assert_eq!(count_pairs(b"1-9,2-3\n\n1-9,2-3\n", false), Some(1));
    assert_eq!(count_pairs(b"1-2,3-4\n", false), Some(0));
    assert_eq!(count_pairs(b"1-2,3-4\n", true), Some(0));
    assert_eq!(count_pairs(b"1-2,2-4", true), Some(1));
    assert_eq!(count_pairs(b"", true), None);
    assert_eq!(count_pairs(b" 1-2,2-4", true), None);
}
