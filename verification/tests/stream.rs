use aoc2022::day06::{find_marker, has_duplicate, parse, part1, part2};

#[test]
fn packet_markers_of_the_examples() {
    assert_eq!(part1(b"mjqjpqmgbljsphdztnvjfqwrcgsmlb"), 7);
    assert_eq!(part1(b"bvwbjplbgvbhsrlpgdmjqwftvncz"), 5);
    assert_eq!(part1(b"nppdvjthqldpwncqszvftbrmjlhg"), 6);
    assert_eq!(part1(b"nznrnfrfntjfmvfwmzdfjlvtqnbhcprsg"), 10);
    assert_eq!(part1(b"zcfzfwzzqfrljwzlrfnpqdbhtmscgvjw"), 11);
}

#[test]
fn message_markers_of_the_examples() {
    assert_eq!(part2(b"mjqjpqmgbljsphdztnvjfqwrcgsmlb"), 19);
    assert_eq!(part2(b"bvwbjplbgvbhsrlpgdmjqwftvncz"), 23);
    assert_eq!(part2(b"nppdvjthqldpwncqszvftbrmjlhg"), 23);
    assert_eq!(part2(b"nznrnfrfntjfmvfwmzdfjlvtqnbhcprsg"), 29);
    assert_eq!(part2(b"zcfzfwzzqfrljwzlrfnpqdbhtmscgvjw"), 26);
}

#[test]
fn stream_without_marker_gives_zero() {
    assert_eq!(part1(b"aaaaaaaa"), 0);
    assert_eq!(part1(b"abcabcabcabc"), 0);
    assert_eq!(part2(b"abcdefghijklmabcdefghijklm"), 0);
}

#[test]
fn first_bytes_are_the_first_window() {
    assert_eq!(part1(b"abcdxxxx"), 1);
    assert_eq!(part1(b"abcd"), 1);
    assert_eq!(part2(b"abcdefghijklmn"), 1);
    assert_eq!(part1(b"aabcd"), 5);
    assert_eq!(part1(b"abca"), 0);
}

#[test]
fn marker_of_any_width() {
    assert_eq!(find_marker::<1>(b"zzz"), 1);
    assert_eq!(find_marker::<2>(b"zzzyx"), 4);
    assert_eq!(find_marker::<3>(b"zzzyx"), 5);
    assert_eq!(find_marker::<5>(b"zzzyx"), 0);
}

#[test]
fn duplicates_in_a_buffer() {
    assert!(!has_duplicate(&[1u8, 2, 3, 4]));
    assert!(has_duplicate(&[1u8, 2, 3, 1]));
    assert!(has_duplicate(&[1u8, 2, 2, 3]));
    assert!(has_duplicate(&[7u8, 7]));
    assert!(!has_duplicate(&[7u8]));
    assert!(!has_duplicate::<0>(&[]));
}

#[test]
fn parse_copies_to_the_front() {
    let mut parsed = [b' '; 8];
    parse(b"abc", &mut parsed);
    assert_eq!(&parsed, b"abc     ");
    parse(b"", &mut parsed);
    assert_eq!(&parsed, b"abc     ");
    parse(b"12345678", &mut parsed);
    assert_eq!(&parsed, b"12345678");
}
