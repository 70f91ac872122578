use advent2018::day5;
use advent2018::text::chars_of;

#[test]
fn day5_reacted_polymer() {
    assert_eq!(day5::part1("dabAcCaCBAcCcaDA\n"), ("10".to_string(), ()));
    assert_eq!(day5::part1("aA"), ("0".to_string(), ()));
    assert_eq!(day5::part1("abBA"), ("0".to_string(), ()));
    assert_eq!(day5::part1("abAB"), ("4".to_string(), ()));
    assert_eq!(day5::part1("aabAAB"), ("6".to_string(), ()));
    assert_eq!(day5::part1(""), ("0".to_string(), ()));
}

#[test]
fn day5_shortest_after_removing_one_unit() {
    assert_eq!(day5::part2("dabAcCaCBAcCcaDA\n", ()), "4");
}

#[test]
fn day5_pairs() {
    assert!(day5::are_pairs('a', 'A'));
    assert!(day5::are_pairs('Z', 'z'));
    assert!(!day5::are_pairs('a', 'a'));
    assert!(!day5::are_pairs('A', 'A'));
    assert!(!day5::are_pairs('a', 'B'));
    assert!(!day5::are_pairs('1', '1'));
    assert!(!day5::are_pairs('@', '`'));
}

#[test]
fn day5_length_and_removal() {
    assert_eq!(day5::reacted_length(&chars_of("dabAcCaCBAcCcaDA")), 10);
    assert_eq!(day5::remove_unit(&chars_of("dabAcCaCBAcCcaDA"), 'a'), chars_of("dbcCCBcCcD"));
}
