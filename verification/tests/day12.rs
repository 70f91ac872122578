use advent2018::day12;
use advent2018::text::chars_of;

const GARDEN: &str = "initial state: #..#.#..##......###...###

...## => #
..#.. => #
.#... => #
.#.#. => #
.#.## => #
.##.. => #
.#### => #
#.#.# => #
#.### => #
##.#. => #
##.## => #
###.. => #
###.# => #
####. => #
";

#[test]
fn day12_sum_after_twenty_generations() {
    let (answer, (rules, state)) = day12::part1(GARDEN).unwrap();
    assert_eq!(answer, "325");
    assert_eq!(state, vec![0, 3, 5, 8, 9, 16, 17, 18, 22, 23, 24]);
    assert!(rules[0b11000]);
    assert!(rules[0b00100]);
    assert!(!rules[0]);
    assert!(!rules[0b11111]);
}

#[test]
fn day12_one_generation() {
    let (_, (rules, state)) = day12::part1(GARDEN).unwrap();
    let next = day12::step(state, &rules).unwrap();
    assert_eq!(next, vec![0, 4, 9, 15, 18, 21, 24]);
    assert_eq!(day12::get_window_bits(&next, 0), 0b00100);
    assert_eq!(day12::get_window_bits(&next, 2), 0b10001);
}

#[test]
fn day12_rules_from_lines() {
    let lines = vec![chars_of("..#.. => #"), chars_of("  #...# => #  "), chars_of("..#.. => .")];
    let rules = day12::parse_rules(&lines);
    assert!(!rules[4]);
    assert!(rules[17]);
    assert_eq!(rules.iter().filter(|r| **r).count(), 1);
}

#[test]
fn day12_fifty_billion_generations_of_a_plant_that_stays() {
    let mut rules = [false; 32];
    rules[4] = true;
    assert_eq!(day12::part2("", (rules, vec![7])), Some("7".to_string()));
}

#[test]
fn day12_fifty_billion_generations_of_a_plant_that_walks() {
    let mut rules = [false; 32];
    rules[2] = true;
    assert_eq!(day12::part2("", (rules, vec![0])), Some("50000000000".to_string()));
    let mut left = [false; 32];
    left[8] = true;
    assert_eq!(day12::part2("", (left, vec![0, 3])), Some("-50000000000".to_string()));
}

#[test]
fn day12_part_two_of_the_example() {
    let (_, garden) = day12::part1(GARDEN).unwrap();
    assert_eq!(day12::part2(GARDEN, garden), Some("999999999374".to_string()));
}

#[test]
fn day12_rejected_inputs() {
    assert!(day12::part1("").is_none());
    assert!(day12::part1("initial state\n").is_none());
    assert!(day12::part1("initial state: ...\n\n..#.. => #\n").is_none());
    assert_eq!(day12::part2("", ([false; 32], vec![1, 2])), None);
    assert_eq!(day12::part2("", ([false; 32], vec![])), None);
}
