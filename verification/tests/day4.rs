use advent2018::day4;

const LOG: &str = "[1518-11-01 00:00] Guard #10 begins shift
[1518-11-01 00:05] falls asleep
[1518-11-01 00:25] wakes up
[1518-11-01 00:30] falls asleep
[1518-11-01 00:55] wakes up
[1518-11-01 23:58] Guard #99 begins shift
[1518-11-02 00:40] falls asleep
[1518-11-02 00:50] wakes up
[1518-11-03 00:05] Guard #10 begins shift
[1518-11-03 00:24] falls asleep
[1518-11-03 00:29] wakes up
[1518-11-04 00:02] Guard #99 begins shift
[1518-11-04 00:36] falls asleep
[1518-11-04 00:46] wakes up
[1518-11-05 00:03] Guard #99 begins shift
[1518-11-05 00:45] falls asleep
[1518-11-05 00:55] wakes up
";

#[test]
fn day4_sleepiest_guard_and_minute() {
    let (answer, roster) = day4::part1(LOG).unwrap();
    assert_eq!(answer, "240");
    assert_eq!(roster.len(), 2);
    assert_eq!(roster[0].0, 10);
    assert_eq!(roster[1].0, 99);
    assert_eq!(roster[0].1.total(), Some(50));
    assert_eq!(roster[1].1.total(), Some(30));
    assert_eq!(roster[0].1.spans_containing(24), 2);
}

#[test]
fn day4_guard_most_asleep_in_one_minute() {
    let (_, roster) = day4::part1(LOG).unwrap();
    assert_eq!(day4::part2(LOG, roster), Some("4455".to_string()));
}

#[test]
fn day4_lines_in_any_order() {
    let mut lines: Vec<&str> = LOG.lines().collect();
    lines.reverse();
    lines.swap(3, 11);
    let shuffled = lines.join("\n");
    let (answer, roster) = day4::part1(&shuffled).unwrap();
    assert_eq!(answer, "240");
    assert_eq!(day4::part2("", roster), Some("4455".to_string()));
}

#[test]
fn day4_sleep_without_a_guard() {
    assert!(day4::part1("[1518-11-01 00:05] falls asleep\n").is_none());
    assert!(day4::part1("[1518-11-01 00:00] Guard #1 begins shift\n[1518-11-01 00:05] wakes up\n").is_none());
    assert!(day4::part1("").is_none());
    assert!(day4::part1("no time stamp\n").is_none());
}

#[test]
fn day4_empty_roster() {
    assert_eq!(day4::part2("", Vec::new()), Some("0".to_string()));
}

#[test]
fn day4_span_length_and_membership() {
    let span = day4::SleepSpan(5, 25);
    assert_eq!(span.length(), 20);
    assert!(span.contains(5));
    assert!(span.contains(24));
    assert!(!span.contains(25));
    assert!(!span.contains(4));
}
