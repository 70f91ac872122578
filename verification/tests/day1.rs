use advent2018::day1;

#[test]
fn day1_sums_the_changes() {
    assert_eq!(day1::part1("+1\n-2\n+3\n+1\n"), Some(("3".to_string(), ())));
    assert_eq!(day1::part1("-1\n-2\n-3"), Some(("-6".to_string(), ())));
    assert_eq!(day1::part1(""), Some(("0".to_string(), ())));
}

#[test]
fn day1_rejects_what_is_no_number() {
    assert_eq!(day1::part1("+1\nx\n"), None);
    assert_eq!(day1::part1("+1\n\n+2\n"), None);
    assert_eq!(day1::part2("+\n", ()), None);
}

#[test]
fn day1_sum_out_of_range() {
    let text = format!("{}\n1\n", isize::MAX);
    assert_eq!(day1::part1(&text), None);
    let low = format!("{}\n", isize::MIN);
    assert_eq!(day1::part1(&low), Some((isize::MIN.to_string(), ())));
}

#[test]
fn day1_first_frequency_reached_twice() {
    assert_eq!(day1::part2("+1\n-2\n+3\n+1\n", ()), Some("2".to_string()));
    assert_eq!(day1::part2("+1\n-1\n", ()), Some("1".to_string()));
    assert_eq!(day1::part2("+3\n+3\n+4\n-2\n-4\n", ()), Some("10".to_string()));
    assert_eq!(day1::part2("-6\n+3\n+8\n+5\n-6\n", ()), Some("5".to_string()));
    assert_eq!(day1::part2("+7\n+7\n-2\n-7\n-4\n", ()), Some("14".to_string()));
}

#[test]
fn day1_no_repeat_before_the_range_ends() {
    let text = format!("{}\n", isize::MAX / 2 + 1);
    assert_eq!(day1::part2(&text, ()), None);
    assert_eq!(day1::part2("", ()), None);
}
