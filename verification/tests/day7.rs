use advent2018::day7;

const RULES: &str = "Step C must be finished before step A can begin.
Step C must be finished before step F can begin.
Step A must be finished before step B can begin.
Step A must be finished before step D can begin.
Step B must be finished before step E can begin.
Step D must be finished before step E can begin.
Step F must be finished before step E can begin.
";

#[test]
fn day7_order_of_steps() {
    assert_eq!(day7::part1(RULES), Some(("CABDFE".to_string(), ())));
    assert_eq!(day7::part1(""), Some((String::new(), ())));
}

#[test]
fn day7_steps_in_a_circle_are_never_taken() {
    let text = "Step A must be finished before step B can begin.\nStep B must be finished before step A can begin.\nStep C must be finished before step D can begin.\n";
    assert_eq!(day7::part1(text), Some(("CD".to_string(), ())));
}

#[test]
fn day7_rejects_other_lines() {
    assert_eq!(day7::part1("Step C must wait.\n"), None);
    assert_eq!(day7::part2("Step C must wait.\n", ()), None);
}

#[test]
fn day7_time_with_five_workers() {
    assert_eq!(day7::part2(RULES, ()), Some("252".to_string()));
    assert_eq!(
        day7::part2("Step A must be finished before step B can begin.\n", ()),
        Some("122".to_string())
    );
}

#[test]
fn day7_without_steps_or_time() {
    assert_eq!(day7::part2("", ()), Some("-2".to_string()));
    assert_eq!(day7::part2("Step 1 must be finished before step 2 can begin.\n", ()), None);
}

#[test]
fn day7_time_for_task() {
    assert_eq!(day7::time_for_task('A'), 60);
    assert_eq!(day7::time_for_task('Z'), 85);
}

#[test]
fn day7_queue_operations() {
    let mut tq = day7::TaskQueue::new(RULES).unwrap();
    assert!(!tq.is_done());
    assert_eq!(tq.pop_task(), Some('C'));
    assert_eq!(tq.pop_task(), None);
    tq.finish_task('C');
    assert_eq!(tq.pop_task(), Some('A'));
    assert_eq!(tq.pop_task(), Some('F'));
    assert_eq!(tq.pop_task(), None);
}
