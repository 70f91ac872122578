use advent2018::day6;

const POINTS: &str = "1, 1\n1, 6\n8, 3\n3, 4\n5, 5\n8, 9\n";

#[test]
fn day6_largest_finite_area() {
    let (answer, out) = day6::part1(POINTS).unwrap();
    assert_eq!(answer, "17");
    assert_eq!(out.0, (0, 10));
    assert_eq!(out.1, (0, 10));
    assert_eq!(out.2, vec![(1, 1), (1, 6), (8, 3), (3, 4), (5, 5), (8, 9)]);
}

#[test]
fn day6_region_near_all_points() {
    let (_, out) = day6::part1(POINTS).unwrap();
    assert_eq!(day6::part2(POINTS, out), Some("100".to_string()));
    assert_eq!(day6::part2("", ((0, 0), (0, 0), vec![])), Some("0".to_string()));
    assert_eq!(day6::part2("", ((0, 3), (0, 2), vec![(5000, 5000)])), Some("5".to_string()));
    assert_eq!(day6::part2("", ((0, 3), (0, 2), vec![(5000, 5001)])), Some("3".to_string()));
}

#[test]
fn day6_distance() {
    assert_eq!(day6::manhattan((1, 1), (8, 9)), 15);
    assert_eq!(day6::manhattan((8, 9), (1, 1)), 15);
    assert_eq!(day6::manhattan((3, 4), (3, 4)), 0);
    assert_eq!(day6::manhattan((0, 0), (usize::MAX, 0)), 1);
    assert_eq!(day6::manhattan((usize::MAX, usize::MAX - 4), (2, 1)), 9);
    assert!(day6::can_compute((0, 0), (isize::MAX as usize, 0)));
    assert!(!day6::can_compute((0, 1), (isize::MAX as usize, 0)));
    assert!(!day6::can_compute((0, 0), ((isize::MAX as usize) + 1, 0)));
    assert!(!day6::can_compute((isize::MAX as usize, 0), (usize::MAX, 0)));
    assert!(day6::can_measure((5, 5), &vec![(1, 1), (usize::MAX, 9)]));
    assert!(!day6::can_measure((5, 5), &vec![(1, 1), ((isize::MAX as usize) + 1, 9)]));
}

#[test]
fn day6_closest_point_or_tie() {
    let points = vec![(1, 1), (1, 6), (8, 3), (3, 4), (5, 5), (8, 9)];
    assert_eq!(day6::closest_point((0, 0), &points), Some(0));
    assert_eq!(day6::closest_point((5, 5), &points), Some(4));
    assert_eq!(day6::closest_point((5, 0), &points), None);
    assert_eq!(day6::closest_point((1, 4), &points), None);
}

#[test]
fn day6_rejected_inputs() {
    assert!(day6::part1("1, 1\n").is_none());
    assert!(day6::part1("0, 1\n5, 5\n").is_none());
    assert!(day6::part1("1,1\n5, 5\n").is_none());
    assert!(day6::part1("1, 1\n5, 5\n").is_none());
    assert!(day6::part1("").is_none());
}
