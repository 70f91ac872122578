use advent2018::day10;

#[test]
fn day10_two_points_coming_together() {
    let text = "position=< 0,  0> velocity=< 0,  0>\nposition=< 3, 20> velocity=< 0, -5>\n";
    let (picture, steps) = day10::part1(text).unwrap();
    assert_eq!(steps, 2);
    let mut expected = String::from("\n#   ");
    for _ in 0..9 {
        expected.push_str("\n    ");
    }
    expected.push_str("\n   #");
    expected.push_str("\n    ");
    assert_eq!(picture, expected);
    assert_eq!(day10::part2(text, steps), "2");
}

#[test]
fn day10_points_already_together() {
    let text = "position=<-1, 5> velocity=< 1, 1>\nposition=< 1, 4> velocity=<-1, 0>\nposition=<1,4> velocity=<7,7>";
    let (picture, steps) = day10::part1(text).unwrap();
    assert_eq!(steps, 0);
    assert_eq!(picture, "\n  #\n#  \n   ");
}

#[test]
fn day10_rejected_inputs() {
    assert!(day10::part1("").is_none());
    assert!(day10::part1("position=<1, 2>\n").is_none());
    assert!(day10::part1("position=<1, 99999999999999999999> velocity=<0, 0>\n").is_none());
}

#[test]
fn day10_points_that_never_come_together() {
    let text = format!(
        "position=<0, 0> velocity=<0, 0>\nposition=<0, 100> velocity=<0, {}>\n",
        isize::MAX / 2
    );
    assert!(day10::part1(&text).is_none());
}

#[test]
fn day10_points_step_and_size() {
    let mut points = day10::Points::from_str(
        "position=< 2, -3> velocity=< 1,  2>\nposition=<-4,  6> velocity=<-1, -2>\n",
    )
    .unwrap();
    assert_eq!(points.bounds(), ((-4, -3), (2, 6)));
    assert_eq!(points.size(), Some((6, 9)));
    assert!(points.step());
    assert_eq!(points.points[0].position, (3, -1));
    assert_eq!(points.points[1].position, (-5, 4));
    assert_eq!(points.size(), Some((8, 5)));
}
