use advent2018::day14;

#[test]
fn day14_ten_scores_after() {
    assert_eq!(day14::part1("9\n"), Some(("5158916779".to_string(), ())));
    assert_eq!(day14::part1("5"), Some(("0124515891".to_string(), ())));
    assert_eq!(day14::part1(" 18 "), Some(("9251071085".to_string(), ())));
    assert_eq!(day14::part1("2018"), Some(("5941429882".to_string(), ())));
    assert_eq!(day14::part1("0"), Some(("3710101245".to_string(), ())));
}

#[test]
fn day14_recipes_before_the_scores() {
    assert_eq!(day14::part2("51589\n", ()), Some("9".to_string()));
    assert_eq!(day14::part2("01245", ()), Some("5".to_string()));
    assert_eq!(day14::part2("92510", ()), Some("18".to_string()));
    assert_eq!(day14::part2("59414", ()), Some("2018".to_string()));
    assert_eq!(day14::part2("", ()), Some("4".to_string()));
    assert_eq!(day14::part2("10", ()), Some("2".to_string()));
    assert_eq!(day14::part2("71", ()), Some("1".to_string()));
}

#[test]
fn day14_rejected_inputs() {
    assert_eq!(day14::part1("nine"), None);
    assert_eq!(day14::part1(&usize::MAX.to_string()), None);
    assert_eq!(day14::part2("5x", ()), None);
    assert_eq!(day14::part2("+5", ()), None);
}

#[test]
fn day14_one_round() {
    let mut scores = vec![3, 7];
    let (mut elf1, mut elf2) = (0, 1);
    day14::step(&mut elf1, &mut elf2, &mut scores);
    assert_eq!(scores, vec![3, 7, 1, 0]);
    assert_eq!((elf1, elf2), (0, 1));
    day14::step(&mut elf1, &mut elf2, &mut scores);
    assert_eq!(scores, vec![3, 7, 1, 0, 1, 0]);
    assert_eq!((elf1, elf2), (4, 3));
}
