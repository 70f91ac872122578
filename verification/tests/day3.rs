use advent2018::day3;

const CLAIMS: &str = "#1 @ 1,3: 4x4\n#2 @ 3,1: 4x4\n#3 @ 5,5: 2x2\n";

#[test]
fn day3_counts_squares_claimed_twice() {
    let (answer, _) = day3::part1(CLAIMS).unwrap();
    assert_eq!(answer, "4");
}

#[test]
fn day3_finds_the_claim_that_overlaps_none() {
    let (_, fabric) = day3::part1(CLAIMS).unwrap();
    assert_eq!(day3::part2(CLAIMS, fabric), Some("3".to_string()));
}

#[test]
fn day3_rejects_a_line_that_is_no_claim() {
    assert!(day3::part1("#1 @ 1,3: 4x4\nnonsense\n").is_none());
}

#[test]
fn day3_no_intact_claim() {
    let text = "#1 @ 0,0: 2x2\n#2 @ 1,1: 2x2\n";
    let (answer, fabric) = day3::part1(text).unwrap();
    assert_eq!(answer, "1");
    assert_eq!(day3::part2(text, fabric), None);
}
