use advent2018::day9;

fn naive(players: usize, marbles: usize) -> usize {
    let mut circle: Vec<usize> = vec![0];
    let mut current: usize = 0;
    let mut scores = vec![0usize; players];
    for marble in 1..=marbles {
        if marble % 23 == 0 {
            let at = (current + circle.len() - 7) % circle.len();
            scores[(marble - 1) % players] += marble + circle.remove(at);
            current = at % circle.len();
        } else {
            let at = (current + 1) % circle.len() + 1;
            circle.insert(at, marble);
            current = at;
        }
    }
    scores.into_iter().max().unwrap()
}

#[test]
fn day9_winning_scores() {
    assert_eq!(
        day9::part1("9 players; last marble is worth 25 points"),
        Some(("32".to_string(), (9, 25)))
    );
    assert_eq!(day9::play(10, 1618), Some(8317));
    assert_eq!(day9::play(13, 7999), Some(146373));
    assert_eq!(day9::play(17, 1104), Some(2764));
    assert_eq!(day9::play(21, 6111), Some(54718));
    assert_eq!(day9::play(30, 5807), Some(37305));
}

#[test]
fn day9_agrees_with_a_plain_circle() {
    for (players, marbles) in [(1, 1), (1, 23), (2, 46), (5, 100), (7, 500), (9, 2500)] {
        assert_eq!(day9::play(players, marbles), Some(naive(players, marbles)));
    }
}

#[test]
fn day9_a_hundred_times_the_marbles() {
    assert_eq!(day9::part2("", (9, 25)), Some(naive(9, 2500).to_string()));
    assert_eq!(day9::part2("", (9, usize::MAX / 50)), None);
}

#[test]
fn day9_games_that_cannot_be_played() {
    assert_eq!(day9::play(0, 10), None);
    assert_eq!(day9::play(3, 0), None);
    assert_eq!(day9::play(3, usize::MAX), None);
    assert_eq!(day9::part1("nine players"), None);
    assert_eq!(day9::part1("9 players; last marble is worth 0 points"), None);
}

#[test]
fn day9_step_by_step() {
    let mut circle = day9::Circle::new(3, 4);
    assert_eq!(circle.step(), Some(true));
    assert_eq!(circle.step(), Some(true));
    assert_eq!(circle.step(), Some(true));
    assert_eq!(circle.step(), Some(false));
    assert_eq!(circle.circle.iter().copied().collect::<Vec<usize>>(), vec![2, 1, 3, 0, 4]);
    assert_eq!(circle.current_player, 1);
    assert_eq!(circle.winner_score(), 0);
}
