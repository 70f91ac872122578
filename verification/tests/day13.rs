use advent2018::day13::{self, Cart, Track};

const LOOPS: &str = r"/->-\        
|   |  /----\
| /-+--+-\  |
| | |  | v  |
\-+-/  \-+--/
  \------/   
";

const MANY: &str = r"/>-<\  
|   |  
| /<+-\
| | | v
\>+</ |
  |   ^
  \<->/
";

#[test]
fn day13_first_crash() {
    assert_eq!(day13::part1(LOOPS), Some(("7,3".to_string(), ())));
    assert_eq!(day13::part1("|\nv\n|\n|\n|\n^\n|\n"), Some(("0,3".to_string(), ())));
}

#[test]
fn day13_last_cart() {
    assert_eq!(day13::part2(MANY, ()), Some("6,4".to_string()));
}

#[test]
fn day13_cart_leaving_the_track() {
    assert_eq!(day13::part1(">--"), None);
    assert_eq!(day13::part2(">--\n   \n>--", ()), None);
}

#[test]
fn day13_third_cart_outlives_a_crash() {
    assert_eq!(day13::part2(">-<\n^  ", ()), Some("0,0".to_string()));
}

#[test]
fn day13_carts_of_a_track() {
    let track = Track::new(LOOPS);
    assert_eq!(track.carts.len(), 2);
    assert_eq!(track.carts[0], Cart { id: 0, position: (2, 0), direction: (1, 0), step: 0 });
    assert_eq!(track.carts[1], Cart { id: 1, position: (9, 3), direction: (0, 1), step: 0 });
    assert_eq!(track.map[0][2], '>');
}

#[test]
fn day13_one_tick() {
    let mut track = Track::new(LOOPS);
    assert_eq!(track.step(), Some(vec![]));
    assert_eq!(track.carts[0].position, (3, 0));
    assert_eq!(track.carts[1].position, (9, 4));
    assert_eq!(track.carts[1].direction, (1, 0));
    assert_eq!(track.carts[1].step, 1);
}

#[test]
fn day13_turns() {
    let mut cart = Cart::new(0, 5, 5, (1, 0));
    cart.flip_maybe('/');
    assert_eq!(cart.direction, (0, -1));
    cart.flip_maybe('\\');
    assert_eq!(cart.direction, (-1, 0));
    cart.flip_maybe('+');
    assert_eq!((cart.direction, cart.step), ((0, 1), 1));
    cart.flip_maybe('+');
    assert_eq!((cart.direction, cart.step), ((0, 1), 2));
    cart.flip_maybe('+');
    assert_eq!((cart.direction, cart.step), ((-1, 0), 3));
    cart.flip_maybe('-');
    assert_eq!((cart.direction, cart.step), ((-1, 0), 3));
    cart.step();
    assert_eq!(cart.position, (4, 5));
}

#[test]
fn day13_carts_in_reading_order() {
    let carts = vec![
        Cart::new(0, 5, 2, (1, 0)),
        Cart::new(1, 1, 2, (1, 0)),
        Cart::new(2, 9, 0, (1, 0)),
        Cart::new(3, 1, 2, (0, 1)),
    ];
    let ids: Vec<usize> = day13::arrange(&carts).iter().map(|c| c.id).collect();
    assert_eq!(ids, vec![2, 1, 3, 0]);
}

#[test]
fn day13_steps_round_the_range() {
    let mut cart = Cart::new(0, 0, 7, (-1, 3));
    cart.step();
    assert_eq!(cart.position, (usize::MAX, 10));
    cart.step();
    assert_eq!(cart.position, (usize::MAX - 1, 13));
    assert_eq!(day13::shift(5, -7), Some(usize::MAX - 1));
    assert_eq!(day13::shift(usize::MAX, 2), Some(1));
    assert_eq!(day13::shift(isize::MAX as usize, 1), None);
    assert_eq!(day13::shift((isize::MAX as usize) + 1, -1), None);
    assert_eq!(day13::shift(3, isize::MIN), Some((isize::MAX as usize) + 4));
}

#[test]
fn day13_turns_of_any_direction() {
    let mut cart = Cart::new(0, 5, 5, (7, -2));
    cart.flip_maybe('/');
    assert_eq!(cart.direction, (2, -7));
    cart.flip_maybe('\\');
    assert_eq!(cart.direction, (-7, 2));
    cart.flip_maybe('+');
    assert_eq!((cart.direction, cart.step), ((2, 7), 1));
    let mut far = Cart::new(0, 5, 5, (isize::MAX, -isize::MAX));
    far.flip_maybe('/');
    assert_eq!(far.direction, (isize::MAX, -isize::MAX));
}
