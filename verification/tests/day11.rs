use advent2018::day11::{self, SumGrid};

#[test]
fn day11_power_of_a_cell() {
    assert_eq!(day11::power(2, 4, 8), 4);
    assert_eq!(day11::power(121, 78, 57), -5);
    assert_eq!(day11::power(216, 195, 39), 0);
    assert_eq!(day11::power(100, 152, 71), 4);
}

#[test]
fn day11_best_square_of_three() {
    let (answer, grid) = day11::part1("18\n").unwrap();
    assert_eq!(answer, "33,45");
    assert_eq!(day11::find_power_rect(&grid, 300, 3), Some(((32, 44), 29)));
    assert_eq!(grid.value(32, 44, 3, 3), Some(29));
    let (answer, grid) = day11::part1("42").unwrap();
    assert_eq!(answer, "21,61");
    assert_eq!(day11::find_power_rect(&grid, 300, 3), Some(((20, 60), 30)));
}

#[test]
fn day11_best_square_of_any_size() {
    let (_, grid) = day11::part1("18").unwrap();
    assert_eq!(day11::part2("", grid), Some("90,269,16".to_string()));
    let (_, grid) = day11::part1("42").unwrap();
    assert_eq!(day11::part2("", grid), Some("232,251,12".to_string()));
}

#[test]
fn day11_rejected_inputs() {
    assert!(day11::part1("").is_none());
    assert!(day11::part1("serial").is_none());
    assert!(day11::part1(&usize::MAX.to_string()).is_none());
}

#[test]
fn day11_table_of_sums() {
    let sg = SumGrid::new(vec![vec![1, 2, 3], vec![4, 5, 6], vec![7, 8, 9]]).unwrap();
    assert_eq!(sg.grid, vec![vec![1, 3, 6], vec![5, 12, 21], vec![12, 27, 45]]);
    assert_eq!(sg.value(0, 0, 3, 3), Some(45));
    assert_eq!(sg.value(1, 1, 2, 2), Some(28));
    assert_eq!(sg.value(2, 0, 1, 3), Some(18));
    assert_eq!(sg.value(0, 2, 2, 1), Some(15));
    assert_eq!(day11::find_power_rect(&sg, 3, 2), Some(((1, 1), 28)));
    assert_eq!(day11::find_power_rect(&sg, 3, 3), Some(((0, 0), 45)));
}

#[test]
fn day11_last_of_equal_squares() {
    let sg = SumGrid::new(vec![vec![0, 0], vec![0, 0]]).unwrap();
    assert_eq!(day11::find_power_rect(&sg, 2, 1), Some(((1, 1), 0)));
}

#[test]
fn day11_grids_without_a_table() {
    assert!(SumGrid::new(vec![]).is_none());
    assert!(SumGrid::new(vec![vec![1, 2], vec![3]]).is_none());
    assert!(SumGrid::new(vec![vec![isize::MAX, 1]]).is_none());
    assert!(SumGrid::new(vec![vec![isize::MIN], vec![-1]]).is_none());
    assert!(SumGrid::new(vec![vec![1, isize::MAX], vec![isize::MAX, isize::MIN]]).is_none());
}

#[test]
fn day11_tables_of_great_sums() {
    let half = isize::MAX / 2;
    let one = SumGrid::new(vec![vec![half]]).unwrap();
    assert_eq!(one.grid, vec![vec![half]]);
    assert_eq!(one.value(0, 0, 1, 1), Some(half));
    let top = isize::MAX;
    let sg = SumGrid::new(vec![vec![-top, 0], vec![top, top]]).unwrap();
    assert_eq!(sg.grid, vec![vec![-top, -top], vec![0, top]]);
    assert_eq!(sg.value(0, 0, 2, 2), Some(top));
    assert_eq!(sg.value(1, 1, 1, 1), Some(top));
    assert_eq!(sg.value(0, 1, 2, 1), None);
    assert_eq!(day11::find_power_rect(&sg, 2, 1), Some(((1, 1), top)));
    let wide =
        SumGrid::new(vec![vec![0, 0, -top], vec![0, 0, top], vec![0, 0, top]]).unwrap();
    assert_eq!(wide.value(1, 1, 2, 2), None);
    assert_eq!(day11::find_power_rect(&wide, 3, 2), None);
    assert_eq!(day11::find_power_rect(&wide, 3, 3), Some(((0, 0), top)));
}

#[test]
fn day11_pairs_row_by_row() {
    assert_eq!(day11::rect(2, 3), vec![(0, 0), (1, 0), (0, 1), (1, 1), (0, 2), (1, 2)]);
    assert_eq!(day11::rect(0, 3), vec![]);
}
