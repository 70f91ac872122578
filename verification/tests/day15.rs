use advent2018::day15::{self, Cave, Cell, Point, UnitType};

const FIRST: &str = "#######\n#.G...#\n#...EG#\n#.#.#G#\n#..G#E#\n#.....#\n#######\n";
const SECOND: &str = "#######\n#G..#E#\n#E#E.E#\n#G.##.#\n#...#E#\n#...E.#\n#######\n";
const THIRD: &str = "#######\n#E..EG#\n#.#G.E#\n#E.##E#\n#G..#.#\n#..E#.#\n#######\n";
const FOURTH: &str = "#######\n#E.G#.#\n#.#G..#\n#G.#.G#\n#G..#.#\n#...E.#\n#######\n";
const SIXTH: &str = "#########\n#G......#\n#.E.#...#\n#..##..G#\n#...##..#\n#...#...#\n#.G...G.#\n#.....G.#\n#########\n";

#[test]
fn day15_outcome_of_the_combat() {
    assert_eq!(day15::part1(FIRST), Some(("35711".to_string(), ())));
    assert_eq!(day15::part1(THIRD), Some(("69892".to_string(), ())));
    assert_eq!(day15::part1(FOURTH), Some(("41072".to_string(), ())));
    assert_eq!(day15::part1(SIXTH), Some(("18740".to_string(), ())));
}

#[test]
fn day15_least_power_that_saves_the_elves() {
    assert_eq!(day15::part2(FIRST, ()), Some("4988".to_string()));
    assert_eq!(day15::part2(SECOND, ()), Some("39897".to_string()));
    assert_eq!(day15::part2(THIRD, ()), Some("42183".to_string()));
    assert_eq!(day15::part2(FOURTH, ()), Some("4160".to_string()));
    assert_eq!(day15::part2(SIXTH, ()), Some("595".to_string()));
}

#[test]
fn day15_cave_and_fighters() {
    let cave = Cave::new(FIRST, 3, 7);
    assert_eq!(cave.cells.len(), 7);
    assert_eq!(cave.cell_at(Point { x: 0, y: 0 }), Cell::Tile);
    assert_eq!(cave.cell_at(Point { x: 1, y: 1 }), Cell::Space);
    assert_eq!(cave.cell_at(Point { x: 2, y: 1 }), Cell::Space);
    assert_eq!(cave.cell_at(Point { x: 9, y: 1 }), Cell::Tile);
    assert_eq!(cave.cell_at(Point { x: 1, y: 9 }), Cell::Tile);
    assert_eq!(cave.units.len(), 6);
    assert_eq!(cave.units[0].position, Point { x: 2, y: 1 });
    assert_eq!(cave.units[0].ty, UnitType::Goblin);
    assert_eq!((cave.units[0].hp, cave.units[0].ap), (200, 3));
    assert_eq!(cave.units[1].ty, UnitType::Elf);
    assert_eq!((cave.units[1].hp, cave.units[1].ap), (200, 7));
    assert_eq!(cave.unit_at(Point { x: 4, y: 2 }), Some(1));
    assert_eq!(cave.unit_at(Point { x: 1, y: 1 }), None);
    assert_eq!(cave.enemies_of(UnitType::Goblin), vec![1, 5]);
    assert_eq!(cave.enemies_of(UnitType::Elf), vec![0, 2, 3, 4]);
    assert_eq!(cave.total_hp(), Some(1200));
    assert!(!cave.is_any_dead(UnitType::Elf));
    assert_eq!(UnitType::Elf.enemy(), UnitType::Goblin);
}

#[test]
fn day15_distances() {
    let cave = Cave::new(FIRST, 3, 3);
    let from = Point { x: 1, y: 1 };
    assert_eq!(cave.distance_to(from, from), Some(0));
    assert_eq!(cave.distance_to(from, Point { x: 1, y: 5 }), Some(4));
    assert_eq!(cave.distance_to(from, Point { x: 5, y: 5 }), Some(8));
    assert_eq!(cave.distance_to(from, Point { x: 3, y: 1 }), Some(4));
    assert_eq!(cave.distance_to(from, Point { x: 2, y: 1 }), None);
    assert_eq!(cave.distance_to(from, Point { x: 0, y: 0 }), None);
    assert_eq!(cave.distance_to(from, Point { x: 5, y: 1 }), Some(6));
    assert_eq!(cave.distance_to(Point { x: 2, y: 1 }, Point { x: 3, y: 1 }), Some(1));
}

#[test]
fn day15_movement() {
    let text = "#######\n#E..G.#\n#...#.#\n#.G.#G#\n#######\n";
    let mut cave = Cave::new(text, 3, 3);
    assert_eq!(cave.find_closest(0), Some(Point { x: 3, y: 1 }));
    assert_eq!(cave.choose_step(0, Point { x: 3, y: 1 }), Some(Point { x: 2, y: 1 }));
    assert_eq!(cave.turn_order(), vec![0, 1, 2, 3]);
    assert_eq!(cave.take_turn(0), Some(true));
    assert_eq!(cave.units[0].position, Point { x: 2, y: 1 });
    assert_eq!(cave.units[1].hp, 200);
}

#[test]
fn day15_attack_picks_the_weakest_then_the_first() {
    let text = "#####\n#.G.#\n#GEG#\n#.G.#\n#####\n";
    let mut cave = Cave::new(text, 3, 10);
    assert_eq!(cave.do_attack(2), Some(true));
    assert_eq!(cave.units[0].hp, 190);
    cave.units[3].hp = 150;
    cave.units[4].hp = 150;
    assert_eq!(cave.do_attack(2), Some(true));
    assert_eq!(cave.units[3].hp, 140);
    assert_eq!(cave.units[4].hp, 150);
    assert_eq!(cave.step(), Some(true));
    assert_eq!(cave.units[2].hp, 188);
}

#[test]
fn day15_combat_that_is_over_at_once() {
    assert_eq!(day15::part1("###\n#E#\n###\n"), Some(("0".to_string(), ())));
    assert_eq!(day15::part2("###\n#E#\n###\n", ()), Some("0".to_string()));
}

#[test]
fn day15_cave_open_at_the_edge() {
    assert_eq!(day15::part1("EG\n"), Some(("134".to_string(), ())));
    assert_eq!(day15::part2("EG\n", ()), Some("2650".to_string()));
    assert_eq!(day15::part1("GE\n.#\n"), Some(("134".to_string(), ())));
    assert_eq!(day15::part2("GE\n.#\n", ()), Some("2500".to_string()));
    assert_eq!(day15::part1("E#\n.G\n..\n"), Some(("134".to_string(), ())));
    assert_eq!(day15::part2("E#\n.G\n..\n", ()), Some("2650".to_string()));
}

#[test]
fn day15_distance_from_any_square() {
    let cave = Cave::new(FIRST, 3, 3);
    let corner = Point { x: 0, y: 0 };
    assert_eq!(cave.distance_to(corner, corner), Some(0));
    assert_eq!(cave.distance_to(corner, Point { x: 1, y: 1 }), None);
    let wall = Point { x: 1, y: 0 };
    assert_eq!(cave.distance_to(wall, wall), Some(0));
    assert_eq!(cave.distance_to(wall, Point { x: 1, y: 1 }), Some(1));
    assert_eq!(cave.distance_to(wall, Point { x: 1, y: 5 }), Some(5));
    assert_eq!(cave.distance_to(wall, Point { x: 2, y: 0 }), None);
    let inner = Point { x: 2, y: 3 };
    assert_eq!(cave.cell_at(inner), Cell::Tile);
    assert_eq!(cave.distance_to(inner, Point { x: 3, y: 3 }), Some(1));
    assert_eq!(cave.distance_to(inner, Point { x: 1, y: 1 }), Some(3));
    let fighter = Point { x: 2, y: 1 };
    assert_eq!(cave.distance_to(fighter, fighter), Some(0));
    assert_eq!(cave.distance_to(fighter, Point { x: 3, y: 1 }), Some(1));
    let outside = Point { x: 9, y: 2 };
    assert_eq!(cave.distance_to(outside, outside), Some(0));
    assert_eq!(cave.distance_to(outside, Point { x: 1, y: 1 }), None);
    let open = Cave::new("..\n.\n", 3, 3);
    let beyond = Point { x: 1, y: 1 };
    assert_eq!(open.cell_at(beyond), Cell::Tile);
    assert_eq!(open.distance_to(beyond, beyond), Some(0));
    assert_eq!(open.distance_to(beyond, Point { x: 0, y: 0 }), Some(2));
    assert_eq!(open.distance_to(Point { x: 0, y: 2 }, Point { x: 1, y: 0 }), Some(3));
    assert_eq!(open.distance_to(Point { x: 5, y: 5 }, Point { x: 0, y: 0 }), None);
}

#[test]
fn day15_squares_beside_a_square() {
    let p = Point { x: 3, y: 5 };
    assert_eq!(
        p.neighbors(),
        [Point { x: 4, y: 5 }, Point { x: 2, y: 5 }, Point { x: 3, y: 6 }, Point { x: 3, y: 4 }]
    );
    assert_eq!(p.neighbor(0), Some(Point { x: 4, y: 5 }));
    assert_eq!(p.neighbor(3), Some(Point { x: 3, y: 4 }));
    let corner = Point { x: 0, y: usize::MAX };
    assert_eq!(corner.neighbor(0), Some(Point { x: 1, y: usize::MAX }));
    assert_eq!(corner.neighbor(1), None);
    assert_eq!(corner.neighbor(2), None);
    assert_eq!(corner.neighbor(3), Some(Point { x: 0, y: usize::MAX - 1 }));
}

#[test]
fn day15_attack_power_as_a_signed_number() {
    let mut cave = Cave::new("EG\n", 3, usize::MAX);
    assert_eq!(cave.do_attack(0), Some(true));
    assert_eq!(cave.units[1].hp, 201);
    cave.units[0].ap = (isize::MAX as usize) + 1;
    assert_eq!(cave.do_attack(0), None);
    cave.units[0].hp = 0;
    cave.units[0].ap = 7;
    assert_eq!(cave.do_attack(0), Some(true));
    assert_eq!(cave.units[1].hp, 194);
}
