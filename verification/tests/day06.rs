use advent::days::day06::{fast, parse, prepare, slow, Cell};
use advent::etc::grid::Position;

const EXAMPLE_INPUT: &str = "....#.....
    .........#
    ..........
    ..#.......
    .......#..
    ..........
    .#..^.....
    ........#.
    #.........
    ......#...";

#[test]
fn day06_example_part1() {
    assert_eq!(slow::solve_part1(EXAMPLE_INPUT), 41);
    assert_eq!(fast::solve_part1(EXAMPLE_INPUT), 41);
}

#[test]
fn day06_example_part2() {
    assert_eq!(slow::solve_part2(EXAMPLE_INPUT), 6);
    assert_eq!(fast::solve_part2(EXAMPLE_INPUT), 6);
}

#[test]
fn day06_preparation() {
    let (map, guard) = prepare(EXAMPLE_INPUT);
    assert_eq!(guard, Position(6, 4));
    assert_eq!(map.at(0, 0), Some(&Cell::Empty));
    assert_eq!(map.at(3, 2), Some(&Cell::Obstruction));
    assert_eq!(map.at(6, 4), Some(&Cell::Empty));
}

#[test]
fn day06_patrol_reports_loops_and_exits() {
    // the guard walks north out of the area
    let (map, guard) = prepare("... .^. ...");
    let (marks, is_loop) = fast::patrol(&map, guard);
    assert!(!is_loop);
    assert_eq!(marks.iter().filter(|m| m.iter().any(|b| *b)).count(), 2);
    assert_eq!(marks[4], [true, false, false, false]);
    assert_eq!(marks[1], [true, false, false, false]);
    let (cells, is_loop) = slow::patrol(&map, guard);
    assert!(!is_loop);
    assert_eq!(cells, vec![Position(1, 1), Position(0, 1)]);
    // four obstructions keep the guard going round for ever
    let (map, guard) = prepare(".#.. ...# #... .^#.");
    let (marks, is_loop) = fast::patrol(&map, guard);
    assert!(is_loop);
    // the cell it starts from, and the four corners of its round
    assert_eq!(marks.iter().filter(|m| m.iter().any(|b| *b)).count(), 5);
    let (cells, is_loop) = slow::patrol(&map, guard);
    assert!(is_loop);
    assert_eq!(cells.len(), 5);
    assert_eq!(fast::walked_cells(&map, guard), 5);
    // a guard shut in between four obstructions turns on the spot
    let (mut map, guard) = prepare(".#. #^# .#.");
    assert!(fast::patrol(&map, guard).1);
    assert!(slow::patrol(&map, guard).1);
    assert_eq!(fast::trapping_cells(&mut map, guard), 0);
    assert_eq!(slow::count_traps(&mut map, guard), 0);
    assert_eq!(map.at(1, 1), Some(&Cell::Empty));
}

#[test]
fn day06_rejects_malformed_maps() {
    assert!(parse("... ... ...").is_none());
    assert!(parse("..^ ..").is_none());
    assert!(parse(".x^").is_none());
    assert!(parse("").is_none());
    assert!(parse("^").is_some());
    assert_eq!(parse(".^ ^.").unwrap().1, Position(0, 1));
}
