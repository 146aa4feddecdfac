use advent::days::day18::{bfs, flood, prepare, solve_part1, solve_part2, steps, Cell};
use advent::etc::grid::{Grid, Position};

const EXAMPLE_INPUT: &str = "5,4
  4,2
  4,5
  3,0
  2,1
  6,3
  2,4
  1,5
  0,6
  3,3
  2,6
  5,1
  1,2
  5,5
  2,5
  6,5
  1,4
  0,4
  6,4
  1,1
  6,1
  1,0
  0,5
  1,6
  2,0";

#[test]
fn day18_example_part1() {
    assert_eq!(solve_part1(EXAMPLE_INPUT, 7, 7, 12), Some(22));
}

#[test]
fn day18_example_part2() {
    assert_eq!(solve_part2(EXAMPLE_INPUT, 7, 7), Some("6,1".to_string()));
}

#[test]
fn day18_prepare_reads_pairs() {
    assert_eq!(
        prepare("5,4\n 4,2 x 10,0"),
        Some(vec![Position(5, 4), Position(4, 2), Position(10, 0)])
    );
    assert_eq!(prepare("no pair here"), Some(vec![]));
    assert_eq!(prepare("1,99999999999999999999999999"), None);
}

#[test]
fn day18_no_way_is_none() {
    // the two cells next to the origin are corrupted
    assert_eq!(solve_part1("0,1 1,0", 3, 3, 2), None);
    assert_eq!(solve_part1("0,1 1,0", 3, 3, 1), Some(4));
    assert_eq!(solve_part1("0,1 1,0", 3, 3, 0), Some(4));
    // more steps asked for than cells named
    assert_eq!(solve_part1("0,1 1,0", 3, 3, 3), None);
    // not square
    assert_eq!(solve_part1("0,1", 3, 4, 1), None);
    assert_eq!(solve_part2("0,1 1,0", 3, 3), Some("1,0".to_string()));
    assert_eq!(solve_part2("0,1", 3, 3), None);
}

#[test]
fn day18_flood_marks_least_steps() {
    let mut map = Grid::filled(3, 4, Cell::Free).unwrap();
    map.update(&Position(0, 1), Cell::Corrupted);
    map.update(&Position(1, 1), Cell::Corrupted);
    bfs(&mut map, Position(0, 0));
    assert_eq!(
        map.items,
        vec![
            Cell::Reached(0),
            Cell::Corrupted,
            Cell::Reached(6),
            Cell::Reached(7),
            Cell::Reached(1),
            Cell::Corrupted,
            Cell::Reached(5),
            Cell::Reached(6),
            Cell::Reached(2),
            Cell::Reached(3),
            Cell::Reached(4),
            Cell::Reached(5),
        ]
    );
}

#[test]
fn day18_flood_stops_at_the_limit() {
    let mut map = Grid::filled(1, 5, Cell::Free).unwrap();
    flood(&mut map, Position(0, 0), Some(2));
    assert_eq!(
        map.items,
        vec![Cell::Reached(0), Cell::Reached(1), Cell::Reached(2), Cell::Free, Cell::Free]
    );
    let mut map = Grid::filled(1, 3, Cell::Corrupted).unwrap();
    flood(&mut map, Position(0, 1), Some(0));
    assert_eq!(map.items, vec![Cell::Corrupted, Cell::Reached(0), Cell::Corrupted]);
}

#[test]
fn day18_steps_leave_the_map_alone() {
    let mut map = Grid::filled(2, 2, Cell::Free).unwrap();
    map.update(&Position(0, 1), Cell::Corrupted);
    assert_eq!(steps(&map, Position(0, 0), Position(1, 1)), Some(2));
    assert_eq!(steps(&map, Position(0, 0), Position(0, 1)), None);
    assert_eq!(steps(&map, Position(1, 1), Position(1, 1)), Some(0));
    assert_eq!(map.items, vec![Cell::Free, Cell::Corrupted, Cell::Free, Cell::Free]);
}
