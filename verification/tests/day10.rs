use advent::days::day10::{parse, prepare, ratings, solve_part1, solve_part2, trail_score};
use advent::etc::grid::Position;

const EXAMPLE_INPUT: &str = "89010123
  78121874
  87430965
  96549874
  45678903
  32019012
  01329801
  10456732";

#[test]
fn day10_example_part1() {
    assert_eq!(solve_part1(EXAMPLE_INPUT), 36);
}

#[test]
fn day10_example_part2() {
    assert_eq!(solve_part2(EXAMPLE_INPUT), 81);
}

#[test]
fn day10_small_maps() {
    let map = prepare("0123 1234 8765 9876");
    assert_eq!(map.items[5], 2);
    assert_eq!(trail_score(&map, &Position(0, 0)), 1);
    assert_eq!(trail_score(&map, &Position(1, 1)), 0);
    assert_eq!(ratings(&map)[0], 16);
    assert_eq!(solve_part1("0123 1234 8765 9876"), 1);
    assert_eq!(solve_part2("0123 1234 8765 9876"), 16);
    assert_eq!(solve_part1("0"), 0);
    assert_eq!(solve_part2("0123456789"), 1);
    assert_eq!(solve_part1("9876543210123456789"), 2);
    assert!(parse("01a").is_none());
    assert!(parse("01 2").is_none());
}
