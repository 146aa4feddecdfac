use advent::days::day04::{prepare, reads_mas, reads_xmas, solve_part1, solve_part2};
use advent::etc::grid::{Point, Position};

const EXAMPLE_INPUT: &str = "MMMSXXMASM
  MSAMXMSMSA
  AMXSXMAAMM
  MSAMASMSMX
  XMASAMXAMM
  XXAMMXXAMA
  SMSMSASXSS
  SAXAMASAAA
  MAMMMXMMMM
  MXMXAXMASX";

#[test]
fn day04_test_prepare() {
    let grid = prepare(EXAMPLE_INPUT);
    assert_eq!(grid.lines, 10);
    assert_eq!(grid.columns, 10);
    assert_eq!(grid.items[0], 'M');
    assert_eq!(grid.items[10], 'M');
    assert_eq!(grid.items[11], 'S');
    assert_eq!(grid.items[20], 'A')
}

#[test]
fn day04_example_part1() {
    assert_eq!(solve_part1(EXAMPLE_INPUT), 18);
}

#[test]
fn day04_example_part2() {
    assert_eq!(solve_part2(EXAMPLE_INPUT), 9);
}

#[test]
fn day04_words_in_every_direction() {
    let grid = prepare("XMAS SAMX");
    assert!(reads_xmas(&grid, &Position(0, 0), &Point(0, 1)));
    assert!(!reads_xmas(&grid, &Position(0, 0), &Point(1, 0)));
    assert!(reads_xmas(&grid, &Position(1, 3), &Point(0, -1)));
    assert!(!reads_xmas(&grid, &Position(0, 1), &Point(0, 1)));
    assert_eq!(solve_part1("XMAS SAMX"), 2);
    assert_eq!(solve_part1("X.. .M. ..A"), 0);
    assert_eq!(solve_part1("S..S..S .A.A.A. ..MMM.. SAMXMAS ..MMM.. .A.A.A. S..S..S"), 8);
    let cross = prepare("M.S .A. M.S");
    assert!(reads_mas(&cross, &Position(1, 1), -1, -1));
    assert!(!reads_mas(&cross, &Position(1, 1), 1, 1));
    assert!(reads_mas(&cross, &Position(1, 1), 1, -1));
    assert!(!reads_mas(&cross, &Position(0, 0), 1, 1));
    assert_eq!(solve_part2("M.S .A. M.S"), 1);
    assert_eq!(solve_part2("M.S .A. M.M"), 0);
}
