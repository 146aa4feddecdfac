use advent::days::day08::{antinodes, count_antinodes, parse, prepare, solve_part1, solve_part2};
use advent::etc::grid::Position;

const EXAMPLE_INPUT: &str = "............
    ........0...
    .....0......
    .......0....
    ....0.......
    ......A.....
    ............
    ............
    ........A...
    .........A..
    ............
    ............";

#[test]
fn day08_example_part1() {
    assert_eq!(solve_part1(EXAMPLE_INPUT), 14);
}

#[test]
fn day08_example_part2() {
    assert_eq!(solve_part2(EXAMPLE_INPUT), 34);
}

#[test]
fn day08_antennas_in_storage_order() {
    let (grid, antennas) = prepare("a.b ..a ...");
    assert_eq!(grid.lines, 3);
    assert_eq!(antennas, vec![Position(0, 0), Position(0, 2), Position(1, 2)]);
    assert!(parse("a. b").is_none());
}

#[test]
fn day08_near_and_far_antinodes() {
    // two antennas two columns apart: the near antinodes are two columns beyond
    // each; the least step is one column, so the far ones are all the cells of
    // the line but the one between the two antennas
    let (grid, antennas) = prepare("..a.a....");
    let near = antinodes(&grid, &antennas, false);
    assert_eq!(near, vec![true, false, false, false, false, false, true, false, false]);
    let far = antinodes(&grid, &antennas, true);
    assert_eq!(far, vec![true, true, true, false, true, true, true, true, true]);
    // an offset of (2, 4) has the least step (1, 2): the cell between the two
    // antennas is left out, as it is not beyond either of them
    let (grid, antennas) = prepare("a........ ......... ....a.... ......... .........");
    let far = antinodes(&grid, &antennas, true);
    assert_eq!(far.iter().filter(|m| **m).count(), 4);
    assert!(far[0] && far[2 * 9 + 4] && far[3 * 9 + 6] && far[4 * 9 + 8] && !far[9 + 2]);
    assert_eq!(count_antinodes(&grid, &antennas, false), 1);
    // antennas of two frequencies make no antinode
    assert_eq!(solve_part1("a.b"), 0);
    assert_eq!(solve_part2("a.b"), 0);
    assert_eq!(solve_part2("a"), 0);
}
