use advent::days::day15::{
    compute_score, parse, prepare, solve, solve_part1, solve_part2, try_make_free, try_move, walk,
    widen, Cell, Changes,
};
use advent::{Grid, Point, Position, Solution};

const SMALLER_EXAMPLE_INPUT: &str = "########
#..O.O.#
##@.O..#
#...O..#
#.#.O..#
#...O..#
#......#
########

<^^>>>vv<v>>v<<";

const EXAMPLE_INPUT: &str = "##########
#..O..O.O#
#......O.#
#.OO..O.O#
#..O@..O.#
#O#..O...#
#O..O..O.#
#.OO.O.OO#
#....O...#
##########

<vv>^<v^>v>^vv^v>v<>v^v<v<^vv<<<^><<><>>v<vvv<>^v^>^<<<><<v<<<v^vv^v>^
vvv<<^>^v^^><<>>><>^<<><^vv^^<>vvv<>><^^v>^>vv<>v<<<<v<^v>^<^^>>>^<v<v
><>vv>v^v^<>><>>>><^^>vv>v<^^^>>v^v^<^^>v^^>v^<^v>v<>>v^v^<v>v^^<^^vv<
<<v<^>>^^^^>>>v^<>vvv^><v<<<>^^^vv^<vvv>^>v<^^^^v<>^>vvvv><>>v^<<^^^^^
^><^><>>><>^^<<^^v>>><^<v>^<vv>>v>>>^v><>^v><<<<v>>v<v<v>vvv>^<><<>^><
^>><>^v<><^vvv<^^<><v<<<<<><^v<<<><<<^^<v<^^^><^>>^<v^><<<^>>^v<v^v<v^
>^>>^v>vv>^<<^v<>><<><<v<<v><>v<^vv<<<>^^v^>^^>>><<^v>>v^v><^^>>^<>vv^
<><^^>^^^<><vvvvv^v<v<<>^v<v>v<<^><<><<><<<^^<<<^<<>><<><^^^>^^<>^>v<>
^^>vv<^v^v<vv>^<><v<^v>^^^>>>^^vvv^>vvv<>>>^<^>>>>>^<<^v>^vvv<>^<><<v>
v^^>>><<^^<>>^v^<v^vv<>v^<<>^<^v^v><^<<<><<^<v><v<>vv>>v><v^<vv<>v^<<^";

const EXAMPLE_INPUT_2: &str = "#######
#...#.#
#.....#
#..OO@#
#..O..#
#.....#
#######

<vv<<^^<<^^";

fn warehouse(lines: usize, columns: usize, items: Vec<Cell>) -> Grid<Cell> {
    Grid { lines, columns, items }
}

#[test]
fn day15_example_part1() {
    assert_eq!(solve_part1(SMALLER_EXAMPLE_INPUT), Some(2028));
    assert_eq!(solve_part1(EXAMPLE_INPUT), Some(10092));
}

#[test]
fn day15_example_part2() {
    assert_eq!(solve_part2(EXAMPLE_INPUT_2), Some(105 + 207 + 306));
    assert_eq!(solve_part2(EXAMPLE_INPUT), Some(9021));
}

#[test]
fn units() {
    let u: &str = "#######
#.....#
#..O..#
#..@..#
#######

^";
    assert_eq!(solve_part2(u), Some(106));

    let u: &str = "#######
#.....#
#..O..#
#..@..#
#######

>^";
    assert_eq!(solve_part2(u), Some(106));

    let u: &str = "#######
#..@..#
#..O..#
#.....#
#######

v";
    assert_eq!(solve_part2(u), Some(306));

    let u: &str = "#######
#..@..#
#..O..#
#.....#
#######

>v";
    assert_eq!(solve_part2(u), Some(306));

    let u: &str = "#######
#.....#
#.OO.@#
#.....#
#######

<<<<<";
    assert_eq!(solve_part2(u), Some(406));

    let u: &str = "#######
#.....#
#@.OO.#
#.....#
#######

>>>>>";
    assert_eq!(solve_part2(u), Some(418));

    let u: &str = "######
#....#
#OOO.#
#O.O.#
#OOO.#
#.OO@#
#.O..#
#....#
######

<vv<<^";
    let expect: &str = "######
#O.O.#
#OOO.#
#OOO.#
#.OO@#
#.O..#
#....#
######

<";

    assert_eq!(solve_part2(u), solve_part2(expect));
}

#[test]
fn day15_preparation() {
    let (map, start, moves) = prepare(EXAMPLE_INPUT_2);
    assert_eq!((map.lines, map.columns), (7, 7));
    assert_eq!(start, Position(3, 5));
    assert_eq!(map.at(3, 5), Some(&Cell::Free));
    assert_eq!(map.at(3, 4), Some(&Cell::Pack));
    assert_eq!(map.at(0, 0), Some(&Cell::Wall));
    assert_eq!(map.at(1, 1), Some(&Cell::Free));
    assert_eq!(moves.len(), 11);
    assert_eq!(moves[0], Point::west());
    assert_eq!(moves[1], Point::south());
    assert_eq!(moves[5], Point::north());
}

#[test]
fn day15_text_without_map_or_robot_is_refused() {
    let chars = |s: &str| s.chars().collect::<Vec<char>>();
    assert!(parse(&chars("###\n#@#\n###")).is_none());
    assert!(parse(&chars("###\n#.#\n###\n\n<")).is_none());
    assert!(parse(&chars("###\n#@\n###\n\n<")).is_none());
    assert!(parse(&chars("###\n#@x\n###\n\n<")).is_none());
    assert!(parse(&chars("###\n#@#\n###\n\n")).is_some());
    assert_eq!(solve_part1("no map"), None);
    assert_eq!(solve("no map".to_string()), None);
}

#[test]
fn day15_other_characters_among_moves_are_passed_over() {
    let text: Vec<char> = "#@.#\n\n> x\n<\nv^".chars().collect();
    let (_, _, moves) = parse(&text).unwrap();
    assert_eq!(moves, vec![Point::east(), Point::west(), Point::south(), Point::north()]);
}

#[test]
fn day15_widen_doubles_the_map() {
    let text: Vec<char> = "#O.@\n\n<>".chars().collect();
    let wide: String = widen(&text).into_iter().collect();
    assert_eq!(wide, "##[]..@.\n\n<>");
}

#[test]
fn day15_free_cell_needs_no_change() {
    let map = warehouse(1, 3, vec![Cell::Free, Cell::Free, Cell::Wall]);
    let changes = try_make_free(&map, &Point::east(), &Position(0, 1)).unwrap();
    assert!(changes.free.is_empty() && changes.update.is_empty());
    assert!(try_make_free(&map, &Point::east(), &Position(0, 2)).is_none());
    assert!(try_make_free(&map, &Point::east(), &Position(0, 3)).is_none());
}

#[test]
fn day15_row_of_packs_is_pushed_together() {
    let mut map = warehouse(1, 5, vec![Cell::Free, Cell::Pack, Cell::Pack, Cell::Free, Cell::Wall]);
    let changes = try_make_free(&map, &Point::east(), &Position(0, 1)).unwrap();
    assert_eq!(changes.free, vec![Position(0, 2), Position(0, 1)]);
    assert_eq!(
        changes.update,
        vec![(Position(0, 3), Cell::Pack), (Position(0, 2), Cell::Pack)]
    );
    let mut robot = Position(0, 0);
    assert!(try_move(&mut map, &Point::east(), &mut robot));
    assert_eq!(robot, Position(0, 1));
    assert_eq!(map.items, vec![Cell::Free, Cell::Free, Cell::Pack, Cell::Pack, Cell::Wall]);
    // the wall is now in the way
    assert!(!try_move(&mut map, &Point::east(), &mut robot));
    assert_eq!(robot, Position(0, 1));
    assert_eq!(map.items, vec![Cell::Free, Cell::Free, Cell::Pack, Cell::Pack, Cell::Wall]);
    // and so is the edge of the map
    let mut robot = Position(0, 0);
    assert!(!try_move(&mut map, &Point::west(), &mut robot));
    assert!(!try_move(&mut map, &Point::north(), &mut robot));
}

#[test]
fn day15_wide_box_is_pushed_by_either_half() {
    for column in [1, 2] {
        let mut map = warehouse(
            3,
            4,
            vec![
                Cell::Free, Cell::Free, Cell::Free, Cell::Free,
                Cell::Free, Cell::BoxLeft, Cell::BoxRight, Cell::Free,
                Cell::Free, Cell::Free, Cell::Free, Cell::Free,
            ],
        );
        let mut robot = Position(2, column);
        assert!(try_move(&mut map, &Point::north(), &mut robot));
        assert_eq!(robot, Position(1, column));
        assert_eq!(map.at(0, 1), Some(&Cell::BoxLeft));
        assert_eq!(map.at(0, 2), Some(&Cell::BoxRight));
        assert_eq!(map.at(1, 1), Some(&Cell::Free));
        assert_eq!(map.at(1, 2), Some(&Cell::Free));
        // at the edge the box stays
        assert!(!try_move(&mut map, &Point::north(), &mut robot));
        assert_eq!(map.at(0, 1), Some(&Cell::BoxLeft));
    }
}

#[test]
fn day15_wall_above_one_half_holds_the_box() {
    let mut map = warehouse(
        3,
        2,
        vec![Cell::Free, Cell::Wall, Cell::BoxLeft, Cell::BoxRight, Cell::Free, Cell::Free],
    );
    let before = map.items.clone();
    let mut robot = Position(2, 0);
    assert!(!try_move(&mut map, &Point::north(), &mut robot));
    assert_eq!(map.items, before);
    assert_eq!(robot, Position(2, 0));
}

#[test]
fn day15_changes_free_first_and_then_fill() {
    let mut map = warehouse(1, 3, vec![Cell::Pack, Cell::Pack, Cell::Free]);
    let mut changes = Changes { free: vec![Position(0, 1)], update: vec![(Position(0, 1), Cell::Wall)] };
    let mut more = Changes { free: vec![Position(0, 0)], update: vec![(Position(0, 2), Cell::BoxLeft)] };
    changes.append(&mut more);
    assert!(more.free.is_empty() && more.update.is_empty());
    assert_eq!(changes.free, vec![Position(0, 1), Position(0, 0)]);
    changes.apply(&mut map);
    assert_eq!(map.items, vec![Cell::Free, Cell::Wall, Cell::BoxLeft]);
}

#[test]
fn day15_score_counts_packs_and_left_halves() {
    let map = warehouse(
        2,
        3,
        vec![Cell::Pack, Cell::Wall, Cell::BoxRight, Cell::Free, Cell::BoxLeft, Cell::Pack],
    );
    assert_eq!(compute_score(&map), Some(0 + 101 + 102));
    assert_eq!(compute_score(&warehouse(0, 0, vec![])), Some(0));
}

#[test]
fn day15_walk_makes_every_move() {
    let (mut map, mut robot, moves) = prepare(SMALLER_EXAMPLE_INPUT);
    walk(&mut map, &mut robot, &moves);
    assert_eq!(robot, Position(4, 4));
    assert_eq!(compute_score(&map), Some(2028));
}

#[test]
fn day15_solve_pairs_both_answers() {
    assert_eq!(
        solve(EXAMPLE_INPUT.to_string()),
        Some((Solution::U64(10092), Solution::U64(9021)))
    );
}
