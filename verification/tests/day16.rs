use advent::days::day16::{
    best_path_cells, compute_least_distances, costs, prepare, solve_part1, solve_part2, Cell,
};
use advent::etc::grid::Position;

const EXAMPLE_INPUT: &str = "###############
        #.......#....E#
        #.#.###.#.###.#
        #.....#.#...#.#
        #.###.#####.#.#
        #.#.#.......#.#
        #.#.#####.###.#
        #...........#.#
        ###.#.#####.#.#
        #...#.....#.#.#
        #.#.#.###.#.#.#
        #.....#...#.#.#
        #.###.#.#.#.#.#
        #S..#.....#...#
        ###############";

const EXAMPLE_INPUT_2: &str = "#################
        #...#...#...#..E#
        #.#.#.#.#.#.#.#.#
        #.#.#.#...#...#.#
        #.#.#.#.###.#.#.#
        #...#.#.#.....#.#
        #.#.#.#.#.#####.#
        #.#...#.#.#.....#
        #.#.#####.#.###.#
        #.#.#.......#...#
        #.#.###.#####.###
        #.#.#...#.....#.#
        #.#.#.#####.###.#
        #.#.#.........#.#
        #.#.#.#########.#
        #S#.............#
        #################";

#[test]
fn day16_example_part1() {
    assert_eq!(solve_part1(EXAMPLE_INPUT), Some(7036));
    assert_eq!(solve_part1(EXAMPLE_INPUT_2), Some(11048));
}

#[test]
fn day16_example_part2() {
    assert_eq!(solve_part2(EXAMPLE_INPUT), 45);
    assert_eq!(solve_part2(EXAMPLE_INPUT_2), 64);
}

#[test]
fn day16_turns_cost_a_thousand() {
    // straight east: three steps
    assert_eq!(solve_part1("S..E"), Some(3));
    // the end is behind the start: no way back without a wall to go round
    assert_eq!(solve_part1("E..S"), None);
    // one quarter turn and two steps
    assert_eq!(solve_part1("S. #E"), Some(1002));
    // north of the start: a turn to the left, then one step
    assert_eq!(solve_part1("E S"), Some(1001));
    assert_eq!(solve_part2("S..E"), 4);
    assert_eq!(solve_part2("E..S"), 0);
}

#[test]
fn day16_unreachable_end_is_none() {
    assert_eq!(solve_part1("S#E"), None);
    assert_eq!(solve_part2("S#E"), 0);
}

#[test]
fn day16_two_best_ways_are_both_kept() {
    // Going round the wall on either side costs the same from a start that
    // faces east: north side turns left, right, right; south side right, left, left.
    let input = "#.....#
                 #.###.#
                 S.###.E
                 #.###.#
                 #.....#";
    let (map, start, end) = prepare(input);
    let cells = best_path_cells(&map, start, end);
    let count = cells.iter().filter(|on| **on).count();
    assert_eq!(solve_part2(input), count as u64);
    assert!(cells[map.unchecked_index(&Position(0, 3))]);
    assert!(cells[map.unchecked_index(&Position(4, 3))]);
    assert!(!cells[map.unchecked_index(&Position(0, 0))]);
}

#[test]
fn day16_records_least_costs_in_cells() {
    let (mut map, start, end) = prepare("S..E #... ....");
    assert_eq!(compute_least_distances(&mut map, start, end), Some(3));
    assert_eq!(map.at(0, 0), Some(&Cell::Reached(0)));
    assert_eq!(map.at(0, 2), Some(&Cell::Reached(2)));
    assert_eq!(map.at(1, 0), Some(&Cell::Wall));
    assert_eq!(map.at(1, 1), Some(&Cell::Reached(1002)));
    assert_eq!(map.at(2, 1), Some(&Cell::Reached(1003)));
    assert_eq!(map.at(2, 0), Some(&Cell::Reached(2004)));
}

#[test]
fn day16_triangle_inequality_on_the_example() {
    let (map, start, _) = prepare(EXAMPLE_INPUT);
    let dist = costs(&map, start, 1);
    let directions = [(-1isize, 0isize), (0, 1), (1, 0), (0, -1)];
    for code in 0..dist.len() {
        let Some(cost) = dist[code] else { continue };
        let at = map.unchecked_position(code / 4);
        let facing = code % 4;
        for (turn, step) in [(0usize, 1u64), (1, 1001), (3, 1001)] {
            let heading = (facing + turn) % 4;
            let line = at.0 as isize + directions[heading].0;
            let column = at.1 as isize + directions[heading].1;
            let to = Position(line as usize, column as usize);
            if map.get(&to) == Some(&Cell::Wall) || map.get(&to).is_none() {
                continue;
            }
            let next = dist[4 * map.unchecked_index(&to) + heading].unwrap();
            assert!(next <= cost + step);
        }
    }
}

#[test]
fn day16_relaxation_never_raises_a_cost() {
    let mut dist = vec![None, Some(7), Some(1001)];
    advent::days::day16::relax(&mut dist, 0, 12);
    assert_eq!(dist, vec![Some(12), Some(7), Some(1001)]);
    advent::days::day16::relax(&mut dist, 1, 9);
    assert_eq!(dist, vec![Some(12), Some(7), Some(1001)]);
    advent::days::day16::relax(&mut dist, 2, 1000);
    assert_eq!(dist, vec![Some(12), Some(7), Some(1000)]);
    advent::days::day16::relax(&mut dist, 2, 1000);
    assert_eq!(dist, vec![Some(12), Some(7), Some(1000)]);
}
