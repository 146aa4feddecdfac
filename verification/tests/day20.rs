use advent::days::day20::{
    compute_cheats, compute_cheats_upto, compute_distances, parse, prepare, solve_part1,
    solve_part2, Cell,
};

const EXAMPLE_INPUT: &str = "###############
        #...#...#.....#
        #.#.#.#.#.###.#
        #S#...#.#.#...#
        #######.#.#.###
        #######.#.#...#
        #######.#.###.#
        ###..E#...#...#
        ###.#######.###
        #...###...#...#
        #.#####.#.###.#
        #.#...#.#.#...#
        #.#.#.#.#.#.###
        #...#...#...###
        ###############";

#[test]
fn day20_example_part1() {
    assert_eq!(solve_part1(EXAMPLE_INPUT, 64, 64), 1);
    assert_eq!(solve_part1(EXAMPLE_INPUT, 40, 40), 1);
    assert_eq!(solve_part1(EXAMPLE_INPUT, 38, 38), 1);
    assert_eq!(solve_part1(EXAMPLE_INPUT, 36, 36), 1);
    assert_eq!(solve_part1(EXAMPLE_INPUT, 20, 20), 1);
    assert_eq!(solve_part1(EXAMPLE_INPUT, 12, 12), 3);
    assert_eq!(solve_part1(EXAMPLE_INPUT, 10, 10), 2);
    assert_eq!(solve_part1(EXAMPLE_INPUT, 8, 8), 4);
    assert_eq!(solve_part1(EXAMPLE_INPUT, 6, 6), 2);
    assert_eq!(solve_part1(EXAMPLE_INPUT, 4, 4), 14);
    assert_eq!(solve_part1(EXAMPLE_INPUT, 2, 2), 14);
}

#[test]
fn day20_example_part2() {
    // from part 1
    assert_eq!(solve_part2(EXAMPLE_INPUT, 64, 64, 2), 1);
    assert_eq!(solve_part2(EXAMPLE_INPUT, 40, 40, 2), 1);
    assert_eq!(solve_part2(EXAMPLE_INPUT, 38, 38, 2), 1);
    assert_eq!(solve_part2(EXAMPLE_INPUT, 36, 36, 2), 1);
    assert_eq!(solve_part2(EXAMPLE_INPUT, 20, 20, 2), 1);
    assert_eq!(solve_part2(EXAMPLE_INPUT, 12, 12, 2), 3);
    assert_eq!(solve_part2(EXAMPLE_INPUT, 10, 10, 2), 2);
    assert_eq!(solve_part2(EXAMPLE_INPUT, 8, 8, 2), 4);
    assert_eq!(solve_part2(EXAMPLE_INPUT, 6, 6, 2), 2);
    assert_eq!(solve_part2(EXAMPLE_INPUT, 4, 4, 2), 14);
    assert_eq!(solve_part2(EXAMPLE_INPUT, 2, 2, 2), 14);

    // with cheats up to 20 ps
    assert_eq!(solve_part2(EXAMPLE_INPUT, 76, 76, 20), 3);
    assert_eq!(solve_part2(EXAMPLE_INPUT, 74, 74, 20), 4);
    assert_eq!(solve_part2(EXAMPLE_INPUT, 70, 70, 20), 12);
    assert_eq!(solve_part2(EXAMPLE_INPUT, 72, 72, 20), 22);
    assert_eq!(solve_part2(EXAMPLE_INPUT, 50, 50, 20), 32);
}

#[test]
fn day20_measures_the_track() {
    let (mut map, start) = prepare("S.# #.. ..E");
    compute_distances(&mut map, start);
    assert_eq!(
        map.items,
        vec![
            Cell::Track(Some(0)),
            Cell::Track(Some(1)),
            Cell::Wall,
            Cell::Wall,
            Cell::Track(Some(2)),
            Cell::Track(Some(3)),
            Cell::Track(Some(6)),
            Cell::Track(Some(5)),
            Cell::Track(Some(4)),
        ]
    );
    // from (0,0) two cells south to (2,0): from 0 to 6, saving 4;
    // from (0,1) two cells south to (2,1): from 1 to 5, saving 2
    assert_eq!(compute_cheats(&map, 1, 10), vec![4, 2]);
    assert_eq!(compute_cheats(&map, 5, 10), Vec::<u64>::new());
    assert_eq!(compute_cheats_upto(&map, 4, 4, 2), 1);
    // from each of (0,0), (0,1) and (1,1) to each of (2,1) and (2,0)
    assert_eq!(compute_cheats_upto(&map, 1, 10, 3), 6);
    // the six steps of the track, which save nothing, and from (1,1) to (2,1)
    assert_eq!(compute_cheats_upto(&map, 0, 10, 1), 7);
    assert!(parse("..# #..").is_none());
    assert!(parse("S.x").is_none());
}
