use advent::days::day25::{count_fits, key_fits, parse, prepare, solve_part1, solve_part2};

const EXAMPLE_INPUT: &str = "#####
        .####
        .####
        .####
        .#.#.
        .#...
        .....

        #####
        ##.##
        .#.##
        ...##
        ...#.
        ...#.
        .....

        .....
        #....
        #....
        #...#
        #.#.#
        #.###
        #####

        .....
        .....
        #.#..
        ###..
        ###.#
        ###.#
        #####

        .....
        .....
        .....
        #....
        #.#..
        #.#.#
        #####";

#[test]
fn day25_example_part1() {
    assert_eq!(solve_part1(EXAMPLE_INPUT), 3);
}

#[test]
fn day25_reads_locks_and_keys() {
    let (locks, keys) = prepare(EXAMPLE_INPUT);
    assert_eq!(locks, vec![[0, 5, 3, 4, 3], [1, 2, 0, 5, 3]]);
    assert_eq!(keys, vec![[5, 0, 2, 1, 3], [4, 3, 4, 0, 2], [3, 0, 2, 0, 1]]);
    assert!(key_fits(&[0, 5, 3, 4, 3], &[3, 0, 2, 0, 1]));
    assert!(!key_fits(&[0, 5, 3, 4, 3], &[5, 0, 2, 1, 3]));
    assert!(key_fits(&[5, 5, 5, 5, 5], &[0, 0, 0, 0, 0]));
    assert!(!key_fits(&[5, 5, 5, 5, 5], &[0, 0, 0, 0, 1]));
    assert_eq!(count_fits(&locks, &keys), 3);
    assert_eq!(count_fits(&locks, &vec![]), 0);
    assert!(parse("##### ..... ..... ..... ..... ..... .....").is_some());
    assert!(parse("##### ..... ..... ..... ..... .....").is_none());
    assert!(parse("##### .... ..... ..... ..... ..... .....").is_none());
}

#[test]
fn day25_example_part2() {
    assert_eq!(solve_part2(EXAMPLE_INPUT), ());
}
