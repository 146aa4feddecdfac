use advent::days::day01::{
    occurrences, parse, prepare, similarity, solve_part1, solve_part2, total_distance,
};
use advent::etc::sort::sort;

const EXAMPLE_INPUT: &str = "3   4
        4   3
        2   5
        1   3
        3   9
        3   3";

#[test]
fn day01_example_part1() {
    assert_eq!(solve_part1(EXAMPLE_INPUT), 11);
}

#[test]
fn day01_example_part2() {
    assert_eq!(solve_part2(EXAMPLE_INPUT), 31);
}

#[test]
fn day01_reads_two_columns() {
    assert_eq!(advent::days::day01::line("  12   7 "), (12, 7));
    assert_eq!(prepare("1 2\n30 40\n"), (vec![1, 30], vec![2, 40]));
    assert_eq!(parse("1 2\nx 4"), None);
    assert_eq!(parse("1 2\n3"), None);
    assert_eq!(parse("1 2\n\n3 4"), None);
    assert_eq!(parse(""), Some((vec![], vec![])));
}

#[test]
fn day01_distance_and_similarity() {
    assert_eq!(total_distance(&vec![3, 1], &vec![10, 2]), 1 + 7);
    assert_eq!(total_distance(&vec![], &vec![]), 0);
    assert_eq!(occurrences(&vec![4, 3, 5, 3, 9, 3], 3), 3);
    assert_eq!(occurrences(&vec![4, 3, 5, 3, 9, 3], 7), 0);
    assert_eq!(similarity(&vec![3, 7, 4], &vec![4, 3, 5, 3, 9, 3]), 9 + 0 + 4);
}

#[test]
fn sort_gives_rising_order() {
    assert_eq!(sort(&vec![3, 1, 2, 3, 0, 9, 1]), vec![0, 1, 1, 2, 3, 3, 9]);
    assert_eq!(sort(&vec![]), Vec::<u64>::new());
    assert_eq!(sort(&vec![5]), vec![5]);
}
