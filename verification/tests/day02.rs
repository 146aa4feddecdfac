use advent::days::day02::{
    check_xcreasing, check_xcreasing_from, check_xcreasing_with_dampener, parse, prepare,
    solve_part1, solve_part2,
};

const EXAMPLE_INPUT: &str = "7 6 4 2 1
      1 2 7 8 9
      9 7 6 2 1
      1 3 2 4 5
      8 6 4 4 1
      1 3 6 7 9";

#[test]
fn day02_example_part1() {
    assert_eq!(solve_part1(EXAMPLE_INPUT), 2);
}

#[test]
fn day02_example_part2() {
    assert_eq!(solve_part2(EXAMPLE_INPUT), 4);
}

fn check_increasing_with_dampener(pos: usize, report: &Vec<u8>) -> bool {
    check_xcreasing_with_dampener(true, pos, report)
}

fn check_decreasing_with_dampener(pos: usize, report: &Vec<u8>) -> bool {
    check_xcreasing_with_dampener(false, pos, report)
}

#[test]
fn increasing() {
    assert!(check_increasing_with_dampener(1, &vec![50, 48, 50]));
    assert!(!check_increasing_with_dampener(1, &vec![50, 48, 48, 50]));
}

#[test]
fn decreasing() {
    assert!(check_decreasing_with_dampener(1, &vec![50, 48, 50]));
    assert!(!check_decreasing_with_dampener(1, &vec![50, 48, 48, 50]));
    assert!(check_decreasing_with_dampener(1, &vec![50, 48, 50]));
}

#[test]
fn bugs() {
    assert!(check_decreasing_with_dampener(1, &vec![26, 25, 22, 24, 23]));
    assert!(check_increasing_with_dampener(1, &vec![66, 68, 67, 68, 70]));
    assert!(check_increasing_with_dampener(
        1,
        &vec![53, 50, 54, 56, 59, 60, 62]
    ));
}

#[test]
fn day02_gentle_steps() {
    assert!(check_xcreasing(true, 1, 4));
    assert!(!check_xcreasing(true, 1, 5));
    assert!(!check_xcreasing(true, 1, 1));
    assert!(!check_xcreasing(true, 4, 1));
    assert!(check_xcreasing(false, 4, 1));
    assert!(!check_xcreasing(false, 5, 1));
    assert!(!check_xcreasing(false, 255, 255));
    assert!(check_xcreasing(true, 252, 255));
    assert!(check_xcreasing_from(true, 1, &vec![1, 2, 4, 7]));
    assert!(!check_xcreasing_from(true, 1, &vec![1, 2, 4, 8]));
    assert!(check_xcreasing_from(true, 3, &vec![9, 9, 4, 7]));
    assert!(check_xcreasing_from(false, 1, &vec![]));
    assert!(check_xcreasing_from(false, 1, &vec![3]));
}

#[test]
fn day02_reads_reports() {
    assert_eq!(advent::days::day02::line("7 6 4"), vec![7, 6, 4]);
    assert_eq!(prepare("7 6\n1 2 3\n"), vec![vec![7, 6], vec![1, 2, 3]]);
    assert_eq!(parse("7 6\n1 256"), None);
    assert_eq!(parse("7 6\n1 a"), None);
    assert_eq!(parse("255"), Some(vec![vec![255]]));
}
