use advent::days::day11::{
    blink_all, blink_once, count_by_blinking, count_by_memory, fast_blink_all, parse, prepare,
    solve_part1, solve_part2,
};
use std::collections::HashMap;

const EXAMPLE_INPUT: &str = "125 17";

#[test]
fn day11_example_part1() {
    assert_eq!(solve_part1(EXAMPLE_INPUT, 6), Some(22));
    assert_eq!(solve_part1(EXAMPLE_INPUT, 25), Some(55312));
}

#[test]
fn day11_example_part2() {
    assert_eq!(solve_part2(EXAMPLE_INPUT, 1), Some(3));
    assert_eq!(solve_part2(EXAMPLE_INPUT, 2), Some(4));
    assert_eq!(solve_part2(EXAMPLE_INPUT, 3), Some(5));
    assert_eq!(solve_part2(EXAMPLE_INPUT, 4), Some(9));
    assert_eq!(solve_part2(EXAMPLE_INPUT, 6), Some(22));
    assert_eq!(solve_part2(EXAMPLE_INPUT, 25), Some(55312));
}

#[test]
fn day11_blinks() {
    assert_eq!(blink_once(0), Some((1, None)));
    assert_eq!(blink_once(1), Some((2024, None)));
    assert_eq!(blink_once(10), Some((1, Some(0))));
    assert_eq!(blink_once(99), Some((9, Some(9))));
    assert_eq!(blink_once(999), Some((2021976, None)));
    assert_eq!(blink_once(1000), Some((10, Some(0))));
    assert_eq!(blink_once(253000), Some((253, Some(0))));
    assert_eq!(blink_once(512072), Some((512, Some(72))));
    // twenty digits
    assert_eq!(blink_once(u64::MAX), Some((1844674407, Some(3709551615))));
    assert_eq!(blink_once(10000000000000000000), Some((1000000000, Some(0))));
    // nineteen digits, and too great to be multiplied
    assert_eq!(blink_once(1000000000000000000), None);
    assert_eq!(blink_once(100000000000000), Some((202400000000000000, None)));
    assert_eq!(
        blink_all(&vec![0, 1, 10, 99, 999]),
        Some(vec![1, 2024, 1, 0, 9, 9, 2021976])
    );
    assert_eq!(blink_all(&vec![1, 1000000000000000000]), None);
    assert_eq!(prepare(" 125  17\n"), vec![125, 17]);
    assert!(parse("125 x").is_none());
}

#[test]
fn day11_both_counts_agree() {
    let stones = vec![125, 17, 0, 99, 4096];
    for blinks in 0..20 {
        assert_eq!(
            count_by_blinking(&stones, blinks).map(|n| n as u64),
            count_by_memory(&stones, blinks)
        );
    }
    let mut memo = HashMap::new();
    assert_eq!(fast_blink_all(&mut memo, 125, 6), Some(7));
    assert_eq!(fast_blink_all(&mut memo, 125, 6), Some(7));
    assert_eq!(fast_blink_all(&mut memo, 17, 0), Some(1));
    assert_eq!(count_by_memory(&vec![], 75), Some(0));
}

#[test]
fn day11_numbers_too_great_give_no_count() {
    // nineteen digits: the stone is multiplied, and no longer fits
    let stone: u64 = 9_999_999_999_999_999_999;
    assert_eq!(blink_once(stone), None);
    assert_eq!(blink_all(&vec![1, stone]), None);
    assert_eq!(count_by_blinking(&vec![1, stone], 0), Some(2));
    assert_eq!(count_by_blinking(&vec![1, stone], 1), None);
    assert_eq!(count_by_memory(&vec![1, stone], 0), Some(2));
    assert_eq!(count_by_memory(&vec![1, stone], 1), None);
    assert_eq!(solve_part1("9999999999999999999", 3), None);
    assert_eq!(solve_part2("9999999999999999999", 3), None);
    // twenty digits are split
    assert_eq!(blink_once(10_000_000_000_000_000_000), Some((1_000_000_000, Some(0))));
}
