use advent::days::day22::{advance, most_bananas, next_secret, parse, prepare, sell, solve_part1, solve_part2};

const EXAMPLE_INPUT: &str = "1
    10
    100
    2024";

const EXAMPLE_INPUT_2: &str = "1
        2
        3
        2024";

#[test]
fn day22_example_part1() {
    assert_eq!(solve_part1(EXAMPLE_INPUT), 37327623);
}

#[test]
fn day22_example_part2() {
    assert_eq!(solve_part2(EXAMPLE_INPUT_2), 23);
}

#[test]
fn day22_secrets() {
    assert_eq!(next_secret(123), 15887950);
    assert_eq!(next_secret(15887950), 16495136);
    assert_eq!(next_secret(16495136), 527345);
    assert_eq!(advance(123, 10), 5908254);
    assert_eq!(advance(123, 0), 123);
    assert_eq!(advance(1, 2000), 8685429);
    assert_eq!(advance(2024, 2000), 8667524);
    assert_eq!(next_secret(u32::MAX), next_secret(0xffffff));
    assert_eq!(prepare("1 2\n 3"), vec![1, 2, 3]);
    assert!(parse("1 4294967296").is_none());
    assert!(parse("1 x").is_none());
    assert_eq!(most_bananas(&vec![]), 0);
}

#[test]
fn day22_selling() {
    // the prices after 123 are 3, 0, 6, 5, 4, 4, 6, 4, 4, 2: the changes
    // -1, -1, 0, 2 are first seen when the price is 6
    let signal = |a: i64, b: i64, c: i64, d: i64| {
        ((((a + 9) * 19 + (b + 9)) * 19 + (c + 9)) * 19 + (d + 9)) as usize
    };
    let mut table = vec![0u64; 130321];
    let mut seen = vec![0usize; 130321];
    sell(123, &mut table, &mut seen, 1);
    assert_eq!(table[signal(-1, -1, 0, 2)], 6);
    assert_eq!(seen[signal(-1, -1, 0, 2)], 1);
    assert_eq!(table[signal(-3, 6, -1, -1)], 4);
    assert_eq!(most_bananas(&vec![123]), 9);
    assert_eq!(most_bananas(&vec![1, 2, 3, 2024]), 23);
}
