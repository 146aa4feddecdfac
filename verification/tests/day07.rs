use advent::days::day07::{
    add, calibrate, con, mul, parse, prepare, solve_equation, solve_equation_rec, solve_part1,
    solve_part2, Equation, Op,
};

const EXAMPLE_INPUT: &str = "190: 10 19
    3267: 81 40 27
    83: 17 5
    156: 15 6
    7290: 6 8 6 15
    161011: 16 10 13
    192: 17 8 14
    21037: 9 7 18 13
    292: 11 6 16 20";

#[test]
fn day07_example_part1() {
    assert_eq!(solve_part1(EXAMPLE_INPUT), 3749);
}

#[test]
fn day07_example_part2() {
    assert_eq!(solve_part2(EXAMPLE_INPUT), 11387);
}

#[test]
fn day07_preparation() {
    let eqs = prepare(EXAMPLE_INPUT);
    assert_eq!(eqs[0].test_value, 190);
    assert_eq!(eqs[0].operands, vec![10, 19]);
    assert_eq!(eqs[8].test_value, 292);
    assert_eq!(eqs[8].operands, vec![11, 6, 16, 20]);
}

#[test]
fn day07_operations() {
    assert_eq!(add(2, 3), Some(5));
    assert_eq!(add(u64::MAX, 1), None);
    assert_eq!(mul(4, 3), Some(12));
    assert_eq!(mul(u64::MAX, 2), None);
    assert_eq!(con(12, 345), Some(12345));
    assert_eq!(con(12, 0), Some(120));
    assert_eq!(con(0, 7), Some(7));
    assert_eq!(con(1, 9), Some(19));
    assert_eq!(con(1, 10), Some(110));
    assert_eq!(con(0, u64::MAX), Some(u64::MAX));
    assert_eq!(con(1, u64::MAX), None);
    assert_eq!(con(1844674407370955161, 5), Some(18446744073709551615));
    assert_eq!(con(1844674407370955161, 6), None);
    assert_eq!(con(18446744073709551615, 1), None);
}

#[test]
fn day07_solving() {
    let two = vec![Op::Add, Op::Mul];
    let three = vec![Op::Add, Op::Mul, Op::Con];
    let eq = |test_value: u64, operands: Vec<u64>| Equation { test_value, operands };
    assert!(solve_equation(&two, &eq(3267, vec![81, 40, 27])));
    assert!(!solve_equation(&two, &eq(156, vec![15, 6])));
    assert!(solve_equation(&three, &eq(156, vec![15, 6])));
    assert!(solve_equation(&three, &eq(7290, vec![6, 8, 6, 15])));
    assert!(!solve_equation(&three, &eq(21037, vec![9, 7, 18, 13])));
    assert!(solve_equation(&two, &eq(0, vec![])));
    assert!(!solve_equation(&two, &eq(1, vec![])));
    assert!(solve_equation_rec(&two, 10, 4, &vec![9, 6], 1));
    assert!(!solve_equation_rec(&two, 10, 11, &vec![9, 6], 2));
    assert_eq!(
        calibrate(&two, &vec![eq(190, vec![10, 19]), eq(83, vec![17, 5]), eq(6, vec![1, 2, 3])]),
        196
    );
}

#[test]
fn day07_malformed_lines() {
    assert!(parse("190 10 19").is_none());
    assert!(parse("190: 10 x").is_none());
    assert!(parse(": 10").is_none());
    assert!(parse("1: 2\n\n3: 4").is_none());
    assert_eq!(parse("5:").unwrap()[0].operands, Vec::<u64>::new());
}
