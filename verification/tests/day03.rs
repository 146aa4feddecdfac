use advent::days::day03::{instruction, run, solve_part1, solve_part2, Instruction};

const EXAMPLE_INPUT1: &str =
    "xmul(2,4)%&mul[3,7]!@^do_not_mul(5,5)+mul(32,64]then(mul(11,8)mul(8,5))";

const EXAMPLE_INPUT2: &str =
    "xmul(2,4)&mul[3,7]!^don't()_mul(5,5)+mul(32,64](mul(11,8)undo()?mul(8,5))";

#[test]
fn day03_example_part1() {
    assert_eq!(solve_part1(EXAMPLE_INPUT1), Some(161));
}

#[test]
fn day03_example_part2() {
    assert_eq!(solve_part2(EXAMPLE_INPUT2), Some(48));
}

#[test]
fn day03_overflow_is_none() {
    assert_eq!(solve_part1("mul(18446744073709551615,1)"), Some(u64::MAX));
    assert_eq!(solve_part1("mul(18446744073709551615,2)"), None);
    assert_eq!(solve_part1("mul(18446744073709551616,1)"), None);
    assert_eq!(solve_part1("mul(18446744073709551615,1)mul(1,1)"), None);
    // a product that is disabled is not computed
    assert_eq!(solve_part2("don't()mul(18446744073709551615,2)do()mul(2,3)"), Some(6));
    assert_eq!(solve_part2("do()mul(18446744073709551615,2)do()mul(2,3)"), None);
    assert_eq!(solve_part1("nothing"), Some(0));
}

#[test]
fn day03_instructions() {
    let chars = |s: &str| Some(s.chars().collect::<Vec<char>>());
    assert_eq!(
        instruction(&vec![chars("mul(2,4)"), chars("2"), chars("4")]),
        Some(Instruction::Mul(2, 4))
    );
    assert_eq!(instruction(&vec![chars("do()"), None, None]), Some(Instruction::Do));
    assert_eq!(instruction(&vec![chars("don't()"), None, None]), Some(Instruction::Dont));
    assert_eq!(instruction(&vec![chars("mul(2,4)"), None, chars("4")]), None);
    assert_eq!(instruction(&vec![chars("mul(2,4)"), chars("2")]), None);
    assert_eq!(instruction(&vec![chars("x"), None, None]), None);
    let code = vec![
        Instruction::Mul(2, 4),
        Instruction::Dont,
        Instruction::Mul(5, 5),
        Instruction::Do,
        Instruction::Mul(8, 5),
    ];
    assert_eq!(run(&code, false), Some(8 + 25 + 40));
    assert_eq!(run(&code, true), Some(8 + 40));
}
