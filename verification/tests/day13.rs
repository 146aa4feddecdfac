use advent::days::day13::{divide, far_tokens, prepare, solve_part1, solve_part2, tokens, Machine};

const EXAMPLE_INPUT: &str = "Button A: X+94, Y+34
Button B: X+22, Y+67
Prize: X=8400, Y=5400

Button A: X+26, Y+66
Button B: X+67, Y+21
Prize: X=12748, Y=12176

Button A: X+17, Y+86
Button B: X+84, Y+37
Prize: X=7870, Y=6450

Button A: X+69, Y+23
Button B: X+27, Y+71
Prize: X=18641, Y=10279";

#[test]
fn day13_example_part1() {
    assert_eq!(solve_part1(EXAMPLE_INPUT), Some(480));
}

#[test]
fn day13_example_part2() {
    assert_eq!(solve_part2(EXAMPLE_INPUT), Some(875318608908));
}

#[test]
fn day13_machines() {
    let all = prepare(EXAMPLE_INPUT).unwrap();
    assert_eq!(all.len(), 4);
    assert_eq!(
        all[0],
        Machine { a_x: 94, a_y: 34, b_x: 22, b_y: 67, prize_x: 8400, prize_y: 5400 }
    );
    assert_eq!(tokens(&all[0]), 280);
    assert_eq!(tokens(&all[1]), 0);
    assert_eq!(tokens(&all[2]), 200);
    assert_eq!(far_tokens(&all[0]), Some(0));
    assert_eq!(far_tokens(&all[1]), Some(3 * 118679050709 + 103199174542));
    // two ways to the prize: the cheaper one is the one with the second button
    let two = Machine { a_x: 2, a_y: 2, b_x: 1, b_y: 1, prize_x: 4, prize_y: 4 };
    assert_eq!(tokens(&two), 4);
    // the buttons move along one line
    assert_eq!(far_tokens(&two), None);
    assert_eq!(solve_part1("Button A: X+1, Y+1\nButton B: X+1, Y+2\nPrize: X=4611686018427387904, Y=5"), None);
    assert_eq!(solve_part1("nothing"), Some(0));
}

#[test]
fn day13_exact_division() {
    assert_eq!(divide(12, 4), Some(3));
    assert_eq!(divide(-12, 4), Some(-3));
    assert_eq!(divide(12, -4), Some(-3));
    assert_eq!(divide(-12, -4), Some(3));
    assert_eq!(divide(13, 4), None);
    assert_eq!(divide(-13, 4), None);
    assert_eq!(divide(0, -4), Some(0));
    assert_eq!(divide(5, 0), None);
    assert_eq!(divide(0, 0), None);
}
