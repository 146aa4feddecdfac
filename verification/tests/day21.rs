use advent::days::day21::{
    build_system, code_complexity, directional_keypad_action, id_of, numeric_value,
    numerical_keypad_action, parse, prepare, solve_part1, solve_part2, state_of, transition,
    DirectionalKey, NumericalKey, State,
};
use advent::days::day21::DirectionalKey::{Actionate, Down, Left, Right, Up};

const EXAMPLE_INPUT: &str = "029A
        980A
        179A
        456A
        379A";

#[test]
fn day21_example_part1() {
    assert_eq!(solve_part1(EXAMPLE_INPUT), Some(126384));
}

#[test]
fn day21_keypads() {
    assert_eq!(directional_keypad_action(Up, Right), Some((Actionate, None)));
    assert_eq!(directional_keypad_action(Up, Left), None);
    assert_eq!(directional_keypad_action(Left, Up), None);
    assert_eq!(directional_keypad_action(Left, Actionate), Some((Left, Some(Left))));
    assert_eq!(directional_keypad_action(Actionate, Down), Some((Right, None)));
    assert_eq!(directional_keypad_action(Actionate, Right), None);
    assert_eq!(numerical_keypad_action(NumericalKey::Digit(7), Up), None);
    assert_eq!(numerical_keypad_action(NumericalKey::Digit(1), Down), None);
    assert_eq!(numerical_keypad_action(NumericalKey::Digit(0), Left), None);
    assert_eq!(
        numerical_keypad_action(NumericalKey::Digit(0), Right),
        Some((NumericalKey::Actionate, None))
    );
    assert_eq!(
        numerical_keypad_action(NumericalKey::Digit(5), Left),
        Some((NumericalKey::Digit(4), None))
    );
    assert_eq!(
        numerical_keypad_action(NumericalKey::Digit(12), Actionate),
        Some((NumericalKey::Digit(12), Some(NumericalKey::Digit(12))))
    );
    assert_eq!(numerical_keypad_action(NumericalKey::Digit(12), Up), None);
}

#[test]
fn day21_transitions() {
    let start = State::default();
    assert_eq!(start.numerical_keypad, NumericalKey::Actionate);
    // pressing the key of the person presses all the way down
    assert_eq!(transition(&start, Actionate), Some((start, Some(NumericalKey::Actionate))));
    let moved = transition(&start, Left).unwrap();
    assert_eq!(moved.0.directional_keypad1, Up);
    assert_eq!(moved.1, None);
    // the first arm presses `up`: the second arm cannot go up from its key
    assert_eq!(transition(&moved.0, Actionate), None);
    for id in 0..275 {
        assert_eq!(id_of(&state_of(id)), id);
    }
    assert_eq!(id_of(&start), 274);
}

#[test]
fn day21_codes() {
    let codes = prepare(EXAMPLE_INPUT);
    assert_eq!(codes.len(), 5);
    assert_eq!(
        codes[0],
        [
            NumericalKey::Digit(0),
            NumericalKey::Digit(2),
            NumericalKey::Digit(9),
            NumericalKey::Actionate
        ]
    );
    assert_eq!(numeric_value(&codes[0]), 29);
    assert_eq!(numeric_value(&codes[1]), 980);
    let edges = build_system();
    assert_eq!(code_complexity(&edges, &codes[0]), Some(68 * 29));
    assert_eq!(code_complexity(&edges, &codes[4]), Some(64 * 379));
    assert!(parse("02A").is_none());
    assert!(parse("02BA").is_none());
    assert_eq!(solve_part2(EXAMPLE_INPUT), 1);
}

#[test]
fn test_graph() {
    let edges = build_system();
    let g = petgraph::graph::DiGraph::<(), ()>::from_edges(
        edges.iter().map(|&(a, b)| (a as u32, b as u32)),
    );
    // system has 11*5*5 configurations
    assert_eq!(g.node_count(), 275);
}

#[test]
fn day21_example_part2() {
    assert_eq!(solve_part2(EXAMPLE_INPUT), 1);
}
