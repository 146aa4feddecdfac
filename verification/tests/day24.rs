use advent::days::day24::{
    evaluate_circuit, exchange, find_fixes, make_wire, match_and, match_op, match_or, match_out,
    match_xor, prepare, read_gate, read_number_of, read_signal, same_wire, solve, solve_part1,
    solve_part2, sort_wires, trim, wire_before, wire_name, Gate, GateVec, Op, Wire, WireValueMap,
};
use advent::Solution;

const EXAMPLE_INPUT: &str = "x00: 1
    x01: 1
    x02: 1
    y00: 0
    y01: 1
    y02: 0

    x00 AND y00 -> z00
    x01 XOR y01 -> z01
    x02 OR y02 -> z02";

const ADDER: &str = "x00: 1
y00: 1
x01: 0
y01: 1

x00 XOR y00 -> z00
x00 AND y00 -> c00
x01 XOR y01 -> h01
h01 XOR c00 -> z01
x01 AND y01 -> a01
h01 AND c00 -> t01
a01 OR t01 -> z02
";

const ADDER_WITH_SUM_EXCHANGED: &str = "x00: 1
y00: 1
x01: 0
y01: 1

x00 XOR y00 -> z00
x00 AND y00 -> c00
x01 XOR y01 -> h01
h01 XOR c00 -> t01
x01 AND y01 -> a01
h01 AND c00 -> z01
a01 OR t01 -> z02
";

const ADDER_WITH_HALF_EXCHANGED: &str = "x00: 1
y00: 1
x01: 0
y01: 1

x00 XOR y00 -> z00
x00 AND y00 -> c00
x01 XOR y01 -> a01
h01 XOR c00 -> z01
x01 AND y01 -> h01
h01 AND c00 -> t01
a01 OR t01 -> z02
";

fn chars(s: &str) -> Vec<char> {
    s.chars().collect()
}

fn other(name: &str) -> Wire {
    Wire::Other(name.to_string())
}

fn gate(op: Op, lhs: Wire, rhs: Wire, out: Wire) -> Gate {
    Gate { op, lhs, rhs, out }
}

#[test]
fn test_make_wire() {
    assert_eq!(make_wire("z00"), Some(Wire::Z(0)));
    assert_eq!(make_wire("z01"), Some(Wire::Z(1)));
    assert_eq!(make_wire("z24"), Some(Wire::Z(24)));
}

#[test]
fn day24_test_prepare() {
    let (available, gates) = prepare(EXAMPLE_INPUT).unwrap();
    let mut expected = WireValueMap::new();
    expected.insert(Wire::X(0), true);
    expected.insert(Wire::X(1), true);
    expected.insert(Wire::X(2), true);
    expected.insert(Wire::Y(0), false);
    expected.insert(Wire::Y(1), true);
    expected.insert(Wire::Y(2), false);
    assert_eq!(available, expected);
    assert_eq!(
        gates,
        vec![
            gate(Op::And, Wire::X(0), Wire::Y(0), Wire::Z(0)),
            gate(Op::Xor, Wire::X(1), Wire::Y(1), Wire::Z(1)),
            gate(Op::Or, Wire::X(2), Wire::Y(2), Wire::Z(2)),
        ]
    );
}

#[test]
fn day24_example_part1() {
    assert_eq!(solve_part1(EXAMPLE_INPUT), Some(4));
}

#[test]
fn day24_wires_by_name() {
    assert_eq!(make_wire("x07"), Some(Wire::X(7)));
    assert_eq!(make_wire("y99"), Some(Wire::Y(99)));
    assert_eq!(make_wire("abc"), Some(other("abc")));
    assert_eq!(make_wire(""), Some(other("")));
    assert_eq!(make_wire("z+5"), Some(Wire::Z(5)));
    assert_eq!(make_wire("z123"), Some(Wire::Z(12)));
    assert_eq!(make_wire("z1"), None);
    assert_eq!(make_wire("xab"), None);
    assert_eq!(make_wire("y-1"), None);
}

#[test]
fn day24_wire_names_have_two_digits_at_least() {
    assert_eq!(wire_name(&Wire::X(0)), chars("x00"));
    assert_eq!(wire_name(&Wire::Y(9)), chars("y09"));
    assert_eq!(wire_name(&Wire::Z(45)), chars("z45"));
    assert_eq!(wire_name(&Wire::Z(100)), chars("z100"));
    assert_eq!(wire_name(&other("gjq")), chars("gjq"));
}

#[test]
fn day24_wire_order() {
    assert!(wire_before(&other("zzz"), &Wire::X(0)));
    assert!(wire_before(&Wire::X(99), &Wire::Y(0)));
    assert!(wire_before(&Wire::Y(99), &Wire::Z(0)));
    assert!(!wire_before(&Wire::Z(0), &Wire::Y(99)));
    assert!(wire_before(&Wire::X(3), &Wire::X(3)));
    assert!(wire_before(&Wire::X(3), &Wire::X(10)));
    assert!(!wire_before(&Wire::X(10), &Wire::X(3)));
    assert!(wire_before(&other("abc"), &other("abd")));
    assert!(wire_before(&other("ab"), &other("abc")));
    assert!(!wire_before(&other("b"), &other("abc")));
    assert!(same_wire(&other("abc"), &other("abc")));
    assert!(!same_wire(&other("abc"), &other("abd")));
    assert!(!same_wire(&Wire::X(1), &Wire::Y(1)));
    let sorted = sort_wires(vec![Wire::Z(1), other("t01"), Wire::X(4), other("a"), Wire::Y(2), Wire::X(1)]);
    assert_eq!(
        sorted,
        vec![other("a"), other("t01"), Wire::X(1), Wire::X(4), Wire::Y(2), Wire::Z(1)]
    );
}

#[test]
fn day24_signal_map_keeps_the_last_value() {
    let mut map = WireValueMap::new();
    assert_eq!(map.get(&Wire::X(1)), None);
    map.insert(Wire::X(1), true);
    map.insert(other("abc"), false);
    assert_eq!(map.get(&Wire::X(1)), Some(true));
    assert_eq!(map.get(&other("abc")), Some(false));
    assert_eq!(map.get(&Wire::Y(1)), None);
    map.insert(Wire::X(1), false);
    assert_eq!(map.get(&Wire::X(1)), Some(false));
    assert_eq!(map.get(&other("abc")), Some(false));
}

#[test]
fn day24_rows_are_read() {
    assert_eq!(trim(&chars("  \t ab c \r")), chars("ab c"));
    assert_eq!(trim(&chars("   ")), chars(""));
    assert_eq!(trim(&chars("\u{a0}x\u{3000}")), chars("x"));
    assert_eq!(read_signal(&chars("x05: 1")), Some((Wire::X(5), true)));
    assert_eq!(read_signal(&chars("abc: 0")), Some((other("abc"), false)));
    assert_eq!(read_signal(&chars("abc: 7")), Some((other("abc"), true)));
    assert_eq!(read_signal(&chars("abc:")), None);
    assert_eq!(read_signal(&chars("x0a: 1")), None);
    assert_eq!(
        read_gate(&chars("y03 XOR x03 -> abc")),
        Some(gate(Op::Xor, Wire::X(3), Wire::Y(3), other("abc")))
    );
    assert_eq!(
        read_gate(&chars("x03 OR abc -> z00")),
        Some(gate(Op::Or, other("abc"), Wire::X(3), Wire::Z(0)))
    );
    assert_eq!(read_gate(&chars("x03 NOR abc -> z00")), None);
    assert_eq!(read_gate(&chars("x03 OR abc ->")), None);
    assert_eq!(read_gate(&chars("x03 OR xyz -> z00")), None);
    assert_eq!(read_gate(&chars("")), None);
}

#[test]
fn day24_text_without_gates() {
    let (available, gates) = prepare("x00: 1").unwrap();
    assert_eq!(available.get(&Wire::X(0)), Some(true));
    assert!(gates.is_empty());
    let (_, gates) = prepare("").unwrap();
    assert!(gates.is_empty());
    assert!(prepare("x00: 1\n\nnot a gate").is_none());
    assert!(prepare("x0\n\nx00 AND y00 -> z00").is_none());
}

#[test]
fn day24_gates_wait_for_their_inputs() {
    let text = "x00: 1\ny00: 0\n\nabc XOR y00 -> z01\nx00 OR y00 -> abc\nabc AND x00 -> z00";
    assert_eq!(solve_part1(text), Some(3));
}

#[test]
fn day24_circuit_that_does_not_settle() {
    let text = "x00: 1\n\nabc AND x00 -> z00";
    assert_eq!(solve_part1(text), None);
    let text = "x00: 1\n\nabc AND x00 -> def\ndef OR x00 -> abc";
    assert_eq!(solve_part1(text), None);
    let mut gates = GateVec::new();
    gates.push_back(gate(Op::And, Wire::X(0), Wire::Y(0), Wire::Z(0)));
    assert_eq!(evaluate_circuit(WireValueMap::new(), gates), None);
    assert_eq!(evaluate_circuit(WireValueMap::new(), GateVec::new()), Some(0));
}

#[test]
fn day24_number_of_the_z_wires() {
    let mut map = WireValueMap::new();
    map.insert(Wire::Z(0), true);
    map.insert(Wire::Z(1), false);
    map.insert(Wire::Z(5), true);
    map.insert(Wire::X(2), true);
    map.insert(Wire::Z(63), true);
    assert_eq!(read_number_of(&map), Some((1 << 63) + 32 + 1));
    map.insert(Wire::Z(64), false);
    assert_eq!(read_number_of(&map), Some((1 << 63) + 32 + 1));
    map.insert(Wire::Z(64), true);
    assert_eq!(read_number_of(&map), None);
}

#[test]
fn day24_gate_matching() {
    let g = gate(Op::Xor, Wire::X(1), Wire::Y(1), other("abc"));
    assert!(match_xor(&g, &Wire::X(1), &Wire::Y(1)));
    assert!(match_xor(&g, &Wire::Y(1), &Wire::X(1)));
    assert!(!match_xor(&g, &Wire::Y(1), &Wire::X(2)));
    assert!(!match_and(&g, &Wire::X(1), &Wire::Y(1)));
    assert!(!match_or(&g, &Wire::X(1), &Wire::Y(1)));
    assert!(match_op(&g, &Wire::X(1), &Wire::Y(1), Op::Xor));
    assert!(match_out(&g, &other("abc")));
    assert!(!match_out(&g, &Wire::Z(1)));
}

#[test]
fn day24_exchange_of_outputs() {
    let gates = vec![
        gate(Op::Xor, Wire::X(1), Wire::Y(1), other("abc")),
        gate(Op::And, Wire::X(1), Wire::Y(1), Wire::Z(1)),
        gate(Op::Or, Wire::X(2), Wire::Y(2), other("def")),
    ];
    let r = exchange(&gates, &other("abc"), &Wire::Z(1));
    assert_eq!(
        r,
        vec![
            gate(Op::Xor, Wire::X(1), Wire::Y(1), Wire::Z(1)),
            gate(Op::And, Wire::X(1), Wire::Y(1), other("abc")),
            gate(Op::Or, Wire::X(2), Wire::Y(2), other("def")),
        ]
    );
}

#[test]
fn day24_sound_adder_needs_no_fix() {
    assert_eq!(solve_part1(ADDER), Some(4));
    assert_eq!(solve_part2(ADDER, 2), Some(String::new()));
    assert_eq!(solve_part2(ADDER, 1), Some(String::new()));
    // the gates of a third bit are missing
    assert_eq!(solve_part2(ADDER, 3), None);
    assert_eq!(solve_part2(EXAMPLE_INPUT, 1), None);
}

#[test]
fn day24_exchanged_sum_is_found() {
    assert_eq!(solve_part2(ADDER_WITH_SUM_EXCHANGED, 2), Some("t01,z01".to_string()));
    let (_, gates) = prepare(ADDER_WITH_SUM_EXCHANGED).unwrap();
    assert_eq!(
        find_fixes(gates.into_iter().collect(), 2),
        Some(vec![Wire::Z(1), other("t01")])
    );
}

#[test]
fn day24_exchanged_half_sum_is_found() {
    assert_eq!(solve_part2(ADDER_WITH_HALF_EXCHANGED, 2), Some("a01,h01".to_string()));
    let (_, gates) = prepare(ADDER_WITH_HALF_EXCHANGED).unwrap();
    assert_eq!(
        find_fixes(gates.into_iter().collect(), 2),
        Some(vec![other("h01"), other("a01")])
    );
}

#[test]
fn day24_solve_needs_the_whole_adder() {
    assert_eq!(solve(ADDER.to_string()), None);
    assert_eq!(solve("x0".to_string()), None);
    assert_eq!(Solution::from(4u64), Solution::U64(4));
}
