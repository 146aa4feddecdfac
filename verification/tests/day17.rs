use advent::days::day17::{
    execute, execute_one, find_copy, first_outputs, list, load, prepare, solve, solve_part1,
    solve_part2, table, Halt, Machine,
};
use advent::Solution;

const EXAMPLE_INPUT: &str = "
    Register A: 729
    Register B: 0
    Register C: 0

    Program: 0,1,5,4,3,0";

const EXAMPLE_INPUT_2: &str = "
    Register A: 2024
    Register B: 0
    Register C: 0

    Program: 0,3,5,4,3,0";

const FUEL: u64 = 10_000;

fn machine(a: u64, b: u64, c: u64, program: Vec<u8>) -> Machine {
    Machine { a, b, c, ip: 0, program }
}

#[test]
fn day17_example_part1() {
    let mut m = machine(0, 0, 9, vec![2, 6]);
    execute(&mut m, FUEL);
    assert_eq!(1, m.b);

    let mut m = machine(10, 0, 0, vec![5, 0, 5, 1, 5, 4]);
    assert_eq!(vec![0, 1, 2], execute(&mut m, FUEL).0);

    let mut m = machine(2024, 0, 0, vec![0, 1, 5, 4, 3, 0]);
    assert_eq!(vec![4, 2, 5, 6, 7, 7, 7, 7, 3, 1, 0], execute(&mut m, FUEL).0);
    assert_eq!(0, m.a);

    let mut m = machine(0, 29, 0, vec![1, 7]);
    execute(&mut m, FUEL);
    assert_eq!(26, m.b);

    let mut m = machine(0, 2024, 43690, vec![4, 0]);
    execute(&mut m, FUEL);
    assert_eq!(44354, m.b);

    assert_eq!(solve_part1(EXAMPLE_INPUT), Some("4,6,3,5,6,3,5,2,1,0".to_string()));
}

#[test]
fn day17_example_part2() {
    let mut m = machine(117440, 0, 0, vec![0, 3, 5, 4, 3, 0]);
    let out = execute(&mut m, FUEL).0;
    assert_eq!(m.program, out);

    assert_eq!(solve_part2(EXAMPLE_INPUT_2), Some(117440));
}

#[test]
fn day17_preparation() {
    let m = prepare(EXAMPLE_INPUT);
    assert_eq!(Some(machine(729, 0, 0, vec![0, 1, 5, 4, 3, 0])), m);
}

#[test]
fn day17_run_ends_done() {
    let mut m = machine(10, 0, 0, vec![5, 0, 5, 1, 5, 4]);
    assert_eq!(execute(&mut m, FUEL), (vec![0, 1, 2], Halt::Done));
    assert_eq!(m.ip, 6);
}

#[test]
fn day17_endless_run_is_given_up() {
    // jump to the start for ever
    let mut m = machine(1, 0, 0, vec![3, 0]);
    assert_eq!(execute(&mut m, 50), (vec![], Halt::Tired));
    assert_eq!(m.ip, 0);
    let mut m = machine(1, 0, 0, vec![5, 4, 3, 0]);
    assert_eq!(execute(&mut m, 4), (vec![1, 1], Halt::Tired));
}

#[test]
fn day17_reserved_operand_is_a_fault() {
    let mut m = machine(1, 0, 0, vec![5, 1, 0, 7]);
    assert_eq!(execute(&mut m, FUEL), (vec![1], Halt::Fault));
    assert_eq!(m.ip, 2);
    assert_eq!(m.a, 1);
}

#[test]
fn day17_unknown_operation_and_missing_operand_are_faults() {
    let mut m = machine(1, 0, 0, vec![9, 0]);
    assert_eq!(execute(&mut m, FUEL).1, Halt::Fault);
    let mut m = machine(1, 0, 0, vec![1, 0, 4]);
    assert_eq!(execute(&mut m, FUEL).1, Halt::Fault);
    assert_eq!(m.ip, 2);
}

#[test]
fn day17_single_instructions() {
    // adv with a register as operand
    let mut m = machine(64, 3, 0, vec![0, 5]);
    assert_eq!(execute_one(&mut m), Some(None));
    assert_eq!((m.a, m.b, m.c, m.ip), (8, 3, 0, 2));
    // bdv and cdv leave A alone
    let mut m = machine(64, 0, 0, vec![6, 2, 7, 3]);
    assert_eq!(execute_one(&mut m), Some(None));
    assert_eq!(execute_one(&mut m), Some(None));
    assert_eq!((m.a, m.b, m.c, m.ip), (64, 16, 8, 4));
    // out puts the low three bits
    let mut m = machine(0, 0, 13, vec![5, 6]);
    assert_eq!(execute_one(&mut m), Some(Some(5)));
    // jnz with A zero goes on
    let mut m = machine(0, 0, 0, vec![3, 4]);
    assert_eq!(execute_one(&mut m), Some(None));
    assert_eq!(m.ip, 2);
    // a literal seven is no fault for bxl
    let mut m = machine(0, 0, 0, vec![1, 7]);
    assert_eq!(execute_one(&mut m), Some(None));
    assert_eq!(m.b, 7);
}

#[test]
fn day17_shift_by_a_large_number_clears() {
    let mut m = machine(u64::MAX, 64, 1 << 40, vec![0, 5]);
    assert_eq!(execute_one(&mut m), Some(None));
    assert_eq!(m.a, 0);
    let mut m = machine(u64::MAX, 63, 0, vec![0, 5]);
    assert_eq!(execute_one(&mut m), Some(None));
    assert_eq!(m.a, 1);
}

#[test]
fn day17_list_writes_commas_between() {
    assert_eq!(list(&vec![]), Vec::<char>::new());
    assert_eq!(list(&vec![7]), vec!['7']);
    assert_eq!(list(&vec![1, 20, 3]), "1,20,3".chars().collect::<Vec<_>>());
}

#[test]
fn day17_load_needs_three_registers_and_bytes() {
    assert_eq!(load(&vec![1, 2]), None);
    assert_eq!(load(&vec![1, 2, 3]), Some(machine(1, 2, 3, vec![])));
    assert_eq!(load(&vec![1, 2, 3, 255]), Some(machine(1, 2, 3, vec![255])));
    assert_eq!(load(&vec![1, 2, 3, 256]), None);
    assert_eq!(prepare("no number"), None);
    assert_eq!(prepare("1 2 3 99999999999999999999999"), None);
}

#[test]
fn day17_table_sorts_patterns_by_first_output() {
    let mut m = machine(0, 0, 0, vec![0, 3, 5, 4, 3, 0]);
    let firsts = first_outputs(&mut m).unwrap();
    assert_eq!(firsts.len(), 1024);
    assert_eq!(firsts[0], 0);
    assert_eq!(firsts[8], 1);
    assert_eq!(firsts[63], 7);
    let all = table(&firsts);
    assert_eq!(all.len(), 8);
    assert_eq!(all[0][..3], [0, 1, 2]);
    assert_eq!(all[1][..2], [8, 9]);
    assert_eq!(all.iter().map(|p| p.len()).sum::<usize>(), 1024);
}

#[test]
fn day17_no_copy_without_output() {
    let mut m = machine(0, 0, 0, vec![1, 0]);
    assert_eq!(first_outputs(&mut m), None);
    assert_eq!(find_copy(&mut m), None);
    assert_eq!(solve_part2("0 0 0 1,0"), None);
}

#[test]
fn day17_solve_pairs_both_answers() {
    assert_eq!(
        solve(EXAMPLE_INPUT_2.to_string()),
        Some((Solution::Str("5,7,3,0".to_string()), Solution::U64(117440)))
    );
    assert_eq!(solve("nothing".to_string()), None);
}
